use vstd::prelude::*;

verus! {

/// How a body takes part in the simulation.
#[derive(Clone, Copy, Debug, PartialEq, Eq, Structural)]
pub enum BodyStatus {
    /// Moved by forces and contacts.
    Dynamic,
    /// Moved only by a prescribed velocity.
    Kinematic,
    /// Never moves.
    Static,
    /// Ignored by the simulation.
    Disabled,
}

/// The number of degrees of freedom a body exposes to the solver.
pub open spec fn status_dofs(status: BodyStatus, ndofs: nat) -> nat {
    match status {
        BodyStatus::Static | BodyStatus::Disabled => 0,
        _ => ndofs,
    }
}

/// Degrees of freedom seen by the solver: none for static or disabled
/// bodies, all of them otherwise.
pub fn status_dependent_ndofs(status: BodyStatus, ndofs: usize) -> (r: usize)
    ensures
        r as nat == status_dofs(status, ndofs as nat),
{
    match status {
        BodyStatus::Static | BodyStatus::Disabled => 0,
        _ => ndofs,
    }
}


/// Which cached quantities of a body are stale and must be recomputed.
#[derive(Clone, Copy, Debug, PartialEq, Eq, Structural)]
pub struct BodyUpdateStatus {
    pub position_changed: bool,
    pub velocity_changed: bool,
    pub local_inertia_changed: bool,
    pub local_com_changed: bool,
    pub status_changed: bool,
}

impl BodyUpdateStatus {
    /// Everything is stale, as for a new body.
    pub fn all() -> (r: Self)
        ensures
            r.position_changed && r.velocity_changed && r.local_inertia_changed && r.local_com_changed
                && r.status_changed,
    {
        BodyUpdateStatus {
            position_changed: true,
            velocity_changed: true,
            local_inertia_changed: true,
            local_com_changed: true,
            status_changed: true,
        }
    }

    /// Marks everything as up to date, at the end of a step.
    pub fn clear(&mut self)
        ensures
            !final(self).position_changed && !final(self).velocity_changed
                && !final(self).local_inertia_changed && !final(self).local_com_changed
                && !final(self).status_changed,
    {
        *self = BodyUpdateStatus {
            position_changed: false,
            velocity_changed: false,
            local_inertia_changed: false,
            local_com_changed: false,
            status_changed: false,
        };
    }

    pub open spec fn needs_inertia_update(self) -> bool {
        self.position_changed || self.local_inertia_changed || self.local_com_changed
            || self.status_changed
    }

    /// Whether the mass operator must be assembled again: it depends on the
    /// configuration, the local inertia and center of mass, and the status.
    pub fn inertia_needs_update(&self) -> (r: bool)
        ensures
            r == self.needs_inertia_update(),
    {
        self.position_changed || self.local_inertia_changed || self.local_com_changed
            || self.status_changed
    }
}

/// Whether the broad phase keeps a pair of colliders: at least one of the
/// two bodies must have degrees of freedom the solver sees.
pub fn is_pair_valid(status_dependent_ndofs1: usize, status_dependent_ndofs2: usize) -> (r: bool)
    ensures
        r == (status_dependent_ndofs1 != 0 || status_dependent_ndofs2 != 0),
{
    status_dependent_ndofs1 != 0 || status_dependent_ndofs2 != 0
}

/// The state of one side of a contact manifold that decides whether the
/// solver handles it.
#[derive(Clone, Copy, Debug, PartialEq, Eq, Structural)]
pub struct ManifoldSide {
    pub status: BodyStatus,
    pub ndofs: usize,
    pub active: bool,
}

/// Whether one side of a manifold is a body the solver moves this step.
pub open spec fn side_moves(s: ManifoldSide) -> bool {
    status_dofs(s.status, s.ndofs as nat) != 0 && s.active
}

/// Whether the solver handles a contact manifold: it drops pairs of disabled
/// bodies and pairs where neither body has degrees of freedom the solver
/// sees, as well as pairs whose moving bodies are asleep this step.
pub fn keep_manifold(side1: ManifoldSide, side2: ManifoldSide) -> (r: bool)
    ensures
        r == (!(side1.status == BodyStatus::Disabled && side2.status == BodyStatus::Disabled) && (
        side_moves(side1) || side_moves(side2))),
        r ==> status_dofs(side1.status, side1.ndofs as nat) != 0 || status_dofs(
            side2.status,
            side2.ndofs as nat,
        ) != 0,
{
    let both_disabled = side1.status == BodyStatus::Disabled && side2.status == BodyStatus::Disabled;
    let moves1 = status_dependent_ndofs(side1.status, side1.ndofs) != 0 && side1.active;
    let moves2 = status_dependent_ndofs(side2.status, side2.ndofs) != 0 && side2.active;
    !both_disabled && (moves1 || moves2)
}

/// Per-axis locks of a rigid body's degrees of freedom (translations along
/// x, y, z, then rotations about x, y, z). A locked degree of freedom takes
/// no impulse from contacts or forces; its velocity is set from outside.
#[derive(Clone, Copy, Debug)]
pub struct JacobianMask {
    pub kinematic_translations: [bool; 3],
    pub kinematic_rotations: [bool; 3],
}

impl JacobianMask {
    /// Nothing is locked.
    pub fn new() -> (r: Self)
        ensures
            forall|i: int| 0 <= i < 3 ==> !#[trigger] r.kinematic_translations[i] && !r.kinematic_rotations[i],
    {
        JacobianMask { kinematic_translations: [false, false, false], kinematic_rotations: [false, false, false] }
    }

    pub fn set_kinematic_translations(&mut self, is_kinematic: [bool; 3])
        ensures
            final(self).kinematic_translations == is_kinematic,
            final(self).kinematic_rotations == old(self).kinematic_rotations,
    {
        self.kinematic_translations = is_kinematic;
    }

    pub fn set_kinematic_rotations(&mut self, is_kinematic: [bool; 3])
        ensures
            final(self).kinematic_rotations == is_kinematic,
            final(self).kinematic_translations == old(self).kinematic_translations,
    {
        self.kinematic_rotations = is_kinematic;
    }

    pub fn kinematic_translations(&self) -> (r: [bool; 3])
        ensures
            r == self.kinematic_translations,
    {
        self.kinematic_translations
    }

    pub fn kinematic_rotations(&self) -> (r: [bool; 3])
        ensures
            r == self.kinematic_rotations,
    {
        self.kinematic_rotations
    }

    pub open spec fn locked(self, i: int) -> bool {
        if i < 3 {
            self.kinematic_translations[i]
        } else {
            self.kinematic_rotations[i - 3]
        }
    }

    /// Whether degree of freedom `i` (of six) is locked; its entry of the
    /// mask is 0 if so and 1 otherwise.
    pub fn is_locked(&self, i: usize) -> (r: bool)
        requires
            i < 6,
        ensures
            r == self.locked(i as int),
    {
        if i < 3 {
            self.kinematic_translations[i]
        } else {
            self.kinematic_rotations[i - 3]
        }
    }
}

} // verus!
