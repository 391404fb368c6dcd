use vstd::prelude::*;

use slab::Slab;

use crate::body::{status_dependent_ndofs, status_dofs, BodyStatus};
use crate::slab_store::{
    joint_slab_get, joint_slab_insert, joint_slab_keys, joint_slab_new, joint_slab_remove,
    joint_slots, JointAnchors,
};

verus! {

/// Identifies a body of a world. Handles are never reused.
#[derive(Clone, Copy, Debug, PartialEq, Eq, Structural)]
pub struct BodyHandle(pub usize);

/// Sentinel value of the ground's handle.
pub const GROUND_HANDLE: usize = usize::MAX;

impl BodyHandle {
    /// The handle of the ground, a static body with a single part.
    pub fn ground() -> (r: BodyHandle)
        ensures
            r.0 == GROUND_HANDLE,
    {
        BodyHandle(GROUND_HANDLE)
    }

    pub fn is_ground(&self) -> (r: bool)
        ensures
            r == (self.0 == GROUND_HANDLE),
    {
        self.0 == GROUND_HANDLE
    }
}

/// Identifies one part of a body (a rigid body has one, a multibody one per
/// link, a finite-element volume one per element).
#[derive(Clone, Copy, Debug, PartialEq, Eq, Structural)]
pub struct BodyPartHandle {
    pub body_handle: BodyHandle,
    pub part_id: usize,
}

impl BodyPartHandle {
    /// The single part of the ground.
    pub fn ground() -> (r: BodyPartHandle)
        ensures
            r.body_handle.0 == GROUND_HANDLE,
            r.part_id == 0,
    {
        BodyPartHandle { body_handle: BodyHandle::ground(), part_id: 0 }
    }

    pub fn is_ground(&self) -> (r: bool)
        ensures
            r == (self.body_handle.0 == GROUND_HANDLE),
    {
        self.body_handle.is_ground()
    }
}

/// Identifies a collider of the collision world.
#[derive(Clone, Copy, Debug, PartialEq, Eq, Structural)]
pub struct ColliderHandle(pub usize);

/// Identifies a joint constraint of a world.
pub type ConstraintHandle = usize;

/// What a collider is attached to.
#[derive(Clone, Copy, Debug, PartialEq, Eq, Structural)]
pub enum ColliderAnchor {
    /// A part of a body, rigidly.
    OnBodyPart(BodyPartHandle),
    /// A whole deformable body, whose nodes the collider's shape follows.
    OnDeformableBody(BodyHandle),
}

/// What the registry knows of a body.
#[derive(Clone, Copy, Debug, PartialEq, Eq, Structural)]
pub struct BodyRecord {
    pub status: BodyStatus,
    pub ndofs: usize,
    pub nparts: usize,
    /// Whether the body is awake.
    pub active: bool,
}

/// Abstract content of a registry. Body `h` is `bodies[h]` when that is
/// `Some`; a removed body leaves `None` behind, so that `bodies.len()` counts
/// every handle ever issued.
pub struct RegistryView {
    pub bodies: Seq<Option<BodyRecord>>,
    /// Colliders attached to something other than the ground.
    pub colliders: Seq<(ColliderHandle, ColliderAnchor)>,
    pub joints: Map<usize, JointAnchors>,
}

impl RegistryView {
    pub open spec fn contains_body(self, h: BodyHandle) -> bool {
        h.0 == GROUND_HANDLE || (h.0 < self.bodies.len() && self.bodies[h.0 as int] is Some)
    }

    pub open spec fn contains_body_part(self, p: BodyPartHandle) -> bool {
        if p.body_handle.0 == GROUND_HANDLE {
            p.part_id == 0
        } else {
            self.contains_body(p.body_handle) && p.part_id < self.bodies[p.body_handle.0 as int]->0.nparts
        }
    }

    pub open spec fn anchor_alive(self, a: ColliderAnchor) -> bool {
        match a {
            ColliderAnchor::OnBodyPart(p) => self.contains_body_part(p),
            ColliderAnchor::OnDeformableBody(b) => self.contains_body(b),
        }
    }

    pub open spec fn joint_alive(self, j: JointAnchors) -> bool {
        self.contains_body_part(j.0) && self.contains_body_part(j.1)
    }

    /// Degrees of freedom the solver sees for body `h` (none for the ground).
    pub open spec fn sdn(self, h: BodyHandle) -> nat {
        if h.0 == GROUND_HANDLE {
            0
        } else {
            let b = self.bodies[h.0 as int]->0;
            status_dofs(b.status, b.ndofs as nat)
        }
    }

    pub open spec fn is_active(self, h: BodyHandle) -> bool {
        h.0 != GROUND_HANDLE && self.bodies[h.0 as int]->0.active
    }

    /// Nothing refers to a body that is not there.
    pub open spec fn wf(self) -> bool {
        &&& self.bodies.len() < GROUND_HANDLE
        &&& forall|i: int|
            0 <= i < self.colliders.len() ==> self.anchor_alive(#[trigger] self.colliders[i].1)
        &&& forall|k: usize| #[trigger]
            self.joints.contains_key(k) ==> self.joint_alive(self.joints[k])
    }

    /// The same registry with one more body, under the next handle.
    pub open spec fn with_new_body(self, status: BodyStatus, ndofs: usize, nparts: usize) -> RegistryView {
        RegistryView {
            bodies: self.bodies.push(Some(BodyRecord { status, ndofs, nparts, active: true })),
            colliders: self.colliders,
            joints: self.joints,
        }
    }

    /// `after` differs from `self` at most by bodies that woke up.
    pub open spec fn only_wakes(self, after: RegistryView) -> bool {
        &&& after.bodies.len() == self.bodies.len()
        &&& forall|i: int|
            0 <= i < self.bodies.len() ==> (#[trigger] after.bodies[i] is Some <==> self.bodies[i] is Some)
        &&& forall|i: int|
            0 <= i < self.bodies.len() && #[trigger] after.bodies[i] is Some ==> {
                let a = after.bodies[i]->0;
                let b = self.bodies[i]->0;
                a.status == b.status && a.ndofs == b.ndofs && a.nparts == b.nparts && (b.active
                    ==> a.active)
            }
    }
}

/// Colliders of `cs` whose anchor is still there, in order.
pub open spec fn live_colliders(cs: Seq<(ColliderHandle, ColliderAnchor)>, r: RegistryView) -> Seq<
    (ColliderHandle, ColliderAnchor),
>
    decreases cs.len(),
{
    if cs.len() == 0 {
        Seq::empty()
    } else {
        let prev = live_colliders(cs.drop_last(), r);
        if r.anchor_alive(cs.last().1) {
            prev.push(cs.last())
        } else {
            prev
        }
    }
}

/// Handles of the colliders of `cs` whose anchor is gone, in order.
pub open spec fn dead_colliders(cs: Seq<(ColliderHandle, ColliderAnchor)>, r: RegistryView) -> Seq<
    ColliderHandle,
>
    decreases cs.len(),
{
    if cs.len() == 0 {
        Seq::empty()
    } else {
        let prev = dead_colliders(cs.drop_last(), r);
        if r.anchor_alive(cs.last().1) {
            prev
        } else {
            prev.push(cs.last().0)
        }
    }
}

/// The bodies, colliders and joint constraints of a world, and which of
/// them refer to which.
pub struct Registry {
    bodies: Vec<Option<BodyRecord>>,
    colliders_w_parent: Vec<(ColliderHandle, ColliderAnchor)>,
    constraints: Slab<JointAnchors>,
}

impl View for Registry {
    type V = RegistryView;

    closed spec fn view(&self) -> RegistryView {
        RegistryView {
            bodies: self.bodies@,
            colliders: self.colliders_w_parent@,
            joints: joint_slots(self.constraints),
        }
    }
}

impl Registry {
    /// An empty world: only the ground.
    pub fn new() -> (r: Registry)
        ensures
            r@.wf(),
            r@.bodies.len() == 0,
            r@.colliders.len() == 0,
            r@.joints == Map::<usize, JointAnchors>::empty(),
    {
        Registry { bodies: Vec::new(), colliders_w_parent: Vec::new(), constraints: joint_slab_new() }
    }

    /// Adds a body and returns its handle, the first one never issued; `None`
    /// once every handle but the ground's has been issued. A new body is awake.
    pub fn add_body(&mut self, status: BodyStatus, ndofs: usize, nparts: usize) -> (r: Option<BodyHandle>)
        requires
            old(self)@.wf(),
        ensures
            final(self)@.wf(),
            old(self)@.bodies.len() + 1 < GROUND_HANDLE ==> r == Some(BodyHandle(old(self)@.bodies.len() as usize)),
            r is Some ==> final(self)@ == old(self)@.with_new_body(status, ndofs, nparts),
            r is None ==> final(self)@ == old(self)@ && old(self)@.bodies.len() + 1 >= GROUND_HANDLE,
    {
        if self.bodies.len() + 1 >= GROUND_HANDLE {
            return None;
        }
        let h = self.bodies.len();
        let ghost before = self@;
        self.bodies.push(Some(BodyRecord { status, ndofs, nparts, active: true }));
        proof {
            assert(self@.bodies == before.bodies.push(Some(BodyRecord { status, ndofs, nparts, active: true })));
            assert forall|i: int| 0 <= i < self@.colliders.len() implies self@.anchor_alive(
                #[trigger] self@.colliders[i].1,
            ) by {
                assert(before.anchor_alive(before.colliders[i].1));
                match before.colliders[i].1 {
                    ColliderAnchor::OnBodyPart(p) => {
                        if p.body_handle.0 != GROUND_HANDLE {
                            assert(self@.bodies[p.body_handle.0 as int] == before.bodies[p.body_handle.0 as int]);
                        }
                    },
                    ColliderAnchor::OnDeformableBody(b) => {
                    },
                }
            }
            assert forall|k: usize| #[trigger] self@.joints.contains_key(k) implies self@.joint_alive(
                self@.joints[k],
            ) by {
                assert(before.joint_alive(before.joints[k]));
                let j = before.joints[k];
                if j.0.body_handle.0 != GROUND_HANDLE {
                    assert(self@.bodies[j.0.body_handle.0 as int] == before.bodies[j.0.body_handle.0 as int]);
                }
                if j.1.body_handle.0 != GROUND_HANDLE {
                    assert(self@.bodies[j.1.body_handle.0 as int] == before.bodies[j.1.body_handle.0 as int]);
                }
            }
        }
        Some(BodyHandle(h))
    }

    pub fn contains_body(&self, h: BodyHandle) -> (r: bool)
        ensures
            r == self@.contains_body(h),
    {
        h.is_ground() || (h.0 < self.bodies.len() && self.bodies[h.0].is_some())
    }

    pub fn contains_body_part(&self, p: BodyPartHandle) -> (r: bool)
        ensures
            r == self@.contains_body_part(p),
    {
        if p.is_ground() {
            p.part_id == 0
        } else if p.body_handle.0 < self.bodies.len() {
            match self.bodies[p.body_handle.0] {
                Some(b) => p.part_id < b.nparts,
                None => false,
            }
        } else {
            false
        }
    }

    /// The record of a body that is there.
    pub fn body(&self, h: BodyHandle) -> (r: BodyRecord)
        requires
            self@.contains_body(h),
            h.0 != GROUND_HANDLE,
        ensures
            r == self@.bodies[h.0 as int]->0,
    {
        self.bodies[h.0].unwrap()
    }

    /// Degrees of freedom the solver sees for a body that is there.
    pub fn body_status_dependent_ndofs(&self, h: BodyHandle) -> (r: usize)
        requires
            self@.contains_body(h),
        ensures
            r == self@.sdn(h),
    {
        if h.is_ground() {
            0
        } else {
            let b = self.bodies[h.0].unwrap();
            status_dependent_ndofs(b.status, b.ndofs)
        }
    }

    pub fn is_body_active(&self, h: BodyHandle) -> (r: bool)
        requires
            self@.contains_body(h),
        ensures
            r == self@.is_active(h),
    {
        if h.is_ground() {
            false
        } else {
            self.bodies[h.0].unwrap().active
        }
    }

    /// Wakes up a body, unless the solver sees none of its degrees of
    /// freedom (the ground, static and disabled bodies).
    pub fn activate_body(&mut self, h: BodyHandle)
        requires
            old(self)@.wf(),
            old(self)@.contains_body(h),
        ensures
            final(self)@.wf(),
            old(self)@.only_wakes(final(self)@),
            final(self)@.colliders == old(self)@.colliders,
            final(self)@.joints == old(self)@.joints,
            final(self)@.sdn(h) != 0 ==> final(self)@.is_active(h),
            forall|i: int|
                0 <= i < old(self)@.bodies.len() && i != h.0 ==> #[trigger] final(self)@.bodies[i]
                    == old(self)@.bodies[i],
            h.0 != GROUND_HANDLE ==> final(self)@.bodies[h.0 as int] == Some(
                BodyRecord {
                    active: old(self)@.bodies[h.0 as int]->0.active || old(self)@.sdn(h) != 0,
                    ..old(self)@.bodies[h.0 as int]->0
                },
            ),
    {
        let ghost before = self@;
        self.wake(h);
        proof {
            lemma_same_shape_keeps_wf(before, self@);
        }
    }

    /// Puts a body to sleep.
    pub fn deactivate_body(&mut self, h: BodyHandle)
        requires
            old(self)@.wf(),
            old(self)@.contains_body(h),
            h.0 != GROUND_HANDLE,
        ensures
            final(self)@.wf(),
            final(self)@.colliders == old(self)@.colliders,
            final(self)@.joints == old(self)@.joints,
            final(self)@.bodies == old(self)@.bodies.update(
                h.0 as int,
                Some(BodyRecord { active: false, ..old(self)@.bodies[h.0 as int]->0 }),
            ),
    {
        let ghost before = self@;
        let b = self.bodies[h.0].unwrap();
        self.bodies.set(h.0, Some(BodyRecord { active: false, ..b }));
        proof {
            lemma_same_shape_keeps_wf(before, self@);
        }
    }
}

/// `wf` only looks at which bodies are there and at their part counts.
proof fn lemma_same_shape_keeps_wf(before: RegistryView, after: RegistryView)
    requires
        before.wf(),
        after.bodies.len() == before.bodies.len(),
        forall|i: int|
            0 <= i < before.bodies.len() ==> (#[trigger] after.bodies[i] is Some <==> before.bodies[i] is Some),
        forall|i: int|
            0 <= i < before.bodies.len() && #[trigger] after.bodies[i] is Some ==> after.bodies[i]->0.nparts
                == before.bodies[i]->0.nparts,
        after.colliders == before.colliders,
        forall|k: usize| #[trigger] after.joints.contains_key(k) ==> before.joints.contains_key(k)
            && after.joints[k] == before.joints[k],
    ensures
        after.wf(),
        forall|p: BodyPartHandle| #[trigger] after.contains_body_part(p) == before.contains_body_part(p),
{
    assert forall|p: BodyPartHandle| #[trigger] after.contains_body_part(p) == before.contains_body_part(p) by {
        if p.body_handle.0 != GROUND_HANDLE && p.body_handle.0 < before.bodies.len() {
            let i = p.body_handle.0 as int;
            assert(after.bodies[i] is Some <==> before.bodies[i] is Some);
        }
    }
    assert forall|i: int| 0 <= i < after.colliders.len() implies after.anchor_alive(
        #[trigger] after.colliders[i].1,
    ) by {
        assert(before.anchor_alive(before.colliders[i].1));
        match before.colliders[i].1 {
            ColliderAnchor::OnBodyPart(p) => {
                assert(after.contains_body_part(p) == before.contains_body_part(p));
            },
            ColliderAnchor::OnDeformableBody(b) => {
                if b.0 != GROUND_HANDLE && b.0 < before.bodies.len() {
                    assert(after.bodies[b.0 as int] is Some <==> before.bodies[b.0 as int] is Some);
                }
            },
        }
    }
    assert forall|k: usize| #[trigger] after.joints.contains_key(k) implies after.joint_alive(after.joints[k]) by {
        assert(before.joint_alive(before.joints[k]));
        assert(after.contains_body_part(after.joints[k].0) == before.contains_body_part(after.joints[k].0));
        assert(after.contains_body_part(after.joints[k].1) == before.contains_body_part(after.joints[k].1));
    }
}


/// Facts that hold from one registry to another that only woke bodies up.
proof fn lemma_only_wakes(a: RegistryView, b: RegistryView)
    requires
        a.only_wakes(b),
    ensures
        forall|h: BodyHandle| #[trigger] b.contains_body(h) == a.contains_body(h),
        forall|p: BodyPartHandle| #[trigger] b.contains_body_part(p) == a.contains_body_part(p),
        forall|x: ColliderAnchor| #[trigger] b.anchor_alive(x) == a.anchor_alive(x),
        forall|j: JointAnchors| #[trigger] b.joint_alive(j) == a.joint_alive(j),
        forall|h: BodyHandle| a.contains_body(h) ==> #[trigger] b.sdn(h) == a.sdn(h),
        forall|h: BodyHandle| a.contains_body(h) && a.is_active(h) ==> #[trigger] b.is_active(h),
{
    assert forall|h: BodyHandle| #[trigger] b.contains_body(h) == a.contains_body(h) by {
        if h.0 != GROUND_HANDLE && h.0 < a.bodies.len() {
            assert(b.bodies[h.0 as int] is Some <==> a.bodies[h.0 as int] is Some);
        }
    }
    assert forall|p: BodyPartHandle| #[trigger] b.contains_body_part(p) == a.contains_body_part(p) by {
        let h = p.body_handle;
        if h.0 != GROUND_HANDLE && h.0 < a.bodies.len() {
            assert(b.bodies[h.0 as int] is Some <==> a.bodies[h.0 as int] is Some);
        }
    }
    assert forall|x: ColliderAnchor| #[trigger] b.anchor_alive(x) == a.anchor_alive(x) by {
        match x {
            ColliderAnchor::OnBodyPart(p) => {
                assert(b.contains_body_part(p) == a.contains_body_part(p));
            },
            ColliderAnchor::OnDeformableBody(h) => {
                assert(b.contains_body(h) == a.contains_body(h));
            },
        }
    }
    assert forall|j: JointAnchors| #[trigger] b.joint_alive(j) == a.joint_alive(j) by {
        assert(b.contains_body_part(j.0) == a.contains_body_part(j.0));
        assert(b.contains_body_part(j.1) == a.contains_body_part(j.1));
    }
    assert forall|h: BodyHandle| a.contains_body(h) implies #[trigger] b.sdn(h) == a.sdn(h) by {
        if h.0 != GROUND_HANDLE {
            assert(b.bodies[h.0 as int] is Some);
        }
    }
    assert forall|h: BodyHandle| a.contains_body(h) && a.is_active(h) implies #[trigger] b.is_active(h) by {
        if h.0 != GROUND_HANDLE {
            assert(b.bodies[h.0 as int] is Some);
        }
    }
}

proof fn lemma_only_wakes_trans(a: RegistryView, b: RegistryView, c: RegistryView)
    requires
        a.only_wakes(b),
        b.only_wakes(c),
    ensures
        a.only_wakes(c),
{
    assert forall|i: int| 0 <= i < a.bodies.len() && #[trigger] c.bodies[i] is Some implies {
        let x = c.bodies[i]->0;
        let y = a.bodies[i]->0;
        x.status == y.status && x.ndofs == y.ndofs && x.nparts == y.nparts && (y.active ==> x.active)
    } by {
        assert(b.bodies[i] is Some);
    }
}

impl Registry {
    /// Wakes body `h` up unless the solver sees none of its degrees of freedom.
    fn wake(&mut self, h: BodyHandle)
        requires
            old(self)@.contains_body(h),
        ensures
            old(self)@.only_wakes(final(self)@),
            final(self)@.colliders == old(self)@.colliders,
            final(self)@.joints == old(self)@.joints,
            final(self)@.sdn(h) != 0 ==> final(self)@.is_active(h),
            forall|i: int|
                0 <= i < old(self)@.bodies.len() && i != h.0 ==> #[trigger] final(self)@.bodies[i]
                    == old(self)@.bodies[i],
            h.0 != GROUND_HANDLE ==> final(self)@.bodies[h.0 as int] == Some(
                BodyRecord {
                    active: old(self)@.bodies[h.0 as int]->0.active || old(self)@.sdn(h) != 0,
                    ..old(self)@.bodies[h.0 as int]->0
                },
            ),
    {
        if h.0 == GROUND_HANDLE {
            return;
        }
        let b = self.bodies[h.0].unwrap();
        if status_dependent_ndofs(b.status, b.ndofs) != 0 {
            self.bodies.set(h.0, Some(BodyRecord { active: true, ..b }));
        }
    }
}

fn contains_collider(handles: &Vec<ColliderHandle>, h: ColliderHandle) -> (r: bool)
    ensures
        r == handles@.contains(h),
{
    let mut i: usize = 0;
    while i < handles.len()
        invariant
            i <= handles@.len(),
            forall|k: int| 0 <= k < i ==> handles@[k] != h,
        decreases handles@.len() - i,
    {
        if handles[i] == h {
            return true;
        }
        i = i + 1;
    }
    false
}

/// Colliders of `cs` whose handle is not in `handles`, in order.
pub open spec fn without_colliders(cs: Seq<(ColliderHandle, ColliderAnchor)>, handles: Seq<ColliderHandle>) -> Seq<
    (ColliderHandle, ColliderAnchor),
>
    decreases cs.len(),
{
    if cs.len() == 0 {
        Seq::empty()
    } else {
        let prev = without_colliders(cs.drop_last(), handles);
        if handles.contains(cs.last().0) {
            prev
        } else {
            prev.push(cs.last())
        }
    }
}

proof fn lemma_without_colliders_sub(cs: Seq<(ColliderHandle, ColliderAnchor)>, handles: Seq<ColliderHandle>, i: int)
    requires
        0 <= i < without_colliders(cs, handles).len(),
    ensures
        cs.contains(without_colliders(cs, handles)[i]),
    decreases cs.len(),
{
    let prev = without_colliders(cs.drop_last(), handles);
    if i < prev.len() {
        lemma_without_colliders_sub(cs.drop_last(), handles, i);
        let j = choose|j: int| 0 <= j < cs.drop_last().len() && cs.drop_last()[j] == prev[i];
        assert(cs[j] == prev[i]);
    } else {
        assert(cs[cs.len() - 1] == cs.last());
    }
}

proof fn lemma_live_colliders_alive(cs: Seq<(ColliderHandle, ColliderAnchor)>, r: RegistryView, i: int)
    requires
        0 <= i < live_colliders(cs, r).len(),
    ensures
        r.anchor_alive(live_colliders(cs, r)[i].1),
    decreases cs.len(),
{
    let prev = live_colliders(cs.drop_last(), r);
    if i < prev.len() {
        lemma_live_colliders_alive(cs.drop_last(), r, i);
    }
}

impl Registry {
    /// Records a collider attached to something other than the ground, whose
    /// pose the world then keeps in step with its anchor.
    pub fn add_collider(&mut self, handle: ColliderHandle, anchor: ColliderAnchor)
        requires
            old(self)@.wf(),
            old(self)@.anchor_alive(anchor),
        ensures
            final(self)@.wf(),
            final(self)@.bodies == old(self)@.bodies,
            final(self)@.joints == old(self)@.joints,
            final(self)@.colliders == (if anchor == ColliderAnchor::OnBodyPart(BodyPartHandle::ground_spec()) {
                old(self)@.colliders
            } else {
                old(self)@.colliders.push((handle, anchor))
            }),
    {
        let on_ground = match anchor {
            ColliderAnchor::OnBodyPart(p) => p.is_ground(),
            ColliderAnchor::OnDeformableBody(_) => false,
        };
        if !on_ground {
            self.colliders_w_parent.push((handle, anchor));
        }
        proof {
            if let ColliderAnchor::OnBodyPart(p) = anchor {
                if p.body_handle.0 == GROUND_HANDLE {
                    assert(p == BodyPartHandle::ground_spec());
                }
            }
            assert forall|i: int| 0 <= i < self@.colliders.len() implies self@.anchor_alive(
                #[trigger] self@.colliders[i].1,
            ) by {
                if i < old(self)@.colliders.len() {
                    assert(self@.colliders[i] == old(self)@.colliders[i]);
                }
            }
            assert forall|k: usize| #[trigger] self@.joints.contains_key(k) implies self@.joint_alive(
                self@.joints[k],
            ) by {
                assert(old(self)@.joint_alive(old(self)@.joints[k]));
            }
        }
    }

    /// Forgets the given colliders.
    pub fn remove_colliders(&mut self, handles: &Vec<ColliderHandle>)
        requires
            old(self)@.wf(),
        ensures
            final(self)@.wf(),
            final(self)@.bodies == old(self)@.bodies,
            final(self)@.joints == old(self)@.joints,
            final(self)@.colliders == without_colliders(old(self)@.colliders, handles@),
    {
        let ghost cs = self@.colliders;
        let mut kept: Vec<(ColliderHandle, ColliderAnchor)> = Vec::new();
        let mut i: usize = 0;
        while i < self.colliders_w_parent.len()
            invariant
                cs == self.colliders_w_parent@,
                i <= cs.len(),
                kept@ == without_colliders(cs.take(i as int), handles@),
            decreases cs.len() - i,
        {
            let c = self.colliders_w_parent[i];
            assert(cs.take(i + 1).drop_last() == cs.take(i as int));
            assert(cs.take(i + 1).last() == c);
            if !contains_collider(handles, c.0) {
                kept.push(c);
            }
            i = i + 1;
        }
        assert(cs.take(cs.len() as int) == cs);
        self.colliders_w_parent = kept;
        proof {
            assert forall|i: int| 0 <= i < self@.colliders.len() implies self@.anchor_alive(
                #[trigger] self@.colliders[i].1,
            ) by {
                lemma_without_colliders_sub(cs, handles@, i);
                let j = choose|j: int| 0 <= j < cs.len() && cs[j] == self@.colliders[i];
                assert(old(self)@.anchor_alive(cs[j].1));
            }
            assert forall|k: usize| #[trigger] self@.joints.contains_key(k) implies self@.joint_alive(
                self@.joints[k],
            ) by {
                assert(old(self)@.joint_alive(old(self)@.joints[k]));
            }
        }
    }

    /// Adds a joint constraint between two body parts that are there, and
    /// wakes both bodies up.
    pub fn add_constraint(&mut self, anchors: JointAnchors) -> (k: ConstraintHandle)
        requires
            old(self)@.wf(),
            old(self)@.joint_alive(anchors),
        ensures
            final(self)@.wf(),
            old(self)@.only_wakes(final(self)@),
            final(self)@.colliders == old(self)@.colliders,
            !old(self)@.joints.contains_key(k),
            final(self)@.joints == old(self)@.joints.insert(k, anchors),
            final(self)@.sdn(anchors.0.body_handle) != 0 ==> final(self)@.is_active(anchors.0.body_handle),
            final(self)@.sdn(anchors.1.body_handle) != 0 ==> final(self)@.is_active(anchors.1.body_handle),
            forall|i: int|
                0 <= i < old(self)@.bodies.len() && i != anchors.0.body_handle.0 && i
                    != anchors.1.body_handle.0 ==> #[trigger] final(self)@.bodies[i] == old(self)@.bodies[i],
    {
        let ghost before = self@;
        self.activate_body(anchors.0.body_handle);
        let ghost mid = self@;
        self.activate_body(anchors.1.body_handle);
        proof {
            lemma_only_wakes_trans(before, mid, self@);
            lemma_only_wakes(mid, self@);
            lemma_only_wakes(before, self@);
        }
        let ghost woken = self@;
        let k = joint_slab_insert(&mut self.constraints, anchors);
        proof {
            assert(self@.bodies == woken.bodies);
            assert forall|j: usize| #[trigger] self@.joints.contains_key(j) implies self@.joint_alive(
                self@.joints[j],
            ) by {
                if j != k {
                    assert(woken.joint_alive(woken.joints[j]));
                }
            }
        }
        k
    }

    /// The anchors of a joint constraint, if it is there.
    pub fn constraint_anchors(&self, k: ConstraintHandle) -> (r: Option<JointAnchors>)
        ensures
            r == (if self@.joints.contains_key(k) {
                Some(self@.joints[k])
            } else {
                None
            }),
    {
        joint_slab_get(&self.constraints, k)
    }

    /// Removes a joint constraint, waking both of its bodies up.
    pub fn remove_constraint(&mut self, k: ConstraintHandle) -> (r: JointAnchors)
        requires
            old(self)@.wf(),
            old(self)@.joints.contains_key(k),
        ensures
            final(self)@.wf(),
            old(self)@.only_wakes(final(self)@),
            final(self)@.colliders == old(self)@.colliders,
            r == old(self)@.joints[k],
            final(self)@.joints == old(self)@.joints.remove(k),
            final(self)@.sdn(r.0.body_handle) != 0 ==> final(self)@.is_active(r.0.body_handle),
            final(self)@.sdn(r.1.body_handle) != 0 ==> final(self)@.is_active(r.1.body_handle),
            forall|i: int|
                0 <= i < old(self)@.bodies.len() && i != r.0.body_handle.0 && i != r.1.body_handle.0
                    ==> #[trigger] final(self)@.bodies[i] == old(self)@.bodies[i],
    {
        let ghost before = self@;
        let anchors = joint_slab_remove(&mut self.constraints, k);
        proof {
            assert(before.joint_alive(anchors));
            lemma_same_shape_keeps_wf(before, self@);
            assert(self@.only_wakes(self@));
            assert(before.only_wakes(self@));
        }
        let ghost removed = self@;
        self.activate_body(anchors.0.body_handle);
        let ghost mid = self@;
        proof {
            lemma_only_wakes(removed, mid);
        }
        self.activate_body(anchors.1.body_handle);
        proof {
            lemma_only_wakes_trans(removed, mid, self@);
            lemma_only_wakes_trans(before, removed, self@);
            lemma_only_wakes(mid, self@);
        }
        anchors
    }
}

impl BodyPartHandle {
    pub open spec fn ground_spec() -> BodyPartHandle {
        BodyPartHandle { body_handle: BodyHandle(GROUND_HANDLE), part_id: 0 }
    }
}


/// When one body of a touching pair is gone, the other one, if the solver
/// sees its degrees of freedom, is awake.
pub open spec fn woken_by_pair(r: RegistryView, pair: (BodyHandle, BodyHandle)) -> bool {
    &&& (!r.contains_body(pair.0) && r.contains_body(pair.1) && r.sdn(pair.1) != 0) ==> r.is_active(pair.1)
    &&& (!r.contains_body(pair.1) && r.contains_body(pair.0) && r.sdn(pair.0) != 0) ==> r.is_active(pair.0)
}

/// Each body part of `j` that is still there belongs to a body that is awake
/// unless the solver sees none of its degrees of freedom.
pub open spec fn woken_by_joint(r: RegistryView, j: JointAnchors) -> bool {
    &&& (r.contains_body_part(j.0) && r.sdn(j.0.body_handle) != 0) ==> r.is_active(j.0.body_handle)
    &&& (r.contains_body_part(j.1) && r.sdn(j.1.body_handle) != 0) ==> r.is_active(j.1.body_handle)
}

/// Removing `pair`'s other body is a reason to wake `h` up.
pub open spec fn pair_wakes(r: RegistryView, pair: (BodyHandle, BodyHandle), h: BodyHandle) -> bool {
    (pair.1 == h && !r.contains_body(pair.0)) || (pair.0 == h && !r.contains_body(pair.1))
}

/// Dropping joint `j` is a reason to wake `h` up.
pub open spec fn joint_wakes(r: RegistryView, j: JointAnchors, h: BodyHandle) -> bool {
    !r.joint_alive(j) && (j.0.body_handle == h || j.1.body_handle == h)
}

/// `h` touched a removed body, or was anchored by a joint that was dropped.
pub open spec fn wake_justified(
    r: RegistryView,
    pairs: Seq<(BodyHandle, BodyHandle)>,
    joints: Map<usize, JointAnchors>,
    h: BodyHandle,
) -> bool {
    (exists|q: int| 0 <= q < pairs.len() && #[trigger] pair_wakes(r, pairs[q], h)) || (exists|k: usize|
        joints.contains_key(k) && #[trigger] joint_wakes(r, joints[k], h))
}

proof fn lemma_justified_same(
    a: RegistryView,
    b: RegistryView,
    pairs: Seq<(BodyHandle, BodyHandle)>,
    joints: Map<usize, JointAnchors>,
    h: BodyHandle,
)
    requires
        a.only_wakes(b),
    ensures
        wake_justified(a, pairs, joints, h) == wake_justified(b, pairs, joints, h),
{
    lemma_only_wakes(a, b);
    if wake_justified(a, pairs, joints, h) {
        if exists|q: int| 0 <= q < pairs.len() && #[trigger] pair_wakes(a, pairs[q], h) {
            let q = choose|q: int| 0 <= q < pairs.len() && #[trigger] pair_wakes(a, pairs[q], h);
            assert(b.contains_body(pairs[q].0) == a.contains_body(pairs[q].0));
            assert(b.contains_body(pairs[q].1) == a.contains_body(pairs[q].1));
            assert(pair_wakes(b, pairs[q], h));
        } else {
            let k = choose|k: usize| joints.contains_key(k) && #[trigger] joint_wakes(a, joints[k], h);
            assert(b.joint_alive(joints[k]) == a.joint_alive(joints[k]));
            assert(joint_wakes(b, joints[k], h));
        }
    }
    if wake_justified(b, pairs, joints, h) {
        if exists|q: int| 0 <= q < pairs.len() && #[trigger] pair_wakes(b, pairs[q], h) {
            let q = choose|q: int| 0 <= q < pairs.len() && #[trigger] pair_wakes(b, pairs[q], h);
            assert(b.contains_body(pairs[q].0) == a.contains_body(pairs[q].0));
            assert(b.contains_body(pairs[q].1) == a.contains_body(pairs[q].1));
            assert(pair_wakes(a, pairs[q], h));
        } else {
            let k = choose|k: usize| joints.contains_key(k) && #[trigger] joint_wakes(b, joints[k], h);
            assert(b.joint_alive(joints[k]) == a.joint_alive(joints[k]));
            assert(joint_wakes(a, joints[k], h));
        }
    }
}

proof fn lemma_woken_preserved(a: RegistryView, b: RegistryView)
    requires
        a.only_wakes(b),
    ensures
        forall|p: (BodyHandle, BodyHandle)| woken_by_pair(a, p) ==> #[trigger] woken_by_pair(b, p),
        forall|j: JointAnchors| woken_by_joint(a, j) ==> #[trigger] woken_by_joint(b, j),
{
    lemma_only_wakes(a, b);
    assert forall|j: JointAnchors| woken_by_joint(a, j) implies #[trigger] woken_by_joint(b, j) by {
        if b.contains_body_part(j.0) {
            assert(a.contains_body_part(j.0));
            assert(a.contains_body(j.0.body_handle));
        }
        if b.contains_body_part(j.1) {
            assert(a.contains_body_part(j.1));
            assert(a.contains_body(j.1.body_handle));
        }
    }
}

proof fn lemma_live_colliders_same(cs: Seq<(ColliderHandle, ColliderAnchor)>, a: RegistryView, b: RegistryView)
    requires
        forall|x: ColliderAnchor| #[trigger] b.anchor_alive(x) == a.anchor_alive(x),
    ensures
        live_colliders(cs, a) == live_colliders(cs, b),
        dead_colliders(cs, a) == dead_colliders(cs, b),
    decreases cs.len(),
{
    if cs.len() > 0 {
        lemma_live_colliders_same(cs.drop_last(), a, b);
        assert(b.anchor_alive(cs.last().1) == a.anchor_alive(cs.last().1));
    }
}

impl Registry {
    fn anchor_alive(&self, a: ColliderAnchor) -> (r: bool)
        ensures
            r == self@.anchor_alive(a),
    {
        match a {
            ColliderAnchor::OnBodyPart(p) => self.contains_body_part(p),
            ColliderAnchor::OnDeformableBody(b) => self.contains_body(b),
        }
    }

    /// Removes bodies, then cleans up after them: wakes up the bodies that
    /// touched them (`contact_pairs` lists the pairs of bodies whose colliders
    /// are in contact), forgets the colliders attached to them, whose handles
    /// are returned so that they can leave the collision world, and removes the
    /// joint constraints anchored on them, waking up the other anchor. Handles
    /// that are not there are ignored.
    pub fn remove_bodies(
        &mut self,
        handles: &Vec<BodyHandle>,
        contact_pairs: &Vec<(BodyHandle, BodyHandle)>,
    ) -> (removed_colliders: Vec<ColliderHandle>)
        requires
            old(self)@.wf(),
        ensures
            final(self)@.wf(),
            final(self)@.bodies.len() == old(self)@.bodies.len(),
            forall|i: int|
                0 <= i < old(self)@.bodies.len() ==> (#[trigger] final(self)@.bodies[i] is Some <==> (
                old(self)@.bodies[i] is Some && !handles@.contains(BodyHandle(i as usize)))),
            forall|i: int|
                0 <= i < old(self)@.bodies.len() && #[trigger] final(self)@.bodies[i] is Some ==> {
                    let a = final(self)@.bodies[i]->0;
                    let b = old(self)@.bodies[i]->0;
                    a.status == b.status && a.ndofs == b.ndofs && a.nparts == b.nparts && (b.active
                        ==> a.active)
                },
            forall|q: int| 0 <= q < contact_pairs@.len() ==> woken_by_pair(final(self)@, #[trigger] contact_pairs@[q]),
            final(self)@.colliders == live_colliders(old(self)@.colliders, final(self)@),
            removed_colliders@ == dead_colliders(old(self)@.colliders, final(self)@),
            forall|k: usize| #[trigger] final(self)@.joints.contains_key(k) <==> (
                old(self)@.joints.contains_key(k) && final(self)@.joint_alive(old(self)@.joints[k])),
            forall|k: usize| #[trigger] final(self)@.joints.contains_key(k) ==> final(self)@.joints[k]
                == old(self)@.joints[k],
            forall|k: usize|
                #[trigger] old(self)@.joints.contains_key(k) && !final(self)@.joint_alive(old(self)@.joints[k])
                    ==> woken_by_joint(final(self)@, old(self)@.joints[k]),
            forall|i: int|
                0 <= i < old(self)@.bodies.len() && #[trigger] final(self)@.bodies[i] is Some
                    && final(self)@.bodies[i]->0.active && !old(self)@.bodies[i]->0.active
                    ==> wake_justified(final(self)@, contact_pairs@, old(self)@.joints, BodyHandle(i as usize)),
    {
        let ghost old_v = self@;
        // Remove the bodies.
        let mut i: usize = 0;
        while i < handles.len()
            invariant
                i <= handles@.len(),
                self@.bodies.len() == old_v.bodies.len(),
                self@.colliders == old_v.colliders,
                self@.joints == old_v.joints,
                forall|j: int|
                    0 <= j < old_v.bodies.len() ==> (#[trigger] self@.bodies[j] is Some <==> (
                    old_v.bodies[j] is Some && !handles@.take(i as int).contains(BodyHandle(j as usize)))),
                forall|j: int|
                    0 <= j < old_v.bodies.len() && #[trigger] self@.bodies[j] is Some ==> self@.bodies[j]
                        == old_v.bodies[j],
            decreases handles@.len() - i,
        {
            let h = handles[i];
            if h.0 < self.bodies.len() {
                self.bodies.set(h.0, None);
            }
            proof {
                assert(handles@.take(i + 1) == handles@.take(i as int).push(h));
                assert forall|j: int|
                    0 <= j < old_v.bodies.len() implies (#[trigger] self@.bodies[j] is Some <==> (
                    old_v.bodies[j] is Some && !handles@.take(i + 1).contains(BodyHandle(j as usize)))) by {
                    let t = handles@.take(i + 1);
                    if h.0 as int == j {
                        assert(t[i as int] == BodyHandle(j as usize));
                    }
                    if t.contains(BodyHandle(j as usize)) && !handles@.take(i as int).contains(
                        BodyHandle(j as usize),
                    ) {
                        let k = choose|k: int| 0 <= k < t.len() && t[k] == BodyHandle(j as usize);
                        if k < i {
                            assert(handles@.take(i as int)[k] == t[k]);
                        }
                    }
                    if handles@.take(i as int).contains(BodyHandle(j as usize)) {
                        let k = choose|k: int|
                            0 <= k < i && handles@.take(i as int)[k] == BodyHandle(j as usize);
                        assert(t[k] == BodyHandle(j as usize));
                    }
                }
            }
            i = i + 1;
        }
        assert(handles@.take(handles@.len() as int) == handles@);
        let ghost mid = self@;
        let ghost j0 = old_v.joints;
        // Wake up the bodies that touched a removed one.
        let mut q: usize = 0;
        while q < contact_pairs.len()
            invariant
                q <= contact_pairs@.len(),
                mid.only_wakes(self@),
                self@.colliders == mid.colliders,
                self@.joints == mid.joints,
                forall|r: int| 0 <= r < q ==> woken_by_pair(self@, #[trigger] contact_pairs@[r]),
                j0 == old_v.joints,
                self@.bodies.len() == old_v.bodies.len(),
                forall|i: int|
                    0 <= i < old_v.bodies.len() && #[trigger] self@.bodies[i] is Some && self@.bodies[i]->0.active
                        && !old_v.bodies[i]->0.active ==> wake_justified(mid, contact_pairs@, j0, BodyHandle(i as usize)),
            decreases contact_pairs@.len() - q,
        {
            let pair = contact_pairs[q];
            let ghost before = self@;
            let e1 = self.contains_body(pair.0);
            let e2 = self.contains_body(pair.1);
            if !e1 {
                if e2 {
                    self.wake(pair.1);
                }
            } else if !e2 {
                self.wake(pair.0);
            }
            proof {
                assert(before.only_wakes(self@));
                lemma_only_wakes_trans(mid, before, self@);
                lemma_woken_preserved(before, self@);
                lemma_only_wakes(before, self@);
                assert forall|r: int| 0 <= r < q + 1 implies woken_by_pair(self@, #[trigger] contact_pairs@[r]) by {
                    if r < q {
                        assert(woken_by_pair(before, contact_pairs@[r]));
                    }
                }
                lemma_only_wakes(mid, before);
                assert forall|i: int|
                    0 <= i < old_v.bodies.len() && #[trigger] self@.bodies[i] is Some && self@.bodies[i]->0.active
                        && !old_v.bodies[i]->0.active implies wake_justified(mid, contact_pairs@, j0, BodyHandle(i as usize)) by {
                    if !(before.bodies[i] is Some && before.bodies[i]->0.active) {
                        if !e1 && e2 {
                            assert(i == pair.1.0);
                            assert(pair_wakes(mid, contact_pairs@[q as int], BodyHandle(i as usize)));
                        } else {
                            assert(i == pair.0.0);
                            assert(pair_wakes(mid, contact_pairs@[q as int], BodyHandle(i as usize)));
                        }
                    }
                }
            }
            q = q + 1;
        }
        let ghost shape = self@;
        proof {
            lemma_only_wakes(mid, shape);
        }
        // Forget the colliders attached to removed bodies.
        let ghost cs = old_v.colliders;
        let mut kept: Vec<(ColliderHandle, ColliderAnchor)> = Vec::new();
        let mut removed: Vec<ColliderHandle> = Vec::new();
        let mut c: usize = 0;
        while c < self.colliders_w_parent.len()
            invariant
                self@ == shape,
                cs == self.colliders_w_parent@,
                c <= cs.len(),
                kept@ == live_colliders(cs.take(c as int), shape),
                removed@ == dead_colliders(cs.take(c as int), shape),
            decreases cs.len() - c,
        {
            let col = self.colliders_w_parent[c];
            assert(cs.take(c + 1).drop_last() == cs.take(c as int));
            assert(cs.take(c + 1).last() == col);
            if self.anchor_alive(col.1) {
                kept.push(col);
            } else {
                removed.push(col.0);
            }
            c = c + 1;
        }
        assert(cs.take(cs.len() as int) == cs);
        self.colliders_w_parent = kept;
        let ghost s4 = self@;
        proof {
            assert(shape.only_wakes(s4));
            lemma_only_wakes_trans(mid, shape, s4);
            lemma_woken_preserved(shape, s4);
        }
        // Remove the joint constraints anchored on removed bodies.
        let keys = joint_slab_keys(&self.constraints);
        let mut n: usize = 0;
        while n < keys.len()
            invariant
                n <= keys@.len(),
                keys@.no_duplicates(),
                forall|k: usize| keys@.contains(k) <==> j0.contains_key(k),
                j0 == old_v.joints,
                s4.only_wakes(self@),
                self@.colliders == s4.colliders,
                forall|q: int| 0 <= q < contact_pairs@.len() ==> woken_by_pair(self@, #[trigger] contact_pairs@[q]),
                forall|k: usize| #[trigger] self@.joints.contains_key(k) ==> j0.contains_key(k)
                    && self@.joints[k] == j0[k],
                forall|t: int| 0 <= t < n ==> (self@.joints.contains_key(#[trigger] keys@[t]) <==> s4.joint_alive(j0[keys@[t]])),
                forall|k: usize| #[trigger] j0.contains_key(k) && !keys@.take(n as int).contains(k) ==> self@.joints.contains_key(k),
                forall|t: int| 0 <= t < n && !s4.joint_alive(j0[#[trigger] keys@[t]]) ==> woken_by_joint(self@, j0[keys@[t]]),
                mid.only_wakes(s4),
                self@.bodies.len() == old_v.bodies.len(),
                forall|i: int|
                    0 <= i < old_v.bodies.len() && #[trigger] self@.bodies[i] is Some && self@.bodies[i]->0.active
                        && !old_v.bodies[i]->0.active ==> wake_justified(mid, contact_pairs@, j0, BodyHandle(i as usize)),
            decreases keys@.len() - n,
        {
            let k = keys[n];
            proof {
                assert(keys@.contains(k));
                if keys@.take(n as int).contains(k) {
                    let t = choose|t: int| 0 <= t < n && keys@.take(n as int)[t] == k;
                    assert(keys@[t] == keys@[n as int]);
                }
                assert(self@.joints.contains_key(k));
            }
            let anchors = joint_slab_get(&self.constraints, k).unwrap();
            let ghost before = self@;
            proof {
                lemma_only_wakes(s4, before);
            }
            let e1 = self.contains_body_part(anchors.0);
            let e2 = self.contains_body_part(anchors.1);
            if !(e1 && e2) {
                let _ = joint_slab_remove(&mut self.constraints, k);
                if !e1 {
                    if e2 {
                        self.wake(anchors.1.body_handle);
                    }
                } else {
                    self.wake(anchors.0.body_handle);
                }
            }
            proof {
                assert(before.only_wakes(self@));
                lemma_only_wakes_trans(s4, before, self@);
                lemma_woken_preserved(before, self@);
                lemma_only_wakes(before, self@);
                lemma_only_wakes(s4, self@);
                assert(keys@.take(n + 1) == keys@.take(n as int).push(k));
                assert forall|t: int| 0 <= t < n + 1 implies (self@.joints.contains_key(#[trigger] keys@[t]) <==> s4.joint_alive(j0[keys@[t]])) by {
                    if t < n {
                        assert(keys@[t] != k);
                    }
                }
                assert forall|kk: usize| #[trigger] j0.contains_key(kk) && !keys@.take(n + 1).contains(kk) implies self@.joints.contains_key(kk) by {
                    assert(keys@.take(n + 1)[n as int] == k);
                    assert(kk != k);
                    if keys@.take(n as int).contains(kk) {
                        let t = choose|t: int| 0 <= t < n && keys@.take(n as int)[t] == kk;
                        assert(keys@.take(n + 1)[t] == kk);
                    }
                }
                assert forall|t: int| 0 <= t < n + 1 && !s4.joint_alive(j0[#[trigger] keys@[t]]) implies woken_by_joint(self@, j0[keys@[t]]) by {
                    if t < n {
                        assert(woken_by_joint(before, j0[keys@[t]]));
                    }
                }
                lemma_only_wakes_trans(mid, s4, before);
                lemma_only_wakes(mid, before);
                assert forall|i: int|
                    0 <= i < old_v.bodies.len() && #[trigger] self@.bodies[i] is Some && self@.bodies[i]->0.active
                        && !old_v.bodies[i]->0.active implies wake_justified(mid, contact_pairs@, j0, BodyHandle(i as usize)) by {
                    if !(before.bodies[i] is Some && before.bodies[i]->0.active) {
                        assert(j0.contains_key(k) && j0[k] == anchors);
                        assert(!before.joint_alive(anchors));
                        assert(!mid.joint_alive(anchors));
                        assert(joint_wakes(mid, j0[k], BodyHandle(i as usize)));
                    }
                }
            }
            n = n + 1;
        }
        proof {
            let fin = self@;
            lemma_only_wakes(s4, fin);
            lemma_only_wakes(mid, s4);
            lemma_only_wakes_trans(mid, s4, fin);
            lemma_only_wakes(mid, fin);
            lemma_live_colliders_same(cs, shape, fin);
            assert(keys@.take(keys@.len() as int) == keys@);
            assert forall|k: usize| #[trigger] fin.joints.contains_key(k) <==> (j0.contains_key(k) && fin.joint_alive(j0[k])) by {
                if j0.contains_key(k) {
                    assert(keys@.contains(k));
                    let t = choose|t: int| 0 <= t < keys@.len() && keys@[t] == k;
                    assert(fin.joints.contains_key(keys@[t]) <==> s4.joint_alive(j0[keys@[t]]));
                }
            }
            assert forall|k: usize| #[trigger] j0.contains_key(k) && !fin.joint_alive(j0[k]) implies woken_by_joint(fin, j0[k]) by {
                assert(keys@.contains(k));
                let t = choose|t: int| 0 <= t < keys@.len() && keys@[t] == k;
                assert(!s4.joint_alive(j0[keys@[t]]));
            }
            assert forall|i: int|
                0 <= i < old_v.bodies.len() && #[trigger] fin.bodies[i] is Some && fin.bodies[i]->0.active
                    && !old_v.bodies[i]->0.active implies wake_justified(fin, contact_pairs@, j0, BodyHandle(i as usize)) by {
                lemma_justified_same(mid, fin, contact_pairs@, j0, BodyHandle(i as usize));
            }
            assert forall|t: int| 0 <= t < fin.colliders.len() implies fin.anchor_alive(#[trigger] fin.colliders[t].1) by {
                lemma_live_colliders_alive(cs, shape, t);
            }
            assert forall|i: int|
                0 <= i < old_v.bodies.len() && #[trigger] fin.bodies[i] is Some implies {
                    let a = fin.bodies[i]->0;
                    let b = old_v.bodies[i]->0;
                    a.status == b.status && a.ndofs == b.ndofs && a.nparts == b.nparts && (b.active
                        ==> a.active)
                } by {
                assert(mid.bodies[i] is Some);
            }
        }
        removed
    }
}


/// Handles are never reused: a body that was removed stays absent when a
/// new body is added, since the new body takes the first handle never
/// issued.
pub proof fn lemma_handles_not_reused(
    r: RegistryView,
    h: BodyHandle,
    status: BodyStatus,
    ndofs: usize,
    nparts: usize,
)
    requires
        r.wf(),
        h.0 < r.bodies.len(),
        !r.contains_body(h),
    ensures
        !r.with_new_body(status, ndofs, nparts).contains_body(h),
        h.0 != r.bodies.len(),
{
    assert(r.with_new_body(status, ndofs, nparts).bodies[h.0 as int] == r.bodies[h.0 as int]);
}

} // verus!
