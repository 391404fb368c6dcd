use nphysics::body::{
    is_pair_valid, keep_manifold, status_dependent_ndofs, BodyStatus, BodyUpdateStatus, JacobianMask,
    ManifoldSide,
};

#[test]
fn static_and_disabled_bodies_expose_no_dofs() {
    assert_eq!(status_dependent_ndofs(BodyStatus::Dynamic, 6), 6);
    assert_eq!(status_dependent_ndofs(BodyStatus::Kinematic, 6), 6);
    assert_eq!(status_dependent_ndofs(BodyStatus::Static, 6), 0);
    assert_eq!(status_dependent_ndofs(BodyStatus::Disabled, 6), 0);
}

#[test]
fn pair_filter_needs_one_moving_side() {
    assert!(!is_pair_valid(0, 0));
    assert!(is_pair_valid(0, 3));
    assert!(is_pair_valid(6, 0));
}

#[test]
fn manifolds_between_fixed_or_sleeping_bodies_are_dropped() {
    let side = |status, ndofs, active| ManifoldSide { status, ndofs, active };
    let dynamic = side(BodyStatus::Dynamic, 6, true);
    let asleep = side(BodyStatus::Dynamic, 6, false);
    let ground = side(BodyStatus::Static, 0, false);
    let disabled = side(BodyStatus::Disabled, 6, true);
    assert!(keep_manifold(dynamic, ground));
    assert!(keep_manifold(ground, dynamic));
    assert!(!keep_manifold(asleep, ground));
    assert!(!keep_manifold(ground, ground));
    assert!(!keep_manifold(disabled, disabled));
    assert!(keep_manifold(asleep, dynamic));
}

#[test]
fn update_flags() {
    let mut flags = BodyUpdateStatus::all();
    assert!(flags.inertia_needs_update());
    flags.clear();
    assert!(!flags.inertia_needs_update());
    flags.velocity_changed = true;
    assert!(!flags.inertia_needs_update());
    flags.status_changed = true;
    assert!(flags.inertia_needs_update());
}

#[test]
fn jacobian_mask_round_trip() {
    let mut mask = JacobianMask::new();
    assert!(!mask.is_locked(0));
    mask.set_kinematic_translations([true, false, true]);
    mask.set_kinematic_rotations([false, true, false]);
    assert_eq!(mask.kinematic_translations(), [true, false, true]);
    assert_eq!(mask.kinematic_rotations(), [false, true, false]);
    let locked: Vec<bool> = (0..6).map(|i| mask.is_locked(i)).collect();
    assert_eq!(locked, vec![true, false, true, false, true, false]);
}
