use nphysics::body::BodyStatus;
use nphysics::registry::{BodyHandle, BodyPartHandle, ColliderAnchor, ColliderHandle, Registry};

fn part(h: BodyHandle) -> BodyPartHandle {
    BodyPartHandle { body_handle: h, part_id: 0 }
}

#[test]
fn handles_are_issued_in_order_and_never_reused() {
    let mut reg = Registry::new();
    let a = reg.add_body(BodyStatus::Dynamic, 6, 1).unwrap();
    let b = reg.add_body(BodyStatus::Dynamic, 6, 1).unwrap();
    assert_eq!((a, b), (BodyHandle(0), BodyHandle(1)));
    reg.remove_bodies(&vec![b], &vec![]);
    assert!(!reg.contains_body(b));
    let c = reg.add_body(BodyStatus::Dynamic, 6, 1).unwrap();
    assert_eq!(c, BodyHandle(2));
    assert!(!reg.contains_body(b));
    assert!(reg.contains_body(a));
    assert!(reg.contains_body(BodyHandle::ground()));
}

#[test]
fn body_parts_are_checked_against_part_counts() {
    let mut reg = Registry::new();
    let h = reg.add_body(BodyStatus::Dynamic, 120, 40).unwrap();
    assert!(reg.contains_body_part(BodyPartHandle { body_handle: h, part_id: 39 }));
    assert!(!reg.contains_body_part(BodyPartHandle { body_handle: h, part_id: 40 }));
    assert!(reg.contains_body_part(BodyPartHandle::ground()));
    assert!(!reg.contains_body_part(BodyPartHandle { body_handle: BodyHandle::ground(), part_id: 1 }));
}

#[test]
fn activation_skips_bodies_without_dofs() {
    let mut reg = Registry::new();
    let d = reg.add_body(BodyStatus::Dynamic, 6, 1).unwrap();
    let s = reg.add_body(BodyStatus::Static, 6, 1).unwrap();
    reg.deactivate_body(d);
    reg.deactivate_body(s);
    reg.activate_body(d);
    reg.activate_body(s);
    assert!(reg.is_body_active(d));
    assert!(!reg.is_body_active(s));
    assert_eq!(reg.body_status_dependent_ndofs(s), 0);
    assert_eq!(reg.body_status_dependent_ndofs(d), 6);
    assert_eq!(reg.body(d).ndofs, 6);
}

#[test]
fn removal_wakes_touching_bodies() {
    let mut reg = Registry::new();
    let a = reg.add_body(BodyStatus::Dynamic, 6, 1).unwrap();
    let b = reg.add_body(BodyStatus::Dynamic, 6, 1).unwrap();
    let c = reg.add_body(BodyStatus::Dynamic, 6, 1).unwrap();
    reg.deactivate_body(a);
    reg.deactivate_body(c);
    reg.remove_bodies(&vec![b], &vec![(a, b), (a, c)]);
    assert!(reg.is_body_active(a));
    assert!(!reg.is_body_active(c));
}

#[test]
fn removal_drops_colliders_of_removed_bodies() {
    let mut reg = Registry::new();
    let a = reg.add_body(BodyStatus::Dynamic, 6, 1).unwrap();
    let b = reg.add_body(BodyStatus::Dynamic, 6, 1).unwrap();
    reg.add_collider(ColliderHandle(10), ColliderAnchor::OnBodyPart(part(a)));
    reg.add_collider(ColliderHandle(11), ColliderAnchor::OnDeformableBody(b));
    reg.add_collider(ColliderHandle(12), ColliderAnchor::OnBodyPart(part(b)));
    reg.add_collider(ColliderHandle(13), ColliderAnchor::OnBodyPart(BodyPartHandle::ground()));
    let removed = reg.remove_bodies(&vec![b], &vec![]);
    assert_eq!(removed, vec![ColliderHandle(11), ColliderHandle(12)]);
    let again = reg.remove_bodies(&vec![a], &vec![]);
    assert_eq!(again, vec![ColliderHandle(10)]);
}

#[test]
fn removed_colliders_are_forgotten() {
    let mut reg = Registry::new();
    let a = reg.add_body(BodyStatus::Dynamic, 6, 1).unwrap();
    reg.add_collider(ColliderHandle(1), ColliderAnchor::OnBodyPart(part(a)));
    reg.add_collider(ColliderHandle(2), ColliderAnchor::OnBodyPart(part(a)));
    reg.remove_colliders(&vec![ColliderHandle(1)]);
    let removed = reg.remove_bodies(&vec![a], &vec![]);
    assert_eq!(removed, vec![ColliderHandle(2)]);
}

#[test]
fn removal_drops_constraints_and_wakes_other_anchor() {
    let mut reg = Registry::new();
    let a = reg.add_body(BodyStatus::Dynamic, 6, 1).unwrap();
    let b = reg.add_body(BodyStatus::Dynamic, 6, 1).unwrap();
    let c = reg.add_body(BodyStatus::Dynamic, 6, 1).unwrap();
    let k_ab = reg.add_constraint((part(a), part(b)));
    let k_ac = reg.add_constraint((part(a), part(c)));
    assert_ne!(k_ab, k_ac);
    reg.deactivate_body(a);
    reg.remove_bodies(&vec![b], &vec![]);
    assert_eq!(reg.constraint_anchors(k_ab), None);
    assert_eq!(reg.constraint_anchors(k_ac), Some((part(a), part(c))));
    assert!(reg.is_body_active(a));
}

#[test]
fn constraints_wake_their_anchors() {
    let mut reg = Registry::new();
    let a = reg.add_body(BodyStatus::Dynamic, 6, 1).unwrap();
    reg.deactivate_body(a);
    let k = reg.add_constraint((part(a), BodyPartHandle::ground()));
    assert!(reg.is_body_active(a));
    reg.deactivate_body(a);
    let anchors = reg.remove_constraint(k);
    assert_eq!(anchors, (part(a), BodyPartHandle::ground()));
    assert!(reg.is_body_active(a));
    assert_eq!(reg.constraint_anchors(k), None);
}

#[test]
fn removing_unknown_or_ground_handles_changes_nothing() {
    let mut reg = Registry::new();
    let a = reg.add_body(BodyStatus::Dynamic, 6, 1).unwrap();
    reg.add_collider(ColliderHandle(3), ColliderAnchor::OnBodyPart(part(a)));
    let removed = reg.remove_bodies(&vec![BodyHandle(7), BodyHandle::ground()], &vec![]);
    assert!(removed.is_empty());
    assert!(reg.contains_body(a));
    assert!(reg.contains_body(BodyHandle::ground()));
}

#[test]
fn static_neighbours_stay_asleep() {
    let mut reg = Registry::new();
    let s = reg.add_body(BodyStatus::Static, 6, 1).unwrap();
    let b = reg.add_body(BodyStatus::Dynamic, 6, 1).unwrap();
    reg.deactivate_body(s);
    let k = reg.add_constraint((part(s), part(b)));
    reg.remove_bodies(&vec![b], &vec![(s, b)]);
    assert!(!reg.is_body_active(s));
    assert_eq!(reg.constraint_anchors(k), None);
}
