use vstd::prelude::*;

use slab::Slab;

use crate::registry::BodyPartHandle;

verus! {

#[verifier::external_type_specification]
#[verifier::external_body]
#[verifier::reject_recursive_types(T)]
pub struct ExSlab<T>(Slab<T>);

/// The two body parts a joint constraint links.
pub type JointAnchors = (BodyPartHandle, BodyPartHandle);

/// What a slab of joint anchors holds: each occupied key and its value.
pub uninterp spec fn joint_slots(s: Slab<JointAnchors>) -> Map<usize, JointAnchors>;

/// Relies on `slab::Slab::new`: a new slab holds nothing.
#[verifier::external_body]
pub(crate) fn joint_slab_new() -> (r: Slab<JointAnchors>)
    ensures
        joint_slots(r) =~= Map::empty(),
{
    Slab::new()
}

/// Relies on `slab::Slab::insert`: the value is stored under the slab's next
/// vacant key, which is returned; other entries are untouched.
#[verifier::external_body]
pub(crate) fn joint_slab_insert(s: &mut Slab<JointAnchors>, v: JointAnchors) -> (k: usize)
    ensures
        !joint_slots(*old(s)).contains_key(k),
        joint_slots(*final(s)) == joint_slots(*old(s)).insert(k, v),
{
    s.insert(v)
}

/// Relies on `slab::Slab::remove`: returns the value under an occupied key
/// and vacates that key (it panics on a vacant key, hence the requirement).
#[verifier::external_body]
pub(crate) fn joint_slab_remove(s: &mut Slab<JointAnchors>, k: usize) -> (v: JointAnchors)
    requires
        joint_slots(*old(s)).contains_key(k),
    ensures
        v == joint_slots(*old(s))[k],
        joint_slots(*final(s)) == joint_slots(*old(s)).remove(k),
{
    s.remove(k)
}

/// Relies on `slab::Slab::get`: the value under `k`, if the key is occupied.
#[verifier::external_body]
pub(crate) fn joint_slab_get(s: &Slab<JointAnchors>, k: usize) -> (r: Option<JointAnchors>)
    ensures
        r == (if joint_slots(*s).contains_key(k) {
            Some(joint_slots(*s)[k])
        } else {
            None
        }),
{
    s.get(k).copied()
}

/// Relies on `slab::Slab::iter`: it yields each occupied key once.
#[verifier::external_body]
pub(crate) fn joint_slab_keys(s: &Slab<JointAnchors>) -> (r: Vec<usize>)
    ensures
        r@.no_duplicates(),
        forall|k: usize| r@.contains(k) <==> joint_slots(*s).contains_key(k),
{
    s.iter().map(|(k, _)| k).collect()
}

} // verus!
