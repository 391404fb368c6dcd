use vstd::prelude::*;

use crate::body::BodyStatus;
use crate::fem_mesh::{free_offsets, DIM};

verus! {

/// Coordinate offsets of the nodes of one finite element.
#[derive(Clone, Copy, Debug)]
pub enum FiniteElementIndices {
    Tetrahedron([usize; 4]),
    Triangle([usize; 3]),
    Segment([usize; 2]),
}

impl FiniteElementIndices {
    pub open spec fn offsets(self) -> Seq<usize> {
        match self {
            FiniteElementIndices::Tetrahedron(a) => a@,
            FiniteElementIndices::Triangle(a) => a@,
            FiniteElementIndices::Segment(a) => a@,
        }
    }

    /// The node offsets of the element, in order.
    pub fn offsets_vec(&self) -> (r: Vec<usize>)
        ensures
            r@ == self.offsets(),
    {
        match self {
            FiniteElementIndices::Tetrahedron(a) => vec![a[0], a[1], a[2], a[3]],
            FiniteElementIndices::Triangle(a) => vec![a[0], a[1], a[2]],
            FiniteElementIndices::Segment(a) => vec![a[0], a[1]],
        }
    }
}

/// Where a linear constraint acting on an element writes its Jacobian: one
/// `DIM`-wide block at `j_id + offset` for each node of the element that is
/// not kinematic, and nothing at all unless the body is dynamic.
pub open spec fn jacobian_block_starts(
    status: BodyStatus,
    indices: FiniteElementIndices,
    kinematic: Seq<bool>,
    j_id: int,
) -> Seq<int> {
    if status == BodyStatus::Dynamic {
        free_offsets(indices.offsets(), kinematic).map_values(|o: usize| j_id + o)
    } else {
        Seq::empty()
    }
}

/// Start of each Jacobian block that a linear constraint at a point of the
/// element fills, kinematic nodes being masked out.
pub fn jacobian_blocks(
    status: BodyStatus,
    indices: &FiniteElementIndices,
    kinematic_nodes: &Vec<bool>,
    j_id: usize,
) -> (r: Vec<usize>)
    requires
        forall|i: int|
            0 <= i < indices.offsets().len() ==> (#[trigger] indices.offsets()[i] as int) / (DIM as int)
                < kinematic_nodes@.len() && j_id + indices.offsets()[i] <= usize::MAX,
    ensures
        r@.map_values(|b: usize| b as int) == jacobian_block_starts(
            status,
            *indices,
            kinematic_nodes@,
            j_id as int,
        ),
{
    let mut r: Vec<usize> = Vec::new();
    if status != BodyStatus::Dynamic {
        assert(r@.map_values(|b: usize| b as int) =~= Seq::<int>::empty());
        return r;
    }
    let offsets = indices.offsets_vec();
    let ghost all = indices.offsets();
    let mut i: usize = 0;
    while i < offsets.len()
        invariant
            offsets@ == all,
            all == indices.offsets(),
            i <= all.len(),
            forall|k: int|
                0 <= k < all.len() ==> (#[trigger] all[k] as int) / (DIM as int) < kinematic_nodes@.len()
                    && j_id + all[k] <= usize::MAX,
            r@.map_values(|b: usize| b as int) == free_offsets(all.take(i as int), kinematic_nodes@).map_values(
                |o: usize| j_id + o,
            ),
        decreases all.len() - i,
    {
        let o = offsets[i];
        assert(all.take(i + 1).drop_last() == all.take(i as int));
        assert(all.take(i + 1).last() == o);
        let ghost before = r@;
        assert((all[i as int] as int) / (DIM as int) < kinematic_nodes@.len());
        if !kinematic_nodes[o / DIM] {
            r.push(j_id + o);
            assert(r@.map_values(|b: usize| b as int) =~= before.map_values(|b: usize| b as int).push(
                j_id + o,
            ));
        }
        assert(r@.map_values(|b: usize| b as int) =~= free_offsets(all.take(i + 1), kinematic_nodes@).map_values(
            |o: usize| j_id + o,
        ));
        i = i + 1;
    }
    assert(all.take(all.len() as int) == all);
    r
}

/// Kinematic nodes are isolated from constraint and force assembly: every
/// offset that `free_offsets` keeps belongs to a node that is not kinematic,
/// and every node of the element that is not kinematic is kept.
pub proof fn lemma_kinematic_nodes_isolated(offsets: Seq<usize>, kinematic: Seq<bool>)
    ensures
        forall|i: int|
            0 <= i < free_offsets(offsets, kinematic).len() ==> !kinematic[(#[trigger] free_offsets(
                offsets,
                kinematic,
            )[i] as int) / (DIM as int)] && offsets.contains(free_offsets(offsets, kinematic)[i]),
        forall|i: int|
            0 <= i < offsets.len() && !kinematic[(#[trigger] offsets[i] as int) / (DIM as int)]
                ==> free_offsets(offsets, kinematic).contains(offsets[i]),
    decreases offsets.len(),
{
    if offsets.len() > 0 {
        let init = offsets.drop_last();
        lemma_kinematic_nodes_isolated(init, kinematic);
        let prev = free_offsets(init, kinematic);
        let cur = free_offsets(offsets, kinematic);
        assert forall|i: int| 0 <= i < cur.len() implies !kinematic[(#[trigger] cur[i] as int) / (
        DIM as int)] && offsets.contains(cur[i]) by {
            if i < prev.len() {
                assert(cur[i] == prev[i]);
                let j = choose|j: int| 0 <= j < init.len() && init[j] == prev[i];
                assert(offsets[j] == init[j]);
            } else {
                assert(offsets[offsets.len() - 1] == offsets.last());
            }
        }
        assert forall|i: int|
            0 <= i < offsets.len() && !kinematic[(#[trigger] offsets[i] as int) / (DIM as int)]
                implies cur.contains(offsets[i]) by {
            if i < offsets.len() - 1 {
                assert(init[i] == offsets[i]);
                assert(prev.contains(init[i]));
                let j = choose|j: int| 0 <= j < prev.len() && prev[j] == init[i];
                assert(cur[j] == prev[j]);
            } else {
                assert(cur[cur.len() - 1] == offsets.last());
            }
        }
    }
}

} // verus!
