use vstd::prelude::*;

verus! {

/// Sum of the first `n` values of `s`.
pub open spec fn sum_upto(s: Seq<usize>, n: int) -> int
    decreases n,
{
    if n <= 0 {
        0
    } else {
        sum_upto(s, n - 1) + s[n - 1]
    }
}

/// Lays the bodies' velocities out one after the other in the global
/// velocity vector: body `i` starts at the sum of the DOF counts of the
/// bodies before it. Also returns the length of the whole vector.
pub fn assign_companion_ids(ndofs: &Vec<usize>) -> (r: (Vec<usize>, usize))
    requires
        sum_upto(ndofs@, ndofs@.len() as int) <= usize::MAX,
    ensures
        r.0@.len() == ndofs@.len(),
        forall|i: int| 0 <= i < ndofs@.len() ==> #[trigger] r.0@[i] == sum_upto(ndofs@, i),
        r.1 == sum_upto(ndofs@, ndofs@.len() as int),
{
    let mut ids: Vec<usize> = Vec::new();
    let mut total: usize = 0;
    let mut i: usize = 0;
    while i < ndofs.len()
        invariant
            i <= ndofs@.len(),
            sum_upto(ndofs@, ndofs@.len() as int) <= usize::MAX,
            ids@.len() == i,
            total == sum_upto(ndofs@, i as int),
            forall|k: int| 0 <= k < i ==> #[trigger] ids@[k] == sum_upto(ndofs@, k),
        decreases ndofs@.len() - i,
    {
        proof {
            lemma_sum_upto_monotone(ndofs@, i + 1, ndofs@.len() as int);
        }
        ids.push(total);
        total = total + ndofs[i];
        i = i + 1;
    }
    (ids, total)
}

/// Prefix sums grow with the prefix.
pub proof fn lemma_sum_upto_monotone(s: Seq<usize>, a: int, b: int)
    requires
        0 <= a <= b <= s.len(),
    ensures
        sum_upto(s, a) <= sum_upto(s, b),
    decreases b - a,
{
    if a < b {
        lemma_sum_upto_monotone(s, a, b - 1);
    }
}

/// Offsets of one constraint row in the flat Jacobian buffer: the Jacobian
/// and the mass-weighted Jacobian of the first body, then those of the
/// second body.
#[derive(Clone, Copy, Debug, PartialEq, Eq, Structural)]
pub struct RowIds {
    pub j_id1: usize,
    pub wj_id1: usize,
    pub j_id2: usize,
    pub wj_id2: usize,
}

/// Reserves room for a row between two bodies of `ndofs1` and `ndofs2`
/// degrees of freedom at the cursor `j_id`, and moves the cursor past it.
/// The four slices `[j_id1, j_id1 + ndofs1)`, `[wj_id1, wj_id1 + ndofs1)`,
/// `[j_id2, j_id2 + ndofs2)`, `[wj_id2, wj_id2 + ndofs2)` follow one another.
pub fn reserve_row(j_id: &mut usize, ndofs1: usize, ndofs2: usize) -> (r: RowIds)
    requires
        *old(j_id) + 2 * (ndofs1 + ndofs2) <= usize::MAX,
    ensures
        r.j_id1 == *old(j_id),
        r.wj_id1 == r.j_id1 + ndofs1,
        r.j_id2 == r.wj_id1 + ndofs1,
        r.wj_id2 == r.j_id2 + ndofs2,
        *final(j_id) == r.wj_id2 + ndofs2,
{
    let j_id1 = *j_id;
    let wj_id1 = j_id1 + ndofs1;
    let j_id2 = wj_id1 + ndofs1;
    let wj_id2 = j_id2 + ndofs2;
    *j_id = wj_id2 + ndofs2;
    RowIds { j_id1, wj_id1, j_id2, wj_id2 }
}

/// Reserves room for a row against the ground (a single body of `ndofs`
/// degrees of freedom): returns `(j_id, wj_id)` with the weighted Jacobian
/// right after the Jacobian.
pub fn reserve_ground_row(j_id: &mut usize, ndofs: usize) -> (r: (usize, usize))
    requires
        *old(j_id) + 2 * ndofs <= usize::MAX,
    ensures
        r.0 == *old(j_id),
        r.1 == r.0 + ndofs,
        *final(j_id) == r.1 + ndofs,
{
    let j = *j_id;
    let wj = j + ndofs;
    *j_id = wj + ndofs;
    (j, wj)
}

/// Layout of the scratch buffer of a position-level contact correction:
/// the weighted Jacobians of both bodies first (they become the
/// displacements applied to the bodies), then their Jacobians.
pub fn contact_position_layout(ndofs1: usize, ndofs2: usize) -> (r: RowIds)
    requires
        2 * (ndofs1 + ndofs2) <= usize::MAX,
    ensures
        r.wj_id1 == 0,
        r.wj_id2 == ndofs1,
        r.j_id1 == ndofs1 + ndofs2,
        r.j_id2 == 2 * ndofs1 + ndofs2,
{
    RowIds { j_id1: ndofs1 + ndofs2, wj_id1: 0, j_id2: 2 * ndofs1 + ndofs2, wj_id2: ndofs1 }
}

/// A velocity constraint row as far as indices go: where each body's
/// velocities start in the global velocity vector, how many there are, and
/// where the row's Jacobians lie.
#[derive(Clone, Copy, Debug, PartialEq, Eq, Structural)]
pub struct RowLayout {
    pub assembly_id1: usize,
    pub ndofs1: usize,
    pub assembly_id2: usize,
    pub ndofs2: usize,
    pub ids: RowIds,
}

/// Whether every slice the row reads or writes lies inside buffers of the
/// given lengths.
pub open spec fn row_fits(row: RowLayout, jacobians_len: int, velocities_len: int) -> bool {
    &&& row.ids.j_id1 + row.ndofs1 <= jacobians_len
    &&& row.ids.wj_id1 + row.ndofs1 <= jacobians_len
    &&& row.ids.j_id2 + row.ndofs2 <= jacobians_len
    &&& row.ids.wj_id2 + row.ndofs2 <= jacobians_len
    &&& row.assembly_id1 + row.ndofs1 <= velocities_len
    &&& row.assembly_id2 + row.ndofs2 <= velocities_len
}

fn fits(start: usize, len: usize, bound: usize) -> (b: bool)
    ensures
        b == (start + len <= bound),
{
    start <= bound && len <= bound - start
}

/// Checks that the solver can run over the row without leaving its buffers.
pub fn check_row(row: &RowLayout, jacobians_len: usize, velocities_len: usize) -> (r: bool)
    ensures
        r == row_fits(*row, jacobians_len as int, velocities_len as int),
{
    fits(row.ids.j_id1, row.ndofs1, jacobians_len) && fits(row.ids.wj_id1, row.ndofs1, jacobians_len)
        && fits(row.ids.j_id2, row.ndofs2, jacobians_len) && fits(
        row.ids.wj_id2,
        row.ndofs2,
        jacobians_len,
    ) && fits(row.assembly_id1, row.ndofs1, velocities_len) && fits(
        row.assembly_id2,
        row.ndofs2,
        velocities_len,
    )
}

} // verus!
