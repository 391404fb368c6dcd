use vstd::prelude::*;
use vstd::set_lib::{lemma_int_range, lemma_len_subset, set_int_range};

use crate::body::BodyStatus;

verus! {

/// Index of the node at grid coordinates `(i, j, k)` of a regular grid with
/// `ny + 1` nodes along `y` and `nz + 1` nodes along `z`.
pub open spec fn grid_node(ny: int, nz: int, i: int, j: int, k: int) -> int {
    (i * (ny + 1) + j) * (nz + 1) + k
}

/// Node at corner `c` of the grid cell `(i, j, k)`. Local corners: 0 is the
/// cell origin, 1 is `+z`, 2 is `+x+z`, 3 is `+x`, 4 is `+y`, 5 is `+y+z`,
/// 6 is `+x+y+z`, 7 is `+x+y`.
pub open spec fn cell_corner(ny: int, nz: int, i: int, j: int, k: int, c: int) -> int {
    if c == 0 {
        grid_node(ny, nz, i, j, k)
    } else if c == 1 {
        grid_node(ny, nz, i, j, k + 1)
    } else if c == 2 {
        grid_node(ny, nz, i + 1, j, k + 1)
    } else if c == 3 {
        grid_node(ny, nz, i + 1, j, k)
    } else if c == 4 {
        grid_node(ny, nz, i, j + 1, k)
    } else if c == 5 {
        grid_node(ny, nz, i, j + 1, k + 1)
    } else if c == 6 {
        grid_node(ny, nz, i + 1, j + 1, k + 1)
    } else {
        grid_node(ny, nz, i + 1, j + 1, k)
    }
}

/// Cells alternate between two mirrored five-tetrahedra decompositions so
/// that the faces of neighbouring cells match.
pub open spec fn even_cell(i: int, j: int, k: int) -> bool {
    (i % 2 == 0 && j % 2 == k % 2) || (i % 2 == 1 && j % 2 != k % 2)
}

/// Local corners of the `t`-th tetrahedron of a cell.
pub open spec fn cell_pattern(even: bool, t: int) -> (int, int, int, int) {
    if even {
        if t == 0 {
            (0, 1, 2, 5)
        } else if t == 1 {
            (2, 5, 6, 7)
        } else if t == 2 {
            (2, 7, 3, 0)
        } else if t == 3 {
            (7, 4, 0, 5)
        } else {
            (0, 2, 7, 5)
        }
    } else {
        if t == 0 {
            (4, 6, 5, 1)
        } else if t == 1 {
            (6, 2, 1, 3)
        } else if t == 2 {
            (6, 7, 3, 4)
        } else if t == 3 {
            (3, 4, 0, 1)
        } else {
            (4, 3, 6, 1)
        }
    }
}

/// Whether `tet` holds the nodes `(a, b, c, d)` in this order.
pub open spec fn tet_is(tet: [usize; 4], nodes: (int, int, int, int)) -> bool {
    tet[0] as int == nodes.0 && tet[1] as int == nodes.1 && tet[2] as int == nodes.2
        && tet[3] as int == nodes.3
}

/// The `t`-th tetrahedron of the cell of index `cell`, cells being numbered
/// with `z` varying fastest, then `y`, then `x`.
pub open spec fn cube_tet(ny: int, nz: int, cell: int, t: int) -> (int, int, int, int) {
    let k = cell % nz;
    let j = (cell / nz) % ny;
    let i = cell / nz / ny;
    let p = cell_pattern(even_cell(i, j, k), t);
    (
        cell_corner(ny, nz, i, j, k, p.0),
        cell_corner(ny, nz, i, j, k, p.1),
        cell_corner(ny, nz, i, j, k, p.2),
        cell_corner(ny, nz, i, j, k, p.3),
    )
}

proof fn lemma_cell_coords(nx: int, ny: int, nz: int, cell: int)
    requires
        nx > 0,
        ny > 0,
        nz > 0,
        0 <= cell < nx * ny * nz,
    ensures
        0 <= cell % nz < nz,
        0 <= (cell / nz) % ny < ny,
        0 <= cell / nz / ny < nx,
{
    assert(cell / nz < nx * ny) by (nonlinear_arith)
        requires
            0 <= cell < nx * ny * nz,
            nz > 0,
    {
        assert(nx * ny * nz == (nx * ny) * nz);
    }
    assert(cell / nz / ny < nx) by (nonlinear_arith)
        requires
            0 <= cell / nz < nx * ny,
            ny > 0,
    {
    }
    assert(cell / nz >= 0) by (nonlinear_arith)
        requires
            cell >= 0,
            nz > 0,
    {
    }
    assert(cell / nz / ny >= 0) by (nonlinear_arith)
        requires
            cell / nz >= 0,
            ny > 0,
    {
    }
}

proof fn lemma_grid_node_bound(nx: int, ny: int, nz: int, i: int, j: int, k: int)
    requires
        0 <= i <= nx,
        0 <= j <= ny,
        0 <= k <= nz,
    ensures
        0 <= grid_node(ny, nz, i, j, k) < (nx + 1) * (ny + 1) * (nz + 1),
{
    assert(0 <= (i * (ny + 1) + j) * (nz + 1) + k < (nx + 1) * (ny + 1) * (nz + 1))
        by (nonlinear_arith)
        requires
            0 <= i <= nx,
            0 <= j <= ny,
            0 <= k <= nz,
    {
        assert(i * (ny + 1) + j <= nx * (ny + 1) + ny);
        assert((i * (ny + 1) + j) * (nz + 1) <= (nx * (ny + 1) + ny) * (nz + 1));
    }
}

fn grid_node_exec(ny: usize, nz: usize, i: usize, j: usize, k: usize, Ghost(nx): Ghost<usize>) -> (r: usize)
    requires
        i <= nx,
        j <= ny,
        k <= nz,
        (nx + 1) * (ny + 1) * (nz + 1) <= usize::MAX,
    ensures
        r as int == grid_node(ny as int, nz as int, i as int, j as int, k as int),
        r < (nx + 1) * (ny + 1) * (nz + 1),
{
    proof {
        lemma_grid_node_bound(nx as int, ny as int, nz as int, i as int, j as int, k as int);
        assert(i * (ny + 1) + j <= (i * (ny + 1) + j) * (nz + 1)) by (nonlinear_arith)
            requires
                i * (ny + 1) + j >= 0,
                nz >= 0,
        {
        }
        assert(i * (ny + 1) <= i * (ny + 1) + j);
        assert(ny + 1 <= (nx + 1) * (ny + 1) * (nz + 1) && nz + 1 <= (nx + 1) * (ny + 1) * (nz + 1))
            by (nonlinear_arith)
            requires
                nx >= 0,
                ny >= 0,
                nz >= 0,
        {
            assert(ny + 1 <= (nx + 1) * (ny + 1));
            assert((nx + 1) * (ny + 1) <= (nx + 1) * (ny + 1) * (nz + 1));
            assert(nz + 1 <= ((nx + 1) * (ny + 1)) * (nz + 1));
        }
    }
    (i * (ny + 1) + j) * (nz + 1) + k
}

/// Node indices of the tetrahedra of an axis-aligned box subdivided into
/// `nx × ny × nz` cells, each cell split into five tetrahedra. The grid has
/// `(nx + 1) × (ny + 1) × (nz + 1)` nodes numbered by `grid_node`.
pub fn cube_tetrahedra(nx: usize, ny: usize, nz: usize) -> (r: Vec<[usize; 4]>)
    requires
        5 * ((nx + 1) * (ny + 1) * (nz + 1)) <= usize::MAX,
    ensures
        r@.len() == 5 * (nx * ny * nz),
        forall|cell: int, t: int|
            0 <= cell < nx * ny * nz && 0 <= t < 5 ==> #[trigger] tet_is(
                r@[5 * cell + t],
                cube_tet(ny as int, nz as int, cell, t),
            ),
        forall|n: int, q: int|
            0 <= n < r@.len() && 0 <= q < 4 ==> #[trigger] r@[n][q] < (nx + 1) * (ny + 1) * (nz + 1),
{
    proof {
        assert(nx * ny * nz <= (nx + 1) * (ny + 1) * (nz + 1)) by (nonlinear_arith)
            requires
                nx >= 0,
                ny >= 0,
                nz >= 0,
        {
            assert(nx * ny <= (nx + 1) * (ny + 1));
        }
        assert(nx * ny <= (nx + 1) * (ny + 1) * (nz + 1)) by (nonlinear_arith)
            requires
                nx >= 0,
                ny >= 0,
                nz >= 0,
        {
            assert(nx * ny <= (nx + 1) * (ny + 1));
            assert((nx + 1) * (ny + 1) <= (nx + 1) * (ny + 1) * (nz + 1));
        }
    }
    let ncells: usize = nx * ny * nz;
    let mut r: Vec<[usize; 4]> = Vec::new();
    let mut cell: usize = 0;
    while cell < ncells
        invariant
            ncells == nx * ny * nz,
            5 * ((nx + 1) * (ny + 1) * (nz + 1)) <= usize::MAX,
            ncells <= (nx + 1) * (ny + 1) * (nz + 1),
            cell <= ncells,
            r@.len() == 5 * cell,
            forall|c: int, t: int|
                0 <= c < cell && 0 <= t < 5 ==> #[trigger] tet_is(
                    r@[5 * c + t],
                    cube_tet(ny as int, nz as int, c, t),
                ),
            forall|n: int, q: int|
                0 <= n < r@.len() && 0 <= q < 4 ==> #[trigger] r@[n][q] < (nx + 1) * (ny + 1) * (
                nz + 1),
        decreases ncells - cell,
    {
        proof {
            assert(nx > 0 && ny > 0 && nz > 0) by (nonlinear_arith)
                requires
                    cell < nx * ny * nz,
                    nx >= 0,
                    ny >= 0,
                    nz >= 0,
            {
            }
            lemma_cell_coords(nx as int, ny as int, nz as int, cell as int);
        }
        let k = cell % nz;
        let j = (cell / nz) % ny;
        let i = cell / nz / ny;
        let g = Ghost(nx);
        let n0 = grid_node_exec(ny, nz, i, j, k, g);
        let n1 = grid_node_exec(ny, nz, i, j, k + 1, g);
        let n2 = grid_node_exec(ny, nz, i + 1, j, k + 1, g);
        let n3 = grid_node_exec(ny, nz, i + 1, j, k, g);
        let n4 = grid_node_exec(ny, nz, i, j + 1, k, g);
        let n5 = grid_node_exec(ny, nz, i, j + 1, k + 1, g);
        let n6 = grid_node_exec(ny, nz, i + 1, j + 1, k + 1, g);
        let n7 = grid_node_exec(ny, nz, i + 1, j + 1, k, g);
        let ghost before = r@;
        if (i % 2 == 0 && j % 2 == k % 2) || (i % 2 == 1 && j % 2 != k % 2) {
            r.push([n0, n1, n2, n5]);
            r.push([n2, n5, n6, n7]);
            r.push([n2, n7, n3, n0]);
            r.push([n7, n4, n0, n5]);
            r.push([n0, n2, n7, n5]);
        } else {
            r.push([n4, n6, n5, n1]);
            r.push([n6, n2, n1, n3]);
            r.push([n6, n7, n3, n4]);
            r.push([n3, n4, n0, n1]);
            r.push([n4, n3, n6, n1]);
        }
        proof {
            assert forall|c: int, t: int|
                0 <= c < cell + 1 && 0 <= t < 5 implies #[trigger] tet_is(
                r@[5 * c + t],
                cube_tet(ny as int, nz as int, c, t),
            ) by {
                if c < cell {
                    assert(r@[5 * c + t] == before[5 * c + t]);
                }
            }
        }
        cell = cell + 1;
    }
    r
}


/// Number of coordinates per node.
pub const DIM: usize = 3;

/// Abstract content of a tetrahedral mesh.
pub struct MeshView {
    /// For each element, the offsets of its four nodes in the flat
    /// coordinate vectors (node index times `DIM`).
    pub elements: Seq<[usize; 4]>,
    pub num_nodes: nat,
    /// Nodes whose motion is prescribed from outside.
    pub kinematic: Seq<bool>,
}

/// Connectivity of a volume decomposed into tetrahedral finite elements,
/// together with the set of kinematic nodes.
pub struct TetrahedralMesh {
    elements: Vec<[usize; 4]>,
    num_nodes: usize,
    kinematic_nodes: Vec<bool>,
}

impl View for TetrahedralMesh {
    type V = MeshView;

    closed spec fn view(&self) -> MeshView {
        MeshView {
            elements: self.elements@,
            num_nodes: self.num_nodes as nat,
            kinematic: self.kinematic_nodes@,
        }
    }
}

/// Whether `offset` is the first coordinate of one of `num_nodes` nodes.
pub open spec fn is_node_offset(offset: int, num_nodes: nat) -> bool {
    0 <= offset < DIM * num_nodes && offset % DIM as int == 0
}

impl MeshView {
    pub open spec fn wf(self) -> bool {
        &&& self.kinematic.len() == self.num_nodes
        &&& DIM * self.num_nodes <= usize::MAX
        &&& forall|e: int, q: int|
            0 <= e < self.elements.len() && 0 <= q < 4 ==> is_node_offset(
                #[trigger] self.elements[e][q] as int,
                self.num_nodes,
            )
    }

    pub open spec fn ndofs(self) -> nat {
        (DIM * self.num_nodes) as nat
    }
}

impl TetrahedralMesh {
    /// Builds the mesh of `num_nodes` nodes from tetrahedra given by node
    /// indices; no node is kinematic.
    pub fn new(num_nodes: usize, tetrahedra: &Vec<[usize; 4]>) -> (r: Self)
        requires
            DIM * num_nodes <= usize::MAX,
            forall|e: int, q: int|
                0 <= e < tetrahedra@.len() && 0 <= q < 4 ==> #[trigger] tetrahedra@[e][q]
                    < num_nodes,
        ensures
            r@.wf(),
            r@.num_nodes == num_nodes,
            r@.elements.len() == tetrahedra@.len(),
            forall|e: int, q: int|
                0 <= e < tetrahedra@.len() && 0 <= q < 4 ==> #[trigger] r@.elements[e][q] == DIM
                    * tetrahedra@[e][q],
            forall|n: int| 0 <= n < num_nodes ==> !#[trigger] r@.kinematic[n],
    {
        let mut elements: Vec<[usize; 4]> = Vec::new();
        let mut e: usize = 0;
        while e < tetrahedra.len()
            invariant
                e <= tetrahedra@.len(),
                elements@.len() == e,
                DIM * num_nodes <= usize::MAX,
                forall|f: int, q: int|
                    0 <= f < tetrahedra@.len() && 0 <= q < 4 ==> #[trigger] tetrahedra@[f][q]
                        < num_nodes,
                forall|f: int, q: int|
                    0 <= f < e && 0 <= q < 4 ==> #[trigger] elements@[f][q] == DIM
                        * tetrahedra@[f][q],
            decreases tetrahedra@.len() - e,
        {
            let t = tetrahedra[e];
            assert(t[0] < num_nodes && t[1] < num_nodes && t[2] < num_nodes && t[3] < num_nodes);
            elements.push([DIM * t[0], DIM * t[1], DIM * t[2], DIM * t[3]]);
            e = e + 1;
        }
        let mut kinematic_nodes: Vec<bool> = Vec::new();
        let mut n: usize = 0;
        while n < num_nodes
            invariant
                n <= num_nodes,
                kinematic_nodes@.len() == n,
                forall|m: int| 0 <= m < n ==> !#[trigger] kinematic_nodes@[m],
            decreases num_nodes - n,
        {
            kinematic_nodes.push(false);
            n = n + 1;
        }
        let r = TetrahedralMesh { elements, num_nodes, kinematic_nodes };
        assert forall|f: int, q: int|
            0 <= f < r@.elements.len() && 0 <= q < 4 implies is_node_offset(
            #[trigger] r@.elements[f][q] as int,
            r@.num_nodes,
        ) by {
            assert(tetrahedra@[f][q] < num_nodes);
        }
        r
    }

    pub fn num_nodes(&self) -> (r: usize)
        ensures
            r == self@.num_nodes,
    {
        self.num_nodes
    }

    /// Number of degrees of freedom: three coordinates per node.
    pub fn ndofs(&self) -> (r: usize)
        requires
            self@.wf(),
        ensures
            r == self@.ndofs(),
    {
        DIM * self.num_nodes
    }

    pub fn num_elements(&self) -> (r: usize)
        ensures
            r == self@.elements.len(),
    {
        self.elements.len()
    }

    /// Coordinate offsets of the four nodes of element `i`.
    pub fn element(&self, i: usize) -> (r: [usize; 4])
        requires
            i < self@.elements.len(),
        ensures
            r == self@.elements[i as int],
    {
        self.elements[i]
    }

    pub fn is_node_kinematic(&self, i: usize) -> (r: bool)
        requires
            self@.wf(),
            i < self@.num_nodes,
        ensures
            r == self@.kinematic[i as int],
    {
        self.kinematic_nodes[i]
    }

    /// Marks node `i` as kinematic (its acceleration is forced to zero so
    /// that its velocity can be prescribed) or as free.
    pub fn set_node_kinematic(&mut self, i: usize, is_kinematic: bool)
        requires
            old(self)@.wf(),
            i < old(self)@.num_nodes,
        ensures
            final(self)@.wf(),
            final(self)@.elements == old(self)@.elements,
            final(self)@.num_nodes == old(self)@.num_nodes,
            final(self)@.kinematic == old(self)@.kinematic.update(i as int, is_kinematic),
    {
        self.kinematic_nodes.set(i, is_kinematic);
        assert(self@.elements == old(self)@.elements);
        assert(self@.kinematic.len() == self@.num_nodes);
    }

    /// Marks every node as free.
    pub fn clear_kinematic_nodes(&mut self)
        requires
            old(self)@.wf(),
        ensures
            final(self)@.wf(),
            final(self)@.elements == old(self)@.elements,
            final(self)@.num_nodes == old(self)@.num_nodes,
            forall|n: int| 0 <= n < final(self)@.num_nodes ==> !#[trigger] final(self)@.kinematic[n],
    {
        let mut n: usize = 0;
        while n < self.kinematic_nodes.len()
            invariant
                n <= self.kinematic_nodes@.len(),
                self.kinematic_nodes@.len() == old(self).kinematic_nodes@.len(),
                self.elements == old(self).elements,
                self.num_nodes == old(self).num_nodes,
                old(self)@.wf(),
                forall|m: int| 0 <= m < n ==> !#[trigger] self.kinematic_nodes@[m],
            decreases self.kinematic_nodes@.len() - n,
        {
            self.kinematic_nodes.set(n, false);
            n = n + 1;
        }
        assert(self@.elements == old(self)@.elements);
    }

    /// Offsets of the corners of element `e` whose node is not kinematic, in
    /// corner order. Only these corners receive mass, stiffness, force and
    /// constraint contributions.
    pub fn free_corners(&self, e: usize) -> (r: Vec<usize>)
        requires
            self@.wf(),
            e < self@.elements.len(),
        ensures
            r@ == free_offsets(self@.elements[e as int]@, self@.kinematic),
    {
        let tet = self.elements[e];
        let mut r: Vec<usize> = Vec::new();
        let mut q: usize = 0;
        while q < 4
            invariant
                q <= 4,
                tet == self@.elements[e as int],
                self@.wf(),
                e < self@.elements.len(),
                r@ == free_offsets(tet@.take(q as int), self@.kinematic),
            decreases 4 - q,
        {
            assert(tet@.take(q + 1).drop_last() == tet@.take(q as int));
            assert(is_node_offset(self@.elements[e as int][q as int] as int, self@.num_nodes));
            if !self.kinematic_nodes[tet[q] / DIM] {
                r.push(tet[q]);
            }
            q = q + 1;
        }
        assert(tet@.take(4) == tet@);
        r
    }
}

/// The offsets of `offsets` whose node is not kinematic, in order.
pub open spec fn free_offsets(offsets: Seq<usize>, kinematic: Seq<bool>) -> Seq<usize>
    decreases offsets.len(),
{
    if offsets.len() == 0 {
        Seq::empty()
    } else {
        let rest = free_offsets(offsets.drop_last(), kinematic);
        if kinematic[offsets.last() as int / DIM as int] {
            rest
        } else {
            rest.push(offsets.last())
        }
    }
}


/// The three values in increasing order.
pub open spec fn sorted3(a: usize, b: usize, c: usize) -> (usize, usize, usize) {
    if a <= b {
        if b <= c {
            (a, b, c)
        } else if a <= c {
            (a, c, b)
        } else {
            (c, a, b)
        }
    } else {
        if a <= c {
            (b, a, c)
        } else if b <= c {
            (b, c, a)
        } else {
            (c, b, a)
        }
    }
}

/// Sorts three values in increasing order.
pub fn sort3(a: usize, b: usize, c: usize) -> (r: (usize, usize, usize))
    ensures
        r == sorted3(a, b, c),
        r.0 <= r.1 <= r.2,
{
    if a <= b {
        if b <= c {
            (a, b, c)
        } else if a <= c {
            (a, c, b)
        } else {
            (c, a, b)
        }
    } else {
        if a <= c {
            (b, a, c)
        } else if b <= c {
            (b, c, a)
        } else {
            (c, b, a)
        }
    }
}

/// A triangle of the boundary of a tetrahedral mesh: its three node offsets
/// in increasing order, the offset of the fourth node of the element it
/// belongs to, and the index of that element.
#[derive(Clone, Copy, Debug, PartialEq, Eq, Structural)]
pub struct BoundaryFace {
    pub a: usize,
    pub b: usize,
    pub c: usize,
    pub opposite: usize,
    pub element: usize,
}

/// Face `f` of a tetrahedron is made of its corners `f`, `f + 1` and `f + 2`
/// (modulo 4); corner `f + 3` is opposite to it. Its key is the sorted triple.
pub open spec fn face_key(elements: Seq<[usize; 4]>, e: int, f: int) -> (usize, usize, usize) {
    sorted3(elements[e][f], elements[e][(f + 1) % 4], elements[e][(f + 2) % 4])
}

pub open spec fn slot_face(elements: Seq<[usize; 4]>, e: int, f: int) -> BoundaryFace {
    let k = face_key(elements, e, f);
    BoundaryFace { a: k.0, b: k.1, c: k.2, opposite: elements[e][(f + 3) % 4], element: e as usize }
}

/// A face is on the boundary when no other face of the mesh has the same
/// three nodes.
pub open spec fn is_boundary(elements: Seq<[usize; 4]>, e: int, f: int) -> bool {
    forall|e2: int, f2: int|
        0 <= e2 < elements.len() && 0 <= f2 < 4 && (e2 != e || f2 != f) ==> #[trigger] face_key(
            elements,
            e2,
            f2,
        ) != face_key(elements, e, f)
}

/// Boundary faces among the first `s` faces, faces being numbered `4 * e + f`.
pub open spec fn boundary_upto(elements: Seq<[usize; 4]>, s: nat) -> Seq<BoundaryFace>
    decreases s,
{
    if s == 0 {
        Seq::empty()
    } else {
        let prev = boundary_upto(elements, (s - 1) as nat);
        let e = (s - 1) / 4;
        let f = (s - 1) % 4;
        if is_boundary(elements, e, f) {
            prev.push(slot_face(elements, e, f))
        } else {
            prev
        }
    }
}

/// The faces of the mesh that belong to exactly one element, in element
/// order then face order.
pub open spec fn boundary_of(elements: Seq<[usize; 4]>) -> Seq<BoundaryFace> {
    boundary_upto(elements, 4 * elements.len())
}

fn face_key_exec(tet: [usize; 4], f: usize) -> (r: (usize, usize, usize))
    requires
        f < 4,
    ensures
        r == sorted3(tet[f as int], tet[(f + 1) % 4], tet[(f + 2) % 4]),
{
    sort3(tet[f], tet[(f + 1) % 4], tet[(f + 2) % 4])
}

impl TetrahedralMesh {
    fn has_twin(&self, e: usize, f: usize) -> (r: bool)
        requires
            e < self@.elements.len(),
            f < 4,
        ensures
            r == !is_boundary(self@.elements, e as int, f as int),
    {
        let els = Ghost(self@.elements);
        let key = face_key_exec(self.elements[e], f);
        assert(key == face_key(els@, e as int, f as int));
        let mut e2: usize = 0;
        while e2 < self.elements.len()
            invariant
                els@ == self@.elements,
                e < els@.len(),
                e2 <= els@.len(),
                key == face_key(els@, e as int, f as int),
                forall|e3: int, f3: int|
                    0 <= e3 < e2 && 0 <= f3 < 4 && (e3 != e || f3 != f) ==> #[trigger] face_key(
                        els@,
                        e3,
                        f3,
                    ) != key,
            decreases els@.len() - e2,
        {
            let mut f2: usize = 0;
            while f2 < 4
                invariant
                    els@ == self@.elements,
                    e2 < els@.len(),
                    f2 <= 4,
                    key == face_key(els@, e as int, f as int),
                    forall|e3: int, f3: int|
                        0 <= e3 < e2 && 0 <= f3 < 4 && (e3 != e || f3 != f) ==> #[trigger] face_key(
                            els@,
                            e3,
                            f3,
                        ) != key,
                    forall|f3: int|
                        0 <= f3 < f2 && (e2 != e || f3 != f) ==> #[trigger] face_key(
                            els@,
                            e2 as int,
                            f3,
                        ) != key,
                decreases 4 - f2,
            {
                let k2 = face_key_exec(self.elements[e2], f2);
                assert(k2 == face_key(els@, e2 as int, f2 as int));
                if (e2 != e || f2 != f) && k2.0 == key.0 && k2.1 == key.1 && k2.2 == key.2 {
                    return true;
                }
                f2 = f2 + 1;
            }
            e2 = e2 + 1;
        }
        false
    }

    /// The triangles at the boundary of the volume: the faces that belong to
    /// exactly one tetrahedron.
    pub fn boundary_faces(&self) -> (r: Vec<BoundaryFace>)
        ensures
            r@ == boundary_of(self@.elements),
    {
        let els = Ghost(self@.elements);
        let mut r: Vec<BoundaryFace> = Vec::new();
        let mut e: usize = 0;
        while e < self.elements.len()
            invariant
                els@ == self@.elements,
                e <= els@.len(),
                r@ == boundary_upto(els@, (4 * e) as nat),
            decreases els@.len() - e,
        {
            let mut f: usize = 0;
            while f < 4
                invariant
                    els@ == self@.elements,
                    e < els@.len(),
                    f <= 4,
                    r@ == boundary_upto(els@, (4 * e + f) as nat),
                decreases 4 - f,
            {
                let twin = self.has_twin(e, f);
                let tet = self.elements[e];
                let ghost s = (4 * e + f + 1) as nat;
                assert((s - 1) / 4 == e && (s - 1) % 4 == f);
                if !twin {
                    let k = face_key_exec(tet, f);
                    r.push(BoundaryFace { a: k.0, b: k.1, c: k.2, opposite: tet[(f + 3) % 4], element: e });
                }
                f = f + 1;
            }
            e = e + 1;
        }
        r
    }
}


/// Corner `q` of a boundary face, wound as `(a, b, c)` when `keep_winding`
/// holds and as `(a, c, b)` otherwise.
pub open spec fn oriented_corner(face: BoundaryFace, keep_winding: bool, q: int) -> usize {
    if q == 0 {
        face.a
    } else if (q == 1) == keep_winding {
        face.b
    } else {
        face.c
    }
}

/// The corners of all faces, three per face, in order.
pub open spec fn corner_seq(faces: Seq<BoundaryFace>, keep_winding: Seq<bool>) -> Seq<usize> {
    Seq::new(3 * faces.len(), |i: int| oriented_corner(faces[i / 3], keep_winding[i / 3], i % 3))
}

/// The distinct values of `s` in order of first appearance.
pub open spec fn first_appearances(s: Seq<usize>) -> Seq<usize>
    decreases s.len(),
{
    if s.len() == 0 {
        Seq::empty()
    } else {
        let prev = first_appearances(s.drop_last());
        if prev.contains(s.last()) {
            prev
        } else {
            prev.push(s.last())
        }
    }
}

/// A triangle mesh over the boundary of a volume. Vertex `v` of the mesh is
/// the node whose first coordinate is at `deformation_indices[v]`; triangle
/// `t` lies on element `body_parts[t]`.
pub struct BoundaryMesh {
    pub triangles: Vec<[usize; 3]>,
    pub deformation_indices: Vec<usize>,
    pub body_parts: Vec<usize>,
}

/// `remap[n]` is the mesh vertex of node `n`, if it has one.
spec fn remap_consistent(def: Seq<usize>, remap: Seq<Option<usize>>, num_nodes: nat) -> bool {
    &&& remap.len() == num_nodes
    &&& DIM * num_nodes <= usize::MAX
    &&& def.no_duplicates()
    &&& forall|i: int| 0 <= i < def.len() ==> is_node_offset(#[trigger] def[i] as int, num_nodes)
    &&& forall|n: int|
        0 <= n < num_nodes ==> (#[trigger] remap[n] is Some <==> def.contains((DIM * n) as usize))
    &&& forall|n: int|
        0 <= n < num_nodes && #[trigger] remap[n] is Some ==> remap[n]->0 < def.len()
            && def[remap[n]->0 as int] == DIM * n
}

fn remap_corner(
    def: &mut Vec<usize>,
    remap: &mut Vec<Option<usize>>,
    c: usize,
    Ghost(num_nodes): Ghost<nat>,
) -> (id: usize)
    requires
        is_node_offset(c as int, num_nodes),
        remap_consistent(old(def)@, old(remap)@, num_nodes),
    ensures
        final(def)@ == (if old(def)@.contains(c) {
            old(def)@
        } else {
            old(def)@.push(c)
        }),
        id < final(def)@.len(),
        final(def)@[id as int] == c,
        remap_consistent(final(def)@, final(remap)@, num_nodes),
{
    let node = c / DIM;
    assert(c == DIM * node);
    match remap[node] {
        Some(id) => {
            id
        },
        None => {
            let id = def.len();
            proof {
                assert(!old(def)@.contains(c));
            }
            def.push(c);
            remap.set(node, Some(id));
            proof {
                let d = def@;
                assert(d.last() == c);
                assert forall|n: int|
                    0 <= n < num_nodes implies (#[trigger] remap@[n] is Some <==> d.contains(
                    (DIM * n) as usize,
                )) by {
                    if n != node {
                        if d.contains((DIM * n) as usize) {
                            let i = choose|i: int| 0 <= i < d.len() && d[i] == (DIM * n) as usize;
                            assert(i != d.len() - 1);
                            assert(old(def)@[i] == (DIM * n) as usize);
                        }
                        if old(def)@.contains((DIM * n) as usize) {
                            let i = choose|i: int|
                                0 <= i < old(def)@.len() && old(def)@[i] == (DIM * n) as usize;
                            assert(d[i] == (DIM * n) as usize);
                        }
                    } else {
                        assert(d[id as int] == c);
                    }
                }
                assert forall|i: int, j: int|
                    0 <= i < d.len() && 0 <= j < d.len() && i != j implies d[i] != d[j] by {
                    if i == d.len() - 1 {
                        assert(old(def)@[j] == d[j]);
                    } else if j == d.len() - 1 {
                        assert(old(def)@[i] == d[i]);
                    }
                }
            }
            id
        },
    }
}

impl TetrahedralMesh {
    /// Builds the boundary triangle mesh from the boundary faces, each wound as
    /// `(a, b, c)` or `(a, c, b)` as `keep_winding` says. Mesh vertices are
    /// numbered in order of first use.
    pub fn boundary_mesh(&self, faces: &Vec<BoundaryFace>, keep_winding: &Vec<bool>) -> (r: BoundaryMesh)
        requires
            self@.wf(),
            keep_winding@.len() == faces@.len(),
            forall|t: int|
                0 <= t < faces@.len() ==> is_node_offset(#[trigger] faces@[t].a as int, self@.num_nodes)
                    && is_node_offset(faces@[t].b as int, self@.num_nodes) && is_node_offset(
                    faces@[t].c as int,
                    self@.num_nodes,
                ),
        ensures
            r.deformation_indices@ == first_appearances(corner_seq(faces@, keep_winding@)),
            r.deformation_indices@.no_duplicates(),
            r.triangles@.len() == faces@.len(),
            r.body_parts@.len() == faces@.len(),
            forall|t: int| 0 <= t < faces@.len() ==> #[trigger] r.body_parts@[t] == faces@[t].element,
            forall|t: int, q: int|
                0 <= t < faces@.len() && 0 <= q < 3 ==> #[trigger] r.triangles@[t][q]
                    < r.deformation_indices@.len() && r.deformation_indices@[r.triangles@[t][q] as int]
                    == oriented_corner(faces@[t], keep_winding@[t], q),
    {
        let ghost nn = self@.num_nodes;
        let ghost cs = corner_seq(faces@, keep_winding@);
        let mut remap: Vec<Option<usize>> = Vec::new();
        let mut n: usize = 0;
        while n < self.num_nodes
            invariant
                n <= nn,
                nn == self.num_nodes,
                remap@.len() == n,
                forall|m: int| 0 <= m < n ==> #[trigger] remap@[m] is None,
            decreases nn - n,
        {
            remap.push(None);
            n = n + 1;
        }
        let mut def: Vec<usize> = Vec::new();
        assert(cs.take(0) =~= Seq::<usize>::empty());
        let mut triangles: Vec<[usize; 3]> = Vec::new();
        let mut body_parts: Vec<usize> = Vec::new();
        let mut t: usize = 0;
        while t < faces.len()
            invariant
                nn == self@.num_nodes,
                self@.wf(),
                t <= faces@.len(),
                keep_winding@.len() == faces@.len(),
                cs == corner_seq(faces@, keep_winding@),
                forall|u: int|
                    0 <= u < faces@.len() ==> is_node_offset(#[trigger] faces@[u].a as int, nn)
                        && is_node_offset(faces@[u].b as int, nn) && is_node_offset(
                        faces@[u].c as int,
                        nn,
                    ),
                remap_consistent(def@, remap@, nn),
                def@ == first_appearances(cs.take(3 * t)),
                triangles@.len() == t,
                body_parts@.len() == t,
                forall|u: int| 0 <= u < t ==> #[trigger] body_parts@[u] == faces@[u].element,
                forall|u: int, q: int|
                    0 <= u < t && 0 <= q < 3 ==> #[trigger] triangles@[u][q] < def@.len()
                        && def@[triangles@[u][q] as int] == oriented_corner(
                        faces@[u],
                        keep_winding@[u],
                        q,
                    ),
            decreases faces@.len() - t,
        {
            let face = faces[t];
            let keep = keep_winding[t];
            let (c1, c2) = if keep {
                (face.b, face.c)
            } else {
                (face.c, face.b)
            };
            let ghost i = 3 * t;
            assert(cs[i] == face.a && cs[i + 1] == c1 && cs[i + 2] == c2);
            assert(cs.take(i + 1).drop_last() == cs.take(i));
            assert(cs.take(i + 2).drop_last() == cs.take(i + 1));
            assert(cs.take(i + 3).drop_last() == cs.take(i + 2));
            assert(cs.take(i + 1).last() == face.a);
            assert(cs.take(i + 2).last() == c1);
            assert(cs.take(i + 3).last() == c2);
            let ghost d0 = def@;
            let v0 = remap_corner(&mut def, &mut remap, face.a, Ghost(nn));
            let ghost d1 = def@;
            assert(d1 == first_appearances(cs.take(i + 1)));
            let v1 = remap_corner(&mut def, &mut remap, c1, Ghost(nn));
            let ghost d2 = def@;
            assert(d2 == first_appearances(cs.take(i + 2)));
            let v2 = remap_corner(&mut def, &mut remap, c2, Ghost(nn));
            assert(def@ == first_appearances(cs.take(i + 3)));
            assert(d1.is_prefix_of(def@) && d2.is_prefix_of(def@));
            assert(def@[v0 as int] == face.a);
            assert(def@[v1 as int] == c1);
            triangles.push([v0, v1, v2]);
            body_parts.push(face.element);
            proof {
                assert forall|u: int, q: int|
                    0 <= u < t + 1 && 0 <= q < 3 implies #[trigger] triangles@[u][q] < def@.len()
                        && def@[triangles@[u][q] as int] == oriented_corner(
                        faces@[u],
                        keep_winding@[u],
                        q,
                    ) by {
                    if u < t {
                        assert(d0.is_prefix_of(def@));
                        assert(def@[triangles@[u][q] as int] == d0[triangles@[u][q] as int]);
                    }
                }
            }
            t = t + 1;
        }
        assert(cs.take(3 * faces@.len() as int) == cs);
        BoundaryMesh { triangles, deformation_indices: def, body_parts }
    }
}


/// Offsets of the nodes below `n` that `listed` does not hold, in
/// increasing order.
pub open spec fn unlisted_upto(listed: Seq<usize>, n: nat) -> Seq<usize>
    decreases n,
{
    if n == 0 {
        Seq::empty()
    } else {
        let prev = unlisted_upto(listed, (n - 1) as nat);
        let o = (DIM * (n - 1)) as usize;
        if listed.contains(o) {
            prev
        } else {
            prev.push(o)
        }
    }
}

/// Distinct node offsets: at most one per node, and one per node exactly
/// when every node is there.
proof fn lemma_node_offsets_len(s: Seq<usize>, num_nodes: nat)
    requires
        s.no_duplicates(),
        DIM * num_nodes <= usize::MAX,
        forall|i: int| 0 <= i < s.len() ==> is_node_offset(#[trigger] s[i] as int, num_nodes),
    ensures
        s.len() <= num_nodes,
        (forall|n: int| 0 <= n < num_nodes ==> s.contains(#[trigger] (DIM * n) as usize)) ==> s.len()
            == num_nodes,
{
    let t = s.map_values(|o: usize| o as int / DIM as int);
    assert forall|i: int, j: int| 0 <= i < t.len() && 0 <= j < t.len() && i != j implies t[i]
        != t[j] by {
        assert(s[i] != s[j]);
        assert(is_node_offset(s[i] as int, num_nodes) && is_node_offset(s[j] as int, num_nodes));
    }
    t.unique_seq_to_set();
    lemma_int_range(0, num_nodes as int);
    let range = set_int_range(0, num_nodes as int);
    assert forall|x: int| t.to_set().contains(x) implies range.contains(x) by {
        let i = choose|i: int| 0 <= i < t.len() && t[i] == x;
        assert(is_node_offset(s[i] as int, num_nodes));
    }
    lemma_len_subset(t.to_set(), range);
    if forall|n: int| 0 <= n < num_nodes ==> s.contains(#[trigger] (DIM * n) as usize) {
        assert forall|x: int| range.contains(x) implies t.to_set().contains(x) by {
            assert(s.contains((DIM * x) as usize));
            let i = choose|i: int| 0 <= i < s.len() && s[i] == (DIM * x) as usize;
            assert(t[i] == x);
        }
        assert(t.to_set() =~= range);
    }
}

impl TetrahedralMesh {
    /// Renumbers the nodes so that the node at offset `deformation_indices[i]`
    /// becomes node `i`; the other nodes follow in their former order. Returns
    /// the former offset of each node in the new numbering, so that any
    /// per-node data can be moved along (see `gather_node_rows`). Elements
    /// and kinematic flags are renumbered here.
    pub fn renumber_dofs(&mut self, deformation_indices: &Vec<usize>) -> (order: Vec<usize>)
        requires
            old(self)@.wf(),
            deformation_indices@.no_duplicates(),
            forall|i: int|
                0 <= i < deformation_indices@.len() ==> is_node_offset(
                    #[trigger] deformation_indices@[i] as int,
                    old(self)@.num_nodes,
                ),
        ensures
            order@ == deformation_indices@ + unlisted_upto(deformation_indices@, old(self)@.num_nodes),
            order@.len() == old(self)@.num_nodes,
            final(self)@.wf(),
            final(self)@.num_nodes == old(self)@.num_nodes,
            final(self)@.elements.len() == old(self)@.elements.len(),
            forall|e: int, q: int|
                0 <= e < old(self)@.elements.len() && 0 <= q < 4
                    ==> order@[#[trigger] final(self)@.elements[e][q] as int / DIM as int]
                    == old(self)@.elements[e][q],
            forall|n: int|
                0 <= n < old(self)@.num_nodes
                    ==> #[trigger] final(self)@.kinematic[n]
                    == old(self)@.kinematic[order@[n] as int / DIM as int],
    {
        let ghost nn = self@.num_nodes;
        let ghost def = deformation_indices@;
        let n_nodes = self.num_nodes;
        let mut new_offset: Vec<usize> = Vec::new();
        let mut remapped: Vec<bool> = Vec::new();
        let mut n: usize = 0;
        while n < n_nodes
            invariant
                n <= n_nodes,
                new_offset@.len() == n,
                remapped@.len() == n,
                forall|m: int| 0 <= m < n ==> !#[trigger] remapped@[m],
            decreases n_nodes - n,
        {
            new_offset.push(0);
            remapped.push(false);
            n = n + 1;
        }
        let mut order: Vec<usize> = Vec::new();
        let mut target: usize = 0;
        while target < deformation_indices.len()
            invariant
                nn == n_nodes,
                DIM * nn <= usize::MAX,
                def == deformation_indices@,
                def.no_duplicates(),
                forall|i: int| 0 <= i < def.len() ==> is_node_offset(#[trigger] def[i] as int, nn),
                target <= def.len(),
                order@ == def.take(target as int),
                new_offset@.len() == nn,
                remapped@.len() == nn,
                forall|m: int|
                    0 <= m < nn ==> (#[trigger] remapped@[m] <==> order@.contains((DIM * m) as usize)),
                forall|m: int|
                    0 <= m < nn && #[trigger] remapped@[m] ==> new_offset@[m] % DIM == 0
                        && new_offset@[m] / DIM < order@.len() && order@[(new_offset@[m] / DIM) as int]
                        == DIM * m,
            decreases def.len() - target,
        {
            let orig = deformation_indices[target];
            assert(is_node_offset(def[target as int] as int, nn));
            proof {
                assert(def.take(target + 1).no_duplicates());
                assert forall|i: int| 0 <= i < def.take(target + 1).len() implies is_node_offset(
                    #[trigger] def.take(target + 1)[i] as int,
                    nn,
                ) by {
                    assert(is_node_offset(def[i] as int, nn));
                }
                lemma_node_offsets_len(def.take(target + 1), nn);
            }
            let node = orig / DIM;
            let ghost old_order = order@;
            proof {
                if old_order.contains(orig) {
                    let i = choose|i: int| 0 <= i < old_order.len() && old_order[i] == orig;
                    assert(def[i] == def[target as int]);
                }
            }
            new_offset.set(node, DIM * target);
            remapped.set(node, true);
            order.push(orig);
            proof {
                assert(order@ == def.take(target + 1));
                assert forall|m: int|
                    0 <= m < nn implies (#[trigger] remapped@[m] <==> order@.contains(
                    (DIM * m) as usize,
                )) by {
                    if m != node {
                        if order@.contains((DIM * m) as usize) {
                            let i = choose|i: int| 0 <= i < order@.len() && order@[i] == (DIM * m) as usize;
                            assert(i != order@.len() - 1);
                            assert(old_order[i] == (DIM * m) as usize);
                        }
                        if old_order.contains((DIM * m) as usize) {
                            let i = choose|i: int|
                                0 <= i < old_order.len() && old_order[i] == (DIM * m) as usize;
                            assert(order@[i] == (DIM * m) as usize);
                        }
                    } else {
                        assert(order@[target as int] == orig);
                    }
                }
            }
            target = target + 1;
        }
        assert(def.take(def.len() as int) == def);
        let mut n: usize = 0;
        while n < n_nodes
            invariant
                nn == n_nodes,
                DIM * nn <= usize::MAX,
                def == deformation_indices@,
                def.no_duplicates(),
                forall|i: int| 0 <= i < def.len() ==> is_node_offset(#[trigger] def[i] as int, nn),
                n <= nn,
                order@ == def + unlisted_upto(def, n as nat),
                order@.no_duplicates(),
                forall|i: int| 0 <= i < order@.len() ==> is_node_offset(#[trigger] order@[i] as int, nn),
                new_offset@.len() == nn,
                remapped@.len() == nn,
                forall|m: int|
                    n <= m < nn ==> (#[trigger] remapped@[m] <==> order@.contains((DIM * m) as usize)),
                forall|m: int| 0 <= m < n ==> order@.contains(#[trigger] (DIM * m) as usize),
                forall|m: int|
                    0 <= m < nn && (m < n || remapped@[m]) ==> #[trigger] new_offset@[m] % DIM == 0
                        && new_offset@[m] / DIM < order@.len() && order@[(new_offset@[m] / DIM) as int]
                        == DIM * m,
            decreases nn - n,
        {
            let ghost old_order = order@;
            let ghost old_new_offset = new_offset@;
            let o = DIM * n;
            if !remapped[n] {
                proof {
                    assert(!old_order.contains(o));
                    assert(old_order.push(o).no_duplicates());
                    assert forall|i: int| 0 <= i < old_order.push(o).len() implies is_node_offset(
                        #[trigger] old_order.push(o)[i] as int,
                        nn,
                    ) by {
                        if i < old_order.len() {
                            assert(is_node_offset(old_order[i] as int, nn));
                        }
                    }
                    lemma_node_offsets_len(old_order.push(o), nn);
                    assert(!def.contains(o)) by {
                        if def.contains(o) {
                            let i = choose|i: int| 0 <= i < def.len() && def[i] == o;
                            assert(old_order[i] == o);
                        }
                    }
                }
                new_offset.set(n, DIM * order.len());
                order.push(o);
                proof {
                    assert(order@ == def + unlisted_upto(def, (n + 1) as nat));
                }
            } else {
                proof {
                    assert(old_order.contains(o));
                    let i = choose|i: int| 0 <= i < old_order.len() && old_order[i] == o;
                    if i >= def.len() {
                        // nodes listed after `def` are all below `n`
                        assert(false) by {
                            lemma_unlisted_below(def, n as nat, i - def.len());
                        }
                    }
                    assert(def.contains(o));
                    assert(order@ == def + unlisted_upto(def, (n + 1) as nat));
                }
            }
            proof {
                assert forall|m: int|
                    n + 1 <= m < nn implies (#[trigger] remapped@[m] <==> order@.contains(
                    (DIM * m) as usize,
                )) by {
                    if order@.contains((DIM * m) as usize) && !old_order.contains((DIM * m) as usize) {
                        let i = choose|i: int| 0 <= i < order@.len() && order@[i] == (DIM * m) as usize;
                        assert(i == order@.len() - 1);
                    }
                    if old_order.contains((DIM * m) as usize) {
                        let i = choose|i: int|
                            0 <= i < old_order.len() && old_order[i] == (DIM * m) as usize;
                        assert(order@[i] == (DIM * m) as usize);
                    }
                }
                assert forall|m: int| 0 <= m < n + 1 implies order@.contains(#[trigger] (DIM * m) as usize) by {
                    if m < n {
                        assert(old_order.contains((DIM * m) as usize));
                        let i = choose|i: int|
                            0 <= i < old_order.len() && old_order[i] == (DIM * m) as usize;
                        assert(order@[i] == (DIM * m) as usize);
                    } else {
                        if remapped@[m] {
                            assert(old_order.contains(o));
                            let i = choose|i: int| 0 <= i < old_order.len() && old_order[i] == o;
                            assert(order@[i] == o);
                        } else {
                            assert(order@[order@.len() - 1] == o);
                        }
                    }
                }
                assert forall|m: int|
                    0 <= m < nn && (m < n + 1 || remapped@[m]) implies #[trigger] new_offset@[m] % DIM
                        == 0 && new_offset@[m] / DIM < order@.len() && order@[(new_offset@[m]
                        / DIM) as int] == DIM * m by {
                    if m != n || remapped@[m] {
                        assert(new_offset@[m] == old_new_offset[m]);
                        assert(old_new_offset[m] % DIM == 0 && old_new_offset[m] / DIM < old_order.len()
                            && old_order[(old_new_offset[m] / DIM) as int] == DIM * m);
                        assert(order@[(old_new_offset[m] / DIM) as int] == old_order[(old_new_offset[m]
                            / DIM) as int]);
                    } else {
                        assert(new_offset@[m] == DIM * old_order.len());
                        assert(order@[old_order.len() as int] == o);
                    }
                }
            }
            n = n + 1;
        }
        proof {
            lemma_node_offsets_len(order@, nn);
        }
        let ghost old_elements = self@.elements;
        let mut e: usize = 0;
        while e < self.elements.len()
            invariant
                nn == n_nodes,
                old(self)@.wf(),
                old_elements == old(self)@.elements,
                self.kinematic_nodes == old(self).kinematic_nodes,
                self.num_nodes == n_nodes,
                self.elements@.len() == old_elements.len(),
                e <= old_elements.len(),
                order@.len() == nn,
                new_offset@.len() == nn,
                forall|f: int, q: int|
                    e <= f < old_elements.len() && 0 <= q < 4 ==> #[trigger] self.elements@[f][q]
                        == old_elements[f][q],
                forall|f: int, q: int|
                    0 <= f < old_elements.len() && 0 <= q < 4 ==> is_node_offset(
                        #[trigger] old_elements[f][q] as int,
                        nn,
                    ),
                forall|m: int|
                    0 <= m < nn ==> #[trigger] new_offset@[m] % DIM == 0 && new_offset@[m] / DIM
                        < order@.len() && order@[(new_offset@[m] / DIM) as int] == DIM * m,
                forall|f: int, q: int|
                    0 <= f < e && 0 <= q < 4 ==> is_node_offset(
                        #[trigger] self.elements@[f][q] as int,
                        nn,
                    ) && order@[self.elements@[f][q] as int / DIM as int] == old_elements[f][q],
            decreases old_elements.len() - e,
        {
            let t = self.elements[e];
            assert(is_node_offset(old_elements[e as int][0] as int, nn));
            assert(is_node_offset(old_elements[e as int][1] as int, nn));
            assert(is_node_offset(old_elements[e as int][2] as int, nn));
            assert(is_node_offset(old_elements[e as int][3] as int, nn));
            let renumbered = [
                new_offset[t[0] / DIM],
                new_offset[t[1] / DIM],
                new_offset[t[2] / DIM],
                new_offset[t[3] / DIM],
            ];
            self.elements.set(e, renumbered);
            e = e + 1;
        }
        let mut kinematic: Vec<bool> = Vec::new();
        let mut q: usize = 0;
        while q < n_nodes
            invariant
                nn == n_nodes,
                q <= nn,
                order@.len() == nn,
                self.kinematic_nodes@.len() == nn,
                self.kinematic_nodes@ == old(self).kinematic_nodes@,
                forall|i: int| 0 <= i < order@.len() ==> is_node_offset(#[trigger] order@[i] as int, nn),
                kinematic@.len() == q,
                forall|m: int|
                    0 <= m < q ==> #[trigger] kinematic@[m] == self.kinematic_nodes@[order@[m] as int
                        / DIM as int],
            decreases nn - q,
        {
            assert(is_node_offset(order@[q as int] as int, nn));
            kinematic.push(self.kinematic_nodes[order[q] / DIM]);
            q = q + 1;
        }
        self.kinematic_nodes = kinematic;
        order
    }
}

/// Every offset listed by `unlisted_upto(listed, n)` is below `DIM * n` and
/// missing from `listed`.
proof fn lemma_unlisted_below(listed: Seq<usize>, n: nat, i: int)
    requires
        0 <= i < unlisted_upto(listed, n).len(),
        DIM * n <= usize::MAX,
    ensures
        unlisted_upto(listed, n)[i] < DIM * n,
        !listed.contains(unlisted_upto(listed, n)[i]),
    decreases n,
{
    if n > 0 {
        let prev = unlisted_upto(listed, (n - 1) as nat);
        if i < prev.len() {
            lemma_unlisted_below(listed, (n - 1) as nat, i);
        }
    }
}

/// Moves per-node rows of `DIM` values: row `q` of the result is the row that
/// starts at offset `order[q]` in `values`.
pub fn gather_node_rows<T: Copy>(values: &Vec<T>, order: &Vec<usize>) -> (r: Vec<T>)
    requires
        forall|q: int| 0 <= q < order@.len() ==> #[trigger] order@[q] + DIM <= values@.len(),
        DIM * order@.len() <= usize::MAX,
    ensures
        r@.len() == DIM * order@.len(),
        forall|q: int, c: int|
            0 <= q < order@.len() && 0 <= c < DIM ==> #[trigger] r@[DIM * q + c] == values@[order@[q]
                + c],
{
    let mut r: Vec<T> = Vec::new();
    let len = values.len();
    let mut q: usize = 0;
    while q < order.len()
        invariant
            q <= order@.len(),
            len == values@.len(),
            DIM * order@.len() <= usize::MAX,
            forall|p: int| 0 <= p < order@.len() ==> #[trigger] order@[p] + DIM <= values@.len(),
            r@.len() == DIM * q,
            forall|p: int, c: int|
                0 <= p < q && 0 <= c < DIM ==> #[trigger] r@[DIM * p + c] == values@[order@[p] + c],
        decreases order@.len() - q,
    {
        let start = order[q];
        assert(order@[q as int] + DIM <= values@.len());
        let ghost before = r@;
        r.push(values[start]);
        r.push(values[start + 1]);
        r.push(values[start + 2]);
        proof {
            assert forall|p: int, c: int|
                0 <= p < q + 1 && 0 <= c < DIM implies #[trigger] r@[DIM * p + c] == values@[order@[p]
                + c] by {
                if p < q {
                    assert(r@[DIM * p + c] == before[DIM * p + c]);
                }
            }
        }
        q = q + 1;
    }
    r
}

} // verus!
