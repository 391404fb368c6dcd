use nphysics::body::BodyStatus;
use nphysics::fem_helper::{jacobian_blocks, FiniteElementIndices};
use nphysics::fem_mesh::{cube_tetrahedra, gather_node_rows, sort3, BoundaryFace, TetrahedralMesh};

fn single_tet() -> TetrahedralMesh {
    TetrahedralMesh::new(4, &vec![[0, 1, 2, 3]])
}

#[test]
fn cube_single_cell_is_five_tetrahedra() {
    let tets = cube_tetrahedra(1, 1, 1);
    assert_eq!(
        tets,
        vec![[0, 1, 5, 3], [5, 3, 7, 6], [5, 6, 4, 0], [6, 2, 0, 3], [0, 5, 6, 3]]
    );
}

#[test]
fn cube_counts_match_subdivisions() {
    assert_eq!(cube_tetrahedra(4, 4, 4).len(), 5 * 64);
    assert_eq!(cube_tetrahedra(10, 1, 1).len(), 50);
    assert!(cube_tetrahedra(0, 3, 3).is_empty());
    for t in cube_tetrahedra(4, 4, 4) {
        for n in t {
            assert!(n < 125);
        }
    }
}

#[test]
fn cube_odd_cells_use_mirrored_pattern() {
    // The second cell along z (k = 1) of a 1x1x2 box is odd.
    let tets = cube_tetrahedra(1, 1, 2);
    // Nodes: (i * 2 + j) * 3 + k; corners of cell k = 1.
    let n = |i: usize, j: usize, k: usize| (i * 2 + j) * 3 + k;
    let c = [n(0, 0, 1), n(0, 0, 2), n(1, 0, 2), n(1, 0, 1), n(0, 1, 1), n(0, 1, 2), n(1, 1, 2), n(1, 1, 1)];
    assert_eq!(tets[5], [c[4], c[6], c[5], c[1]]);
    assert_eq!(tets[9], [c[4], c[3], c[6], c[1]]);
}

#[test]
fn new_mesh_stores_coordinate_offsets() {
    let mesh = TetrahedralMesh::new(5, &vec![[0, 1, 2, 3], [1, 2, 3, 4]]);
    assert_eq!(mesh.num_elements(), 2);
    assert_eq!(mesh.element(1), [3, 6, 9, 12]);
    assert_eq!(mesh.ndofs(), 15);
    assert!(!mesh.is_node_kinematic(4));
}

#[test]
fn sort3_orders_values() {
    assert_eq!(sort3(3, 1, 2), (1, 2, 3));
    assert_eq!(sort3(2, 2, 1), (1, 2, 2));
    assert_eq!(sort3(9, 5, 0), (0, 5, 9));
}

#[test]
fn boundary_of_single_tetrahedron() {
    let faces = single_tet().boundary_faces();
    let f = |a, b, c, opposite| BoundaryFace { a, b, c, opposite, element: 0 };
    assert_eq!(faces, vec![f(0, 3, 6, 9), f(3, 6, 9, 0), f(0, 6, 9, 3), f(0, 3, 9, 6)]);
}

#[test]
fn shared_faces_are_not_boundary() {
    let mesh = TetrahedralMesh::new(5, &vec![[0, 1, 2, 3], [1, 2, 3, 4]]);
    let faces = mesh.boundary_faces();
    assert_eq!(faces.len(), 6);
    assert!(faces.iter().all(|f| !(f.a == 3 && f.b == 6 && f.c == 9)));
    assert_eq!(faces.iter().filter(|f| f.element == 1).count(), 3);
}

#[test]
fn boundary_of_cube_cell_is_twelve_triangles() {
    let mesh = TetrahedralMesh::new(8, &cube_tetrahedra(1, 1, 1));
    let faces = mesh.boundary_faces();
    assert_eq!(faces.len(), 12);
    // The central tetrahedron touches no side of the cube.
    assert!(faces.iter().all(|f| f.element != 4));
}

#[test]
fn boundary_mesh_numbers_vertices_by_first_use() {
    let mesh = single_tet();
    let faces = mesh.boundary_faces();
    let bm = mesh.boundary_mesh(&faces, &vec![true; 4]);
    assert_eq!(bm.deformation_indices, vec![0, 3, 6, 9]);
    assert_eq!(bm.triangles, vec![[0, 1, 2], [1, 2, 3], [0, 2, 3], [0, 1, 3]]);
    assert_eq!(bm.body_parts, vec![0, 0, 0, 0]);
}

#[test]
fn boundary_mesh_flips_winding() {
    let mesh = single_tet();
    let faces = mesh.boundary_faces();
    let bm = mesh.boundary_mesh(&faces, &vec![false, true, true, true]);
    assert_eq!(bm.deformation_indices, vec![0, 6, 3, 9]);
    assert_eq!(bm.triangles[0], [0, 1, 2]);
    assert_eq!(bm.triangles[1], [2, 1, 3]);
}

#[test]
fn renumber_dofs_puts_listed_nodes_first() {
    let mut mesh = single_tet();
    mesh.set_node_kinematic(3, true);
    let order = mesh.renumber_dofs(&vec![9, 3]);
    assert_eq!(order, vec![9, 3, 0, 6]);
    assert_eq!(mesh.element(0), [6, 3, 9, 0]);
    assert!(mesh.is_node_kinematic(0));
    assert!(!mesh.is_node_kinematic(1));
    assert!(!mesh.is_node_kinematic(2));
    assert!(!mesh.is_node_kinematic(3));
}

#[test]
fn gather_moves_node_rows() {
    let values: Vec<f64> = (0..12).map(|i| i as f64).collect();
    let moved = gather_node_rows(&values, &vec![9, 3, 0, 6]);
    let expected: Vec<f64> = [9, 10, 11, 3, 4, 5, 0, 1, 2, 6, 7, 8].iter().map(|&i| i as f64).collect();
    assert_eq!(moved, expected);
}

#[test]
fn kinematic_nodes_are_skipped() {
    let mut mesh = single_tet();
    mesh.set_node_kinematic(1, true);
    assert!(mesh.is_node_kinematic(1));
    assert_eq!(mesh.free_corners(0), vec![0, 6, 9]);
    mesh.clear_kinematic_nodes();
    assert_eq!(mesh.free_corners(0), vec![0, 3, 6, 9]);
}

#[test]
fn jacobian_blocks_mask_kinematic_nodes() {
    let tet = FiniteElementIndices::Tetrahedron([0, 3, 6, 9]);
    let kinematic = vec![false, true, false, false];
    assert_eq!(jacobian_blocks(BodyStatus::Dynamic, &tet, &kinematic, 100), vec![100, 106, 109]);
    assert!(jacobian_blocks(BodyStatus::Kinematic, &tet, &kinematic, 100).is_empty());
    assert!(jacobian_blocks(BodyStatus::Static, &tet, &kinematic, 100).is_empty());
    let seg = FiniteElementIndices::Segment([3, 0]);
    assert_eq!(jacobian_blocks(BodyStatus::Dynamic, &seg, &kinematic, 7), vec![7]);
    let tri = FiniteElementIndices::Triangle([0, 6, 9]);
    assert_eq!(tri.offsets_vec(), vec![0, 6, 9]);
}

#[test]
fn empty_mesh_has_no_boundary() {
    let mesh = TetrahedralMesh::new(0, &vec![]);
    let faces = mesh.boundary_faces();
    assert!(faces.is_empty());
    let bm = mesh.boundary_mesh(&faces, &vec![]);
    assert!(bm.triangles.is_empty() && bm.deformation_indices.is_empty() && bm.body_parts.is_empty());
}

#[test]
fn renumbering_with_nothing_listed_keeps_the_order() {
    let mut mesh = single_tet();
    let order = mesh.renumber_dofs(&vec![]);
    assert_eq!(order, vec![0, 3, 6, 9]);
    assert_eq!(mesh.element(0), [0, 3, 6, 9]);
}

#[test]
fn boundary_mesh_of_cube_then_renumbering() {
    let mut mesh = TetrahedralMesh::new(27, &cube_tetrahedra(2, 2, 2));
    let faces = mesh.boundary_faces();
    // Six sides of 2x2 squares, two triangles each.
    assert_eq!(faces.len(), 48);
    let bm = mesh.boundary_mesh(&faces, &vec![true; faces.len()]);
    // Every node but the center one is on the boundary.
    assert_eq!(bm.deformation_indices.len(), 26);
    assert!(!bm.deformation_indices.contains(&(13 * 3)));
    let order = mesh.renumber_dofs(&bm.deformation_indices);
    assert_eq!(&order[..26], &bm.deformation_indices[..]);
    assert_eq!(order[26], 39);
}
