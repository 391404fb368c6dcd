use nphysics::assembly::{
    assign_companion_ids, check_row, contact_position_layout, reserve_ground_row, reserve_row, RowIds,
    RowLayout,
};

#[test]
fn companion_ids_are_prefix_sums() {
    let (ids, total) = assign_companion_ids(&vec![6, 0, 3, 12]);
    assert_eq!(ids, vec![0, 6, 6, 9]);
    assert_eq!(total, 21);
    let (ids, total) = assign_companion_ids(&vec![]);
    assert!(ids.is_empty());
    assert_eq!(total, 0);
}

#[test]
fn rows_are_packed_one_after_another() {
    let mut cursor = 10;
    let ids = reserve_row(&mut cursor, 6, 3);
    assert_eq!(ids, RowIds { j_id1: 10, wj_id1: 16, j_id2: 22, wj_id2: 25 });
    assert_eq!(cursor, 28);
    let next = reserve_row(&mut cursor, 0, 3);
    assert_eq!(next.j_id1, 28);
    assert_eq!(next.j_id2, 28);
    assert_eq!(cursor, 34);
}

#[test]
fn ground_rows_have_one_side() {
    let mut cursor = 0;
    assert_eq!(reserve_ground_row(&mut cursor, 6), (0, 6));
    assert_eq!(cursor, 12);
}

#[test]
fn position_layout_puts_weighted_jacobians_first() {
    let ids = contact_position_layout(6, 3);
    assert_eq!(ids, RowIds { j_id1: 9, wj_id1: 0, j_id2: 15, wj_id2: 6 });
}

#[test]
fn row_check_rejects_out_of_bounds_slices() {
    let mut cursor = 0;
    let ids = reserve_row(&mut cursor, 6, 6);
    let row = RowLayout { assembly_id1: 0, ndofs1: 6, assembly_id2: 6, ndofs2: 6, ids };
    assert!(check_row(&row, 24, 12));
    assert!(!check_row(&row, 23, 12));
    assert!(!check_row(&row, 24, 11));
    let far = RowLayout { assembly_id1: usize::MAX, ..row };
    assert!(!check_row(&far, 24, 12));
}
