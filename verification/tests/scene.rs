use ta_reborn::scene::mesh_indices;

#[test]
fn one_cell_is_two_triangles() {
    // Vertices 0 (0,0), 1 (1,0), 2 (0,1), 3 (1,1).
    assert_eq!(mesh_indices(1), vec![0, 2, 1, 1, 2, 3]);
}

#[test]
fn cells_come_row_by_row() {
    let indices = mesh_indices(2);
    assert_eq!(indices.len(), 24);
    // Cell (1, 0): i = 1, n = 3.
    assert_eq!(&indices[6..12], &[1, 4, 2, 2, 4, 5]);
    // Cell (0, 1): i = 3.
    assert_eq!(&indices[12..18], &[3, 6, 4, 4, 6, 7]);
    assert_eq!(mesh_indices(0), Vec::<u32>::new());
}
