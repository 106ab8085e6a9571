use cuboid_map::edges::{CellSide, count_cell_side_edges, has_edge_on_cell_side, has_horizontal_edge, has_vertical_edge};
use cuboid_map::grid::EdgeGrid;

#[test]
fn cell_side_lookup_sees_internal_horizontal_edge_from_both_cells() {
    let mut edges = EdgeGrid::new(1, 2);
    edges.horizontal[1][0] = true;

    assert!(has_edge_on_cell_side(&edges, 0, 0, CellSide::South));
    assert!(has_edge_on_cell_side(&edges, 1, 0, CellSide::North));
}

#[test]
fn cell_side_lookup_sees_internal_vertical_edge_from_both_cells() {
    let mut edges = EdgeGrid::new(2, 1);
    edges.vertical[0][1] = true;

    assert!(has_edge_on_cell_side(&edges, 0, 0, CellSide::East));
    assert!(has_edge_on_cell_side(&edges, 0, 1, CellSide::West));
}

#[test]
fn grid_line_lookup_reads_boundary_edges() {
    let mut edges = EdgeGrid::new(1, 1);
    edges.horizontal[1][0] = true;
    edges.vertical[0][1] = true;

    assert!(has_horizontal_edge(&edges, 1, 0));
    assert!(has_vertical_edge(&edges, 0, 1));
}

#[test]
fn edge_grid_has_one_more_line_than_cells_each_way() {
    let edges = EdgeGrid::new(3, 2);
    assert_eq!(edges.horizontal.len(), 3);
    assert!(edges.horizontal.iter().all(|row| row.len() == 3));
    assert_eq!(edges.vertical.len(), 2);
    assert!(edges.vertical.iter().all(|row| row.len() == 4));
}

#[test]
fn a_shared_edge_is_one_side_of_each_neighbour_and_no_other() {
    let mut edges = EdgeGrid::new(2, 2);
    edges.horizontal[1][1] = true;
    assert!(has_edge_on_cell_side(&edges, 0, 1, CellSide::South));
    assert!(has_edge_on_cell_side(&edges, 1, 1, CellSide::North));
    assert!(!has_edge_on_cell_side(&edges, 0, 0, CellSide::South));
    assert!(!has_edge_on_cell_side(&edges, 1, 1, CellSide::West));
}

#[test]
fn side_count_counts_each_walled_side() {
    let mut edges = EdgeGrid::new(1, 1);
    assert_eq!(count_cell_side_edges(&edges, 0, 0), 0);
    edges.horizontal[0][0] = true;
    edges.vertical[0][1] = true;
    assert_eq!(count_cell_side_edges(&edges, 0, 0), 2);
    edges.horizontal[1][0] = true;
    edges.vertical[0][0] = true;
    assert_eq!(count_cell_side_edges(&edges, 0, 0), 4);
}
