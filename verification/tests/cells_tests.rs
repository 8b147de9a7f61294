use spatial_hash::cells::CellPos;
use spatial_hash::geometry::Point;
use spatial_hash::spatial::SpatialHashGrid;

#[test]
fn rectangle_enumeration_is_row_major() {
    let cells = CellPos::new(2, 2).iter_to(CellPos::new(4, 4));
    let expected = vec![
        (2, 2),
        (3, 2),
        (4, 2),
        (2, 3),
        (3, 3),
        (4, 3),
        (2, 4),
        (3, 4),
        (4, 4),
    ];
    let got: Vec<(u32, u32)> = cells.iter().map(|c| (c.col, c.row)).collect();
    assert_eq!(got, expected);
}

#[test]
fn rectangle_enumeration_single_cell() {
    let cells = CellPos::new(7, 3).iter_to(CellPos::new(7, 3));
    assert_eq!(cells.len(), 1);
    assert_eq!(cells[0], CellPos::new(7, 3));
}

#[test]
fn rectangle_enumeration_disordered_is_empty() {
    assert!(CellPos::new(4, 4).iter_to(CellPos::new(2, 6)).is_empty());
    assert!(CellPos::new(4, 4).iter_to(CellPos::new(6, 2)).is_empty());
}

#[test]
fn cell_keys_distinguish_cells() {
    assert_ne!(CellPos::new(1, 0).key(), CellPos::new(0, 1).key());
    assert_eq!(CellPos::new(3, 5).key(), CellPos::new(3, 5).key());
}

#[test]
fn cell_index_formula_and_boundaries() {
    let grid = SpatialHashGrid::new((Point::new(0, 0), Point::new(100, 100)), (10, 10));
    // interior: the normalized coordinate is scaled by nine and floored
    assert_eq!(grid.get_cell_index(Point::new(55, 0)), CellPos::new(4, 0));
    assert_eq!(grid.get_cell_index(Point::new(0, 56)), CellPos::new(0, 5));
    // the bounds themselves map to the first and last cell
    assert_eq!(grid.get_cell_index(Point::new(0, 0)), CellPos::new(0, 0));
    assert_eq!(grid.get_cell_index(Point::new(100, 100)), CellPos::new(9, 9));
    // out-of-range points saturate to the edge cells
    assert_eq!(grid.get_cell_index(Point::new(-1000, 50)), CellPos::new(0, 4));
    assert_eq!(grid.get_cell_index(Point::new(50, 1000)), CellPos::new(4, 9));
}

#[test]
fn uneven_bounds_still_cover_every_point() {
    let grid = SpatialHashGrid::new((Point::new(-30, 10), Point::new(70, 110)), (5, 5));
    assert_eq!(grid.get_cell_index(Point::new(-30, 10)), CellPos::new(0, 0));
    assert_eq!(grid.get_cell_index(Point::new(70, 110)), CellPos::new(4, 4));
    // x = 20 normalizes to one half: times four is exactly two
    assert_eq!(grid.get_cell_index(Point::new(20, 60)), CellPos::new(2, 2));
}
