use spatial_hash::cells::CellPos;
use spatial_hash::geometry::{Dimension, Point, Spatial};
use spatial_hash::spatial::SpatialHashGrid;

fn world() -> SpatialHashGrid {
    SpatialHashGrid::new((Point::new(0, 0), Point::new(100, 100)), (10, 10))
}

fn spatial(x: i64, y: i64, w: i64, h: i64) -> Spatial {
    Spatial {
        coordinates: Point::new(x, y),
        dimension: Dimension { width: w, height: h },
    }
}

fn at(grid: &SpatialHashGrid, col: u32, row: u32) -> Vec<u64> {
    grid.get_entities_at_positions(&vec![CellPos::new(col, row)])
}

fn all_cells(grid: &SpatialHashGrid) -> Vec<Vec<u64>> {
    let mut out = Vec::new();
    for row in 0..10 {
        for col in 0..10 {
            let mut v = at(grid, col, row);
            v.sort();
            out.push(v);
        }
    }
    out
}

#[test]
fn scenario_insert_query_update() {
    let mut grid = world();
    // box spans (4,4)-(6,6): the corner coordinates both normalize below
    // one ninth, so the whole box sits in cell (0,0)
    grid.insert_entity(7, spatial(5, 5, 2, 2));
    assert_eq!(at(&grid, 0, 0), vec![7]);
    assert!(at(&grid, 1, 1).is_empty());
    // move to (95,95): corners (94,94)-(96,96) normalize to 0.94 and 0.96,
    // times nine and rounded down that is index 8 on both axes
    grid.update_entity(7, spatial(95, 95, 2, 2));
    assert!(at(&grid, 0, 0).is_empty());
    assert_eq!(at(&grid, 8, 8), vec![7]);
    assert!(at(&grid, 9, 9).is_empty());
}

#[test]
fn scenario_neighborhood_deduplicates() {
    let mut grid = world();
    // a spans cells (2,2)-(3,3), b sits in cell (3,3) alone; both overlap (3,3)
    grid.insert_entity(1, spatial(38, 38, 10, 10));
    grid.insert_entity(2, spatial(40, 40, 4, 4));
    let region = CellPos::new(2, 2).iter_to(CellPos::new(4, 4));
    assert_eq!(region.len(), 9);
    let mut found = grid.get_entities_at_positions(&region);
    found.sort();
    assert_eq!(found, vec![1, 2]);
}

#[test]
fn boundary_saturation_each_side() {
    let mut grid = world();
    grid.insert_entity(1, spatial(-50, 50, 2, 2));
    assert_eq!(at(&grid, 0, 4), vec![1]);
    grid.insert_entity(2, spatial(150, 50, 2, 2));
    assert_eq!(at(&grid, 9, 4), vec![2]);
    grid.insert_entity(3, spatial(50, -50, 2, 2));
    assert_eq!(at(&grid, 4, 0), vec![3]);
    grid.insert_entity(4, spatial(50, 150, 2, 2));
    assert_eq!(at(&grid, 4, 9), vec![4]);
}

#[test]
fn remove_is_idempotent() {
    let mut grid = world();
    grid.insert_entity(1, spatial(5, 5, 2, 2));
    grid.insert_entity(2, spatial(95, 5, 2, 2));
    grid.remove_entity(1);
    let after_once = all_cells(&grid);
    grid.remove_entity(1);
    let after_twice = all_cells(&grid);
    assert_eq!(after_once, after_twice);
    assert_eq!(at(&grid, 8, 0), vec![2]);
}

#[test]
fn remove_unknown_handle_is_noop() {
    let mut grid = world();
    grid.insert_entity(1, spatial(5, 5, 2, 2));
    let before = all_cells(&grid);
    grid.remove_entity(99);
    assert_eq!(before, all_cells(&grid));
}

#[test]
fn update_equals_direct_insert() {
    let mut updated = world();
    updated.insert_entity(1, spatial(15, 25, 30, 30));
    updated.update_entity(1, spatial(85, 75, 6, 6));
    let mut direct = world();
    direct.insert_entity(1, spatial(85, 75, 6, 6));
    assert_eq!(all_cells(&updated), all_cells(&direct));
}

#[test]
fn update_tracks_moves_across_many_cells() {
    let mut grid = world();
    // spans cells (0,0)-(3,3): sixteen cells
    grid.insert_entity(1, spatial(20, 20, 40, 40));
    assert_eq!(at(&grid, 0, 0), vec![1]);
    assert_eq!(at(&grid, 3, 3), vec![1]);
    grid.update_entity(1, spatial(95, 95, 2, 2));
    for row in 0..10 {
        for col in 0..10 {
            let expect: Vec<u64> = if (col, row) == (8, 8) { vec![1] } else { vec![] };
            assert_eq!(at(&grid, col, row), expect);
        }
    }
}

#[test]
fn reinsert_leaves_stale_memberships() {
    // insert on an already-tracked handle overwrites the reverse map only;
    // the old cells keep the entity, which is exactly why refreshing goes
    // through update_entity
    let mut grid = world();
    grid.insert_entity(1, spatial(5, 5, 2, 2));
    grid.insert_entity(1, spatial(95, 95, 2, 2));
    assert_eq!(at(&grid, 0, 0), vec![1]);
    assert_eq!(at(&grid, 8, 8), vec![1]);
    // removal cleans only the recorded rectangle; the stale cell remains
    grid.remove_entity(1);
    assert_eq!(at(&grid, 0, 0), vec![1]);
    assert!(at(&grid, 8, 8).is_empty());
}

#[test]
fn query_multiple_cells_and_empty_cells() {
    let mut grid = world();
    grid.insert_entity(1, spatial(5, 5, 2, 2));
    let cells = vec![
        CellPos::new(0, 0),
        CellPos::new(5, 5),
        CellPos::new(9, 9),
        CellPos::new(0, 0),
    ];
    assert_eq!(grid.get_entities_at_positions(&cells), vec![1]);
    assert!(grid.get_entities_at_positions(&Vec::new()).is_empty());
}

#[test]
fn degenerate_single_point_box() {
    let mut grid = world();
    grid.insert_entity(1, spatial(55, 55, 0, 0));
    assert_eq!(at(&grid, 4, 4), vec![1]);
    assert!(at(&grid, 5, 5).is_empty());
}

#[test]
fn odd_sizes_round_half_extents_down() {
    let mut grid = world();
    // width 3 gives half extent 1: corners (9,9)-(11,11), cells (0,0) only
    grid.insert_entity(1, spatial(10, 10, 3, 3));
    assert_eq!(at(&grid, 0, 0), vec![1]);
    assert_eq!(at(&grid, 1, 1), vec![]);
}

#[test]
fn membership_matches_corner_rectangles_after_mixed_operations() {
    let mut grid = world();
    grid.insert_entity(1, spatial(5, 5, 2, 2));
    grid.insert_entity(2, spatial(40, 40, 30, 30));
    grid.insert_entity(3, spatial(95, 95, 2, 2));
    grid.update_entity(2, spatial(70, 20, 10, 10));
    grid.remove_entity(3);
    grid.insert_entity(4, spatial(-10, 110, 6, 6));
    grid.update_entity(1, spatial(50, 50, 0, 0));
    grid.remove_entity(99);

    // each tracked handle with its current box; the corner cells are the
    // cells of center minus and plus half the extent
    let live_boxes: Vec<(u64, (i64, i64, i64, i64))> = vec![
        (1, (50, 50, 0, 0)),
        (2, (70, 20, 10, 10)),
        (4, (-10, 110, 6, 6)),
    ];
    let spans: Vec<(u64, CellPos, CellPos)> = live_boxes
        .iter()
        .map(|&(id, (x, y, w, h))| {
            let lo = grid.get_cell_index(Point::new(x - w / 2, y - h / 2));
            let hi = grid.get_cell_index(Point::new(x + w / 2, y + h / 2));
            (id, lo, hi)
        })
        .collect();
    for row in 0..10 {
        for col in 0..10 {
            let mut expected: Vec<u64> = spans
                .iter()
                .filter(|(_, lo, hi)| {
                    lo.col <= col && col <= hi.col && lo.row <= row && row <= hi.row
                })
                .map(|(id, _, _)| *id)
                .collect();
            expected.sort();
            let mut got = at(&grid, col, row);
            got.sort();
            assert_eq!(got, expected, "cell ({col},{row})");
        }
    }
}
