use floodit::{Grid, VisitedSet};

fn grid_of(rows: &[&[u8]], colors: usize) -> Grid {
    let mut grid = Grid::new(rows[0].len(), rows.len(), colors);
    for (r, row) in rows.iter().enumerate() {
        for (c, color) in row.iter().enumerate() {
            grid.set_cell(r, c, *color);
        }
    }
    grid
}

#[test]
fn new_grid_has_shape_and_zero_cells() {
    let grid = Grid::new(4, 2, 5);
    assert_eq!(grid.width(), 4);
    assert_eq!(grid.height(), 2);
    assert_eq!(grid.color_count(), 5);
    assert_eq!(grid.cells(), vec![0; 8]);
    assert!(grid.is_complete());
}

#[test]
fn set_cell_changes_one_cell() {
    let mut grid = Grid::new(3, 2, 4);
    grid.set_cell(1, 2, 3);
    assert_eq!(grid.cell(1, 2), 3);
    assert_eq!(grid.cells(), vec![0, 0, 0, 0, 0, 3]);
    grid.set_cell(0, 1, 2);
    assert_eq!(grid.cells(), vec![0, 2, 0, 0, 0, 3]);
    assert_eq!(grid.cell(0, 1), 2);
    assert_eq!(grid.cell(0, 0), 0);
}

#[test]
fn cells_are_row_major() {
    let grid = grid_of(&[&[0, 1, 2], &[3, 4, 5]], 6);
    assert_eq!(grid.cells(), vec![0, 1, 2, 3, 4, 5]);
    assert_eq!(grid.cell(1, 0), 3);
    assert_eq!(grid.cell(0, 2), 2);
}

#[test]
fn clone_is_equal_and_independent() {
    let grid = grid_of(&[&[0, 1], &[1, 2]], 3);
    let mut copy = grid.clone();
    assert_eq!(copy.cells(), grid.cells());
    assert_eq!(copy.width(), 2);
    assert_eq!(copy.height(), 2);
    assert_eq!(copy.color_count(), 3);
    copy.flood_fill(1);
    assert_eq!(copy.cells(), vec![1, 1, 1, 2]);
    assert_eq!(grid.cells(), vec![0, 1, 1, 2]);
}

#[test]
fn flood_fill_converts_only_the_connected_region() {
    let mut grid = grid_of(&[&[0, 0, 0], &[1, 1, 1], &[1, 0, 0]], 3);
    grid.flood_fill(2);
    assert_eq!(grid.cells(), vec![2, 2, 2, 1, 1, 1, 1, 0, 0]);
}

#[test]
fn flood_fill_absorbs_cells_of_the_new_color_only_on_the_next_move() {
    let mut grid = grid_of(&[&[0, 1, 0], &[0, 1, 1], &[2, 0, 1]], 3);
    grid.flood_fill(1);
    assert_eq!(grid.cells(), vec![1, 1, 0, 1, 1, 1, 2, 0, 1]);
    grid.flood_fill(0);
    assert_eq!(grid.cells(), vec![0, 0, 0, 0, 0, 0, 2, 0, 0]);
}

#[test]
fn flood_fill_follows_a_winding_region() {
    let mut grid = grid_of(
        &[&[0, 1, 0, 0, 0], &[0, 1, 0, 1, 0], &[0, 1, 0, 1, 0], &[0, 0, 0, 1, 0]],
        3,
    );
    grid.flood_fill(2);
    assert_eq!(
        grid.cells(),
        vec![2, 1, 2, 2, 2, 2, 1, 2, 1, 2, 2, 1, 2, 1, 2, 2, 2, 2, 1, 2]
    );
}

#[test]
fn flood_fill_with_the_origin_color_changes_nothing() {
    let shapes: [&[&[u8]]; 4] = [
        &[&[0]],
        &[&[1, 1], &[0, 1]],
        &[&[2, 0, 2], &[2, 2, 1]],
        &[&[0, 1, 0, 0, 0], &[0, 1, 0, 1, 0], &[0, 1, 0, 1, 0], &[0, 0, 0, 1, 0]],
    ];
    for rows in shapes {
        let mut grid = grid_of(rows, 3);
        let before = grid.cells();
        grid.flood_fill(before[0]);
        assert_eq!(grid.cells(), before);
    }
}

#[test]
fn is_complete_looks_at_every_cell() {
    assert!(grid_of(&[&[2, 2], &[2, 2]], 3).is_complete());
    assert!(!grid_of(&[&[2, 2], &[2, 1]], 3).is_complete());
    assert!(!grid_of(&[&[0, 1, 0]], 2).is_complete());
    assert!(grid_of(&[&[1]], 2).is_complete());
}

#[test]
fn apply_solution_plays_moves_in_order() {
    let mut grid = grid_of(&[&[0, 1, 2]], 3);
    assert!(!grid.apply_solution(&[1]));
    assert_eq!(grid.cells(), vec![1, 1, 2]);
    assert!(grid.apply_solution(&[2]));
    assert_eq!(grid.cells(), vec![2, 2, 2]);
    let mut other = grid_of(&[&[0, 1, 2]], 3);
    assert!(!other.apply_solution(&[2, 1]));
    assert_eq!(other.cells(), vec![1, 1, 2]);
    assert!(!other.apply_solution(&[]));
}

#[test]
fn state_key_depends_on_cells_alone() {
    let mut left = grid_of(&[&[0, 1], &[1, 1]], 3);
    let mut right = grid_of(&[&[2, 1], &[1, 1]], 3);
    assert_ne!(left.state_key(), right.state_key());
    left.flood_fill(1);
    right.flood_fill(1);
    assert_eq!(left.cells(), right.cells());
    assert_eq!(left.state_key(), right.state_key());
    let wider = grid_of(&[&[1, 1], &[1, 1]], 9);
    assert_eq!(left.state_key(), wider.state_key());
}

#[test]
fn state_key_follows_its_formula() {
    assert_eq!(grid_of(&[&[0]], 1).state_key(), 1);
    assert_eq!(grid_of(&[&[4]], 5).state_key(), 5);
    assert_eq!(grid_of(&[&[0, 1]], 2).state_key(), 33);
    assert_eq!(grid_of(&[&[0], &[1]], 2).state_key(), 33);
    assert_eq!(grid_of(&[&[2, 0], &[1, 3]], 4).state_key(), 3 * 29791 + 961 + 2 * 31 + 4);
}

#[test]
fn visited_set_tells_new_states_from_seen_ones() {
    let mut visited = VisitedSet::new(2, 2);
    let first = grid_of(&[&[0, 1], &[1, 1]], 2);
    let second = grid_of(&[&[1, 1], &[1, 1]], 2);
    assert!(visited.insert(&first));
    assert!(!visited.insert(&first));
    assert!(visited.insert(&second));
    assert!(!visited.insert(&first.clone()));
    let mut reached = first.clone();
    reached.flood_fill(1);
    assert!(!visited.insert(&reached));
}

#[test]
fn visited_set_keeps_many_states_apart() {
    let mut visited = VisitedSet::new(3, 1);
    for a in 0..6u8 {
        for b in 0..6u8 {
            for c in 0..6u8 {
                assert!(visited.insert(&grid_of(&[&[a, b, c]], 6)));
            }
        }
    }
    for a in 0..6u8 {
        for b in 0..6u8 {
            for c in 0..6u8 {
                assert!(!visited.insert(&grid_of(&[&[a, b, c]], 6)));
            }
        }
    }
}
