use floodit::{solve, Grid};
use nalgebra::DMatrix;

#[test]
fn test_simplest_input() {
    let input = "0,1\n1,1";
    let grid = Grid::from_csv(input).unwrap();
    let solution = solve(&grid);
    assert_eq!(solution, vec![1]);
}

#[test]
fn test_medium_input() {
    let input = "2,1,3,0,4\n1,2,2,3,1\n0,3,1,2,4\n4,1,0,3,2\n3,2,4,1,0";
    let grid = Grid::from_csv(input).unwrap();
    let solution = solve(&grid);
    let mut test_grid = grid.clone();
    for &color in &solution {
        test_grid.flood_fill(color);
    }
    assert!(test_grid.is_complete());
    assert!(solution.len() <= 16);
}

#[test]
fn test_sample_input() {
    let input = "1,2,0,0\n0,1,1,0\n2,2,0,1\n0,0,0,1";
    let grid = Grid::from_csv(input).unwrap();
    let solution = solve(&grid);
    assert_eq!(solution, vec![2, 1, 2, 0, 1]);

    let mut test_grid = grid.clone();
    assert!(test_grid.apply_solution(&solution));
}

#[test]
fn test_flood_fill() {
    let mut grid = Grid::new(3, 3, 3);
    let original = DMatrix::from_vec(3, 3, vec![0, 0, 0, 1, 1, 1, 1, 0, 0]);
    for i in 0..3 {
        for j in 0..3 {
            grid.set_cell(i, j, original[(i, j)]);
        }
    }
    grid.flood_fill(2);
    let expected = DMatrix::from_vec(3, 3, vec![2, 2, 2, 1, 1, 1, 1, 0, 0]);

    let data = DMatrix::from_fn(3, 3, |i, j| grid.cell(i, j));
    assert_eq!(data, expected);
}
