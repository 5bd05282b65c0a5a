use floodit::{solve, write_solution, Grid, MalformedGridError};

#[test]
fn from_csv_reads_rows_and_counts_colors() {
    let grid = Grid::from_csv("1,2,0,0\n0,1,1,0\n2,2,0,1\n0,0,0,1").unwrap();
    assert_eq!(grid.width(), 4);
    assert_eq!(grid.height(), 4);
    assert_eq!(grid.color_count(), 3);
    assert_eq!(grid.cells(), vec![1, 2, 0, 0, 0, 1, 1, 0, 2, 2, 0, 1, 0, 0, 0, 1]);
}

#[test]
fn from_csv_reads_a_grid_that_is_not_square() {
    let grid = Grid::from_csv("7,0,3\n1,1,255").unwrap();
    assert_eq!(grid.width(), 3);
    assert_eq!(grid.height(), 2);
    assert_eq!(grid.color_count(), 256);
    assert_eq!(grid.cells(), vec![7, 0, 3, 1, 1, 255]);
    assert_eq!(grid.cell(1, 2), 255);
}

#[test]
fn from_csv_passes_over_blank_space() {
    let grid = Grid::from_csv("\n  0 , 1\r\n\t1,+1 \n\n").unwrap();
    assert_eq!(grid.width(), 2);
    assert_eq!(grid.height(), 2);
    assert_eq!(grid.color_count(), 2);
    assert_eq!(grid.cells(), vec![0, 1, 1, 1]);
}

#[test]
fn from_csv_takes_leading_zeros() {
    let grid = Grid::from_csv("007,0000,010").unwrap();
    assert_eq!(grid.cells(), vec![7, 0, 10]);
    assert_eq!(grid.color_count(), 11);
}

#[test]
fn from_csv_reads_a_single_cell() {
    let grid = Grid::from_csv("4").unwrap();
    assert_eq!(grid.width(), 1);
    assert_eq!(grid.height(), 1);
    assert_eq!(grid.color_count(), 5);
    assert_eq!(grid.cells(), vec![4]);
}

#[test]
fn from_csv_rejects_what_is_not_a_color() {
    for text in [
        "", " ", "x", "0,x", "0,1\n1,", "0,,1", "0,1\n\n1,1", "256", "0,1000", "-1", "+", "1 2",
        "0;1", "1.0", "0x1", "0,1\n1,1e",
    ] {
        assert_eq!(Grid::from_csv(text).err(), Some(MalformedGridError::BadValue), "{:?}", text);
    }
}

#[test]
fn from_csv_rejects_rows_of_different_lengths() {
    for text in ["0,1\n1", "0\n1,1", "0,1,2\n0,1,2\n0,1", "0,1\n0,1,2\n0,1"] {
        assert_eq!(Grid::from_csv(text).err(), Some(MalformedGridError::RaggedRows), "{:?}", text);
    }
}

#[test]
fn from_csv_reports_a_bad_value_before_ragged_rows() {
    assert_eq!(Grid::from_csv("0,1\n1\nx,1").err(), Some(MalformedGridError::BadValue));
}

#[test]
fn to_csv_writes_rows_with_commas() {
    let grid = Grid::from_csv("1,2,0\n10,100,255").unwrap();
    assert_eq!(grid.to_csv(), "1,2,0\n10,100,255\n");
    assert_eq!(Grid::new(2, 2, 1).to_csv(), "0,0\n0,0\n");
    assert_eq!(Grid::new(1, 1, 1).to_csv(), "0\n");
}

#[test]
fn to_csv_writes_every_color_in_decimal() {
    let mut grid = Grid::new(256, 1, 256);
    let mut expected = String::new();
    for color in 0..256usize {
        grid.set_cell(0, color, color as u8);
        if color > 0 {
            expected.push(',');
        }
        expected.push_str(&format!("{}", color));
    }
    expected.push('\n');
    assert_eq!(grid.to_csv(), expected);
}

#[test]
fn from_csv_reads_back_what_to_csv_wrote() {
    let grid = Grid::from_csv("3,1,4\n1,5,9\n2,6,5").unwrap();
    let again = Grid::from_csv(&grid.to_csv()).unwrap();
    assert_eq!(again.cells(), grid.cells());
    assert_eq!(again.width(), grid.width());
    assert_eq!(again.height(), grid.height());
    assert_eq!(again.color_count(), grid.color_count());
}

#[test]
fn write_solution_puts_one_move_on_each_line() {
    assert_eq!(write_solution(&[2, 1, 2, 0, 1]), "2\n1\n2\n0\n1\n");
    assert_eq!(write_solution(&[]), "");
    assert_eq!(write_solution(&[255, 10, 9, 100, 99]), "255\n10\n9\n100\n99\n");
}

#[test]
fn solved_text_grid_is_written_as_text() {
    let grid = Grid::from_csv("0,1\n1,1").unwrap();
    assert_eq!(write_solution(&solve(&grid)), "1\n");
}
