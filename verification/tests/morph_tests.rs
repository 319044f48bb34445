use lidar_processing::morph::{convert_to_binary, count_occupied, dilate, erode};

fn blank(rows: usize, cols: usize) -> Vec<Vec<bool>> {
    vec![vec![false; cols]; rows]
}

fn occupied_cells(grid: &Vec<Vec<bool>>) -> Vec<(usize, usize)> {
    let mut cells = Vec::new();
    for (i, row) in grid.iter().enumerate() {
        for (j, &v) in row.iter().enumerate() {
            if v {
                cells.push((i, j));
            }
        }
    }
    cells
}

#[test]
fn dilate_keeps_a_horizontal_line_unchanged() {
    let mut grid = blank(30, 30);
    for x in 10..16 {
        grid[15][x] = true;
    }
    let dilated = dilate(&grid);
    assert_eq!(count_occupied(&dilated), 6);
    assert_eq!(dilated, grid);
}

#[test]
fn dilate_fills_a_horizontal_gap() {
    let mut grid = blank(5, 5);
    grid[2][1] = true;
    grid[2][3] = true;
    assert_eq!(occupied_cells(&dilate(&grid)), vec![(2, 1), (2, 2), (2, 3)]);
}

#[test]
fn dilate_fills_a_vertical_and_a_diagonal_gap() {
    let mut grid = blank(5, 5);
    grid[1][1] = true;
    grid[3][3] = true;
    assert_eq!(occupied_cells(&dilate(&grid)), vec![(1, 1), (2, 2), (3, 3)]);
    let mut grid = blank(5, 5);
    grid[0][4] = true;
    grid[2][4] = true;
    assert_eq!(occupied_cells(&dilate(&grid)), vec![(0, 4), (1, 4), (2, 4)]);
}

#[test]
fn dilate_does_not_fill_from_one_side() {
    let mut grid = blank(4, 4);
    grid[1][1] = true;
    assert_eq!(occupied_cells(&dilate(&grid)), vec![(1, 1)]);
}

#[test]
fn dilate_of_empty_raster_is_empty() {
    let grid = blank(6, 7);
    assert_eq!(dilate(&grid), grid);
    let none: Vec<Vec<bool>> = Vec::new();
    assert_eq!(dilate(&none), none);
}

#[test]
fn erode4_keeps_a_line_of_slope_one_half() {
    let mut grid = blank(20, 20);
    for x in 0..20 {
        grid[x / 2][x] = true;
    }
    let eroded = erode(&grid, 0);
    assert_eq!(count_occupied(&grid), 20);
    assert_eq!(eroded, grid);
}

#[test]
fn erode4_trims_the_ends_around_a_gap() {
    let mut grid = blank(20, 20);
    for x in 5..10 {
        grid[10][x] = true;
    }
    for x in 11..16 {
        grid[10][x] = true;
    }
    let eroded = erode(&grid, 0);
    assert_eq!(
        occupied_cells(&eroded),
        vec![(10, 6), (10, 7), (10, 8), (10, 12), (10, 13), (10, 14)]
    );
}

#[test]
fn erode4_removes_an_isolated_cell() {
    let mut grid = blank(5, 5);
    grid[2][2] = true;
    assert_eq!(count_occupied(&erode(&grid, 0)), 0);
}

#[test]
fn erode4_keeps_a_border_cell_with_one_neighbour() {
    let mut grid = blank(3, 3);
    grid[0][0] = true;
    grid[0][1] = true;
    assert_eq!(occupied_cells(&erode(&grid, 0)), vec![(0, 0), (0, 1)]);
}

#[test]
fn erode_reach_five_keeps_a_long_horizontal_line() {
    let mut grid = blank(30, 30);
    for x in 10..25 {
        grid[15][x] = true;
    }
    let eroded = erode(&grid, 5);
    assert_eq!(count_occupied(&eroded), 15);
    assert_eq!(eroded, grid);
}

#[test]
fn erode_reach_five_keeps_a_short_vertical_line() {
    let mut grid = blank(20, 20);
    for i in 5..13 {
        grid[i][10] = true;
    }
    let eroded = erode(&grid, 5);
    assert_eq!(count_occupied(&eroded), 8);
    assert_eq!(eroded, grid);
}

#[test]
fn erode_reach_five_keeps_a_line_of_slope_one_fifth() {
    let mut grid = blank(50, 50);
    for x in 0..50 {
        grid[10 + x / 5][x] = true;
    }
    let eroded = erode(&grid, 5);
    assert_eq!(count_occupied(&eroded), 50);
}

#[test]
fn erode_reach_five_on_a_diagonal_drops_one_cell() {
    let mut grid = blank(20, 20);
    for i in 0..20 {
        grid[i][i] = true;
    }
    let eroded = erode(&grid, 5);
    assert_eq!(count_occupied(&eroded), 19);
    assert!(!eroded[1][1]);
    assert!(eroded[0][0]);
    assert!(eroded[2][2]);
}

#[test]
fn erode_isolated_cell_depends_on_reach() {
    let mut grid = blank(5, 5);
    grid[2][2] = true;
    assert_eq!(occupied_cells(&erode(&grid, 1)), vec![(2, 2)]);
    assert_eq!(count_occupied(&erode(&grid, 2)), 0);
}

#[test]
fn erosion_never_occupies_and_dilation_never_empties() {
    let mut grid = blank(12, 9);
    let pattern = [(0, 0), (1, 1), (2, 2), (2, 3), (5, 5), (5, 7), (7, 5), (9, 1), (10, 1), (11, 8)];
    for &(i, j) in pattern.iter() {
        grid[i][j] = true;
    }
    for reach in 0..4 {
        let eroded = erode(&grid, reach);
        assert_eq!(eroded.len(), grid.len());
        for i in 0..grid.len() {
            assert_eq!(eroded[i].len(), grid[i].len());
            for j in 0..grid[i].len() {
                assert!(!eroded[i][j] || grid[i][j]);
            }
        }
        assert!(count_occupied(&eroded) <= count_occupied(&grid));
    }
    let dilated = dilate(&grid);
    for i in 0..grid.len() {
        for j in 0..grid[i].len() {
            assert!(!grid[i][j] || dilated[i][j]);
        }
    }
    assert!(count_occupied(&dilated) >= count_occupied(&grid));
    assert!(dilated[5][6]);
    assert!(dilated[6][6]);
}

#[test]
fn erosion_handles_rows_of_different_lengths() {
    let grid = vec![vec![false, false, false], vec![true]];
    assert_eq!(erode(&grid, 0), vec![vec![false, false, false], vec![false]]);
    assert_eq!(dilate(&grid), grid);
}

#[test]
fn binary_raster_marks_nonempty_cells() {
    let cells: Vec<Vec<Vec<u32>>> = vec![vec![vec![1, 2], vec![]], vec![vec![], vec![7]], vec![]];
    let binary = convert_to_binary(&cells);
    assert_eq!(binary, vec![vec![true, false], vec![false, true], vec![]]);
    assert_eq!(count_occupied(&binary), 2);
}
