use lidar_processing::density::{create_result, PointKey};
use lidar_processing::grid::grid_division;

fn key(id: usize, z: f64) -> PointKey {
    PointKey { id, floor_z: z.floor() as i64, trunc_z: z as i32 }
}

fn ids(cell: &Vec<PointKey>) -> Vec<usize> {
    cell.iter().map(|p| p.id).collect()
}

#[test]
fn points_go_to_their_cells_and_beyond_goes_to_the_last() {
    let grids = grid_division(&vec![(0, 0), (1, 2), (5, 0), (0, 0)], 2, 3);
    assert_eq!(grids.len(), 2);
    assert_eq!(grids[0].len(), 3);
    assert_eq!(grids[0][0], vec![0, 3]);
    assert_eq!(grids[1][2], vec![1]);
    assert_eq!(grids[1][0], vec![2]);
    assert_eq!(grids[0][1], Vec::<usize>::new());
    let total: usize = grids.iter().flatten().map(|c| c.len()).sum();
    assert_eq!(total, 4);
}

#[test]
fn zero_sizes_give_one_cell() {
    let grids = grid_division(&vec![(3, 4), (0, 0)], 0, 0);
    assert_eq!(grids, vec![vec![vec![0, 1]]]);
}

#[test]
fn no_points_no_cells() {
    assert_eq!(grid_division(&vec![], 4, 4), Vec::<Vec<Vec<usize>>>::new());
}

fn sample_cloud() -> Vec<Vec<Vec<PointKey>>> {
    let zs: Vec<Vec<Vec<f64>>> = vec![
        vec![vec![0.5, 0.6, 0.7, 0.8, 0.9, 1.5, 2.5], vec![3.2]],
        vec![vec![10.1, 10.2], vec![-0.5, -1.5, -1.2]],
    ];
    let mut id = 0;
    let mut cloud = Vec::new();
    for row in zs {
        let mut out_row = Vec::new();
        for cell in row {
            let mut out_cell = Vec::new();
            for z in cell {
                out_cell.push(key(id, z));
                id += 1;
            }
            out_row.push(out_cell);
        }
        cloud.push(out_row);
    }
    cloud
}

#[test]
fn crowded_slices_of_kept_cells_are_emptied() {
    let cloud = sample_cloud();
    let result = create_result(&vec![(0, 0), (1, 1)], &cloud, 1);
    assert_eq!(ids(&result[0][0]), vec![5, 6]);
    assert_eq!(ids(&result[0][1]), Vec::<usize>::new());
    assert_eq!(ids(&result[1][0]), Vec::<usize>::new());
    assert_eq!(ids(&result[1][1]), vec![10, 11, 12]);
}

#[test]
fn a_high_threshold_keeps_listed_cells_whole() {
    let cloud = sample_cloud();
    let result = create_result(&vec![(0, 0), (1, 0), (0, 0)], &cloud, 10);
    assert_eq!(ids(&result[0][0]), vec![0, 1, 2, 3, 4, 5, 6]);
    assert_eq!(ids(&result[1][0]), vec![8, 9]);
    assert_eq!(ids(&result[1][1]), Vec::<usize>::new());
}

#[test]
fn without_occupied_slices_cells_are_kept_as_they_are() {
    let cloud = vec![vec![vec![key(0, -0.5)], vec![key(1, -0.25)]]];
    let result = create_result(&vec![(0, 0)], &cloud, 0);
    assert_eq!(ids(&result[0][0]), vec![0]);
    assert_eq!(ids(&result[0][1]), Vec::<usize>::new());
}

#[test]
fn nothing_listed_nothing_kept() {
    let cloud = sample_cloud();
    let result = create_result(&vec![], &cloud, 0);
    assert_eq!(result.len(), 2);
    assert!(result.iter().flatten().all(|c| c.is_empty()));
}
