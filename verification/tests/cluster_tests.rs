use lidar_processing::pca::connected_clusters;
use lidar_processing::semantics::remove_inliers;

#[test]
fn chains_of_neighbours_form_one_cluster() {
    // 0-1-2 chained, 3 alone, 4-5 pair; lists include the point itself.
    let neighbours = vec![
        vec![0, 1],
        vec![1, 0, 2],
        vec![2, 1],
        vec![3],
        vec![4, 5],
        vec![5, 4],
    ];
    let clusters = connected_clusters(&neighbours);
    assert_eq!(clusters, vec![vec![0, 1, 2], vec![3], vec![4, 5]]);
}

#[test]
fn clusters_follow_the_depth_first_order() {
    let neighbours = vec![vec![0, 1, 2], vec![1, 0, 3], vec![2, 0], vec![3, 1]];
    let clusters = connected_clusters(&neighbours);
    assert_eq!(clusters, vec![vec![0, 2, 1, 3]]);
}

#[test]
fn no_points_no_clusters() {
    assert_eq!(connected_clusters(&vec![]), Vec::<Vec<usize>>::new());
}

#[test]
fn every_point_in_exactly_one_cluster() {
    let neighbours = vec![vec![6], vec![], vec![4], vec![5], vec![2], vec![3], vec![0]];
    let clusters = connected_clusters(&neighbours);
    assert_eq!(clusters, vec![vec![0, 6], vec![1], vec![2, 4], vec![3, 5]]);
    let mut all: Vec<usize> = clusters.into_iter().flatten().collect();
    all.sort();
    assert_eq!(all, vec![0, 1, 2, 3, 4, 5, 6]);
}

#[test]
fn inliers_are_swap_removed_from_the_last() {
    let mut points = vec!['a', 'b', 'c', 'd', 'e'];
    remove_inliers(&mut points, &vec![1, 3]);
    assert_eq!(points, vec!['a', 'e', 'c']);
}

#[test]
fn removing_every_point_leaves_none() {
    let mut points = vec![1, 2, 3];
    remove_inliers(&mut points, &vec![0, 1, 2]);
    assert!(points.is_empty());
    let mut points = vec![1, 2, 3];
    remove_inliers(&mut points, &vec![]);
    assert_eq!(points, vec![1, 2, 3]);
}
