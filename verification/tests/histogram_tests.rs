use lidar_processing::histogram::{bin_counts, dense_clusters};

#[test]
fn depths_beyond_the_last_bin_count_in_it() {
    assert_eq!(bin_counts(&vec![0, 0, 1, 5, 9], 3), vec![2, 1, 2]);
    assert_eq!(bin_counts(&vec![], 2), vec![0, 0]);
}

#[test]
fn bins_add_up_to_the_points() {
    let depths = vec![4, 1, 1, 0, 3, 3, 3, 12];
    let bins = bin_counts(&depths, 5);
    assert_eq!(bins, vec![1, 2, 0, 3, 2]);
    assert_eq!(bins.iter().sum::<usize>(), depths.len());
}

#[test]
fn only_short_runs_above_a_wide_gap_are_clusters() {
    let bins = vec![0, 5, 6, 0, 0, 3, 0, 7, 7, 7, 7, 7, 0, 0, 0, 4];
    assert_eq!(dense_clusters(&bins, 0, 2, 4), vec![(1, 2)]);
}

#[test]
fn bins_at_the_density_floor_count_as_empty() {
    assert_eq!(dense_clusters(&vec![3, 3, 0, 0, 0, 5, 0], 2, 2, 4), vec![(0, 1)]);
}

#[test]
fn a_run_that_reaches_the_bottom_has_no_gap() {
    assert_eq!(dense_clusters(&vec![1, 2, 3], 0, 0, 4), vec![(0, 2)]);
    assert_eq!(dense_clusters(&vec![1, 2, 3], 0, 1, 4), vec![]);
}

#[test]
fn a_continuous_pylon_is_not_a_cluster() {
    let bins = vec![5; 20];
    assert_eq!(dense_clusters(&bins, 2, 2, 4), vec![]);
}

#[test]
fn no_bins_no_clusters() {
    assert_eq!(dense_clusters(&vec![], 0, 2, 4), vec![]);
}
