use akari::tsp::{euclidean_sq, optimize_route_with_2opt, path_length};

#[test]
fn rotates_small_input_to_nearest_start() {
    let points = vec![(0, 0), (1, 2), (3, 4)];
    let order = optimize_route_with_2opt(&points, 5);
    assert_eq!(order, vec![1, 2, 0]);
}

#[test]
fn starts_at_top_right() {
    let points = vec![(2, 0), (0, 3), (1, 5), (3, 4)];
    let order = optimize_route_with_2opt(&points, 6);
    assert_eq!(order[0], 2);
}

#[test]
fn shortens_crossing_route() {
    let points = vec![(0, 0), (10, 10), (0, 10), (10, 0)];
    let mut baseline = vec![0, 1, 2, 3];
    baseline.rotate_left(2);
    let baseline_len = path_length(&baseline, &points);

    let optimized = optimize_route_with_2opt(&points, 11);
    let optimized_len = path_length(&optimized, &points);

    // The tour should be a permutation of all points.
    let mut sorted = optimized.clone();
    sorted.sort_unstable();
    assert_eq!(sorted, vec![0, 1, 2, 3]);

    assert!(optimized_len < baseline_len);
}

#[test]
fn squared_distance_is_exact() {
    assert_eq!(euclidean_sq((0, 0), (3, 4)), 25);
    assert_eq!(euclidean_sq((3, 4), (0, 0)), 25);
    assert_eq!(euclidean_sq((7, 7), (7, 7)), 0);
    assert_eq!(
        euclidean_sq((0, 0), (0x7FFF_FFFF, 0x7FFF_FFFF)),
        2 * 0x7FFF_FFFFu64 * 0x7FFF_FFFFu64
    );
}

#[test]
fn path_length_sums_the_links() {
    let points = vec![(0, 0), (3, 4), (3, 0)];
    assert_eq!(path_length(&[0, 1, 2], &points), 25 + 16);
    assert_eq!(path_length(&[1], &points), 0);
    assert_eq!(path_length(&[], &points), 0);
}

#[test]
fn short_routes_are_only_rotated() {
    assert_eq!(optimize_route_with_2opt(&[], 3), Vec::<usize>::new());
    assert_eq!(optimize_route_with_2opt(&[(5, 5)], 3), vec![0]);
    assert_eq!(optimize_route_with_2opt(&[(5, 5), (0, 2)], 3), vec![1, 0]);
    // two points equally near: the first one starts
    assert_eq!(optimize_route_with_2opt(&[(1, 2), (0, 1), (0, 3)], 3), vec![0, 1, 2]);
    // width 0 puts the corner at the origin
    assert_eq!(optimize_route_with_2opt(&[(1, 1), (0, 0)], 0), vec![1, 0]);
}

#[test]
fn crossing_route_is_uncrossed() {
    let points = vec![(0, 0), (10, 10), (0, 10), (10, 0)];
    // start at (0, 10); the order 2, 3, 0, 1 crosses and is replaced
    assert_eq!(optimize_route_with_2opt(&points, 11), vec![2, 0, 3, 1]);
}
