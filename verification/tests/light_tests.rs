use voxel_raymarcher::light::points_in_sphere;

#[test]
fn radius_zero_is_the_centre() {
    assert_eq!(points_in_sphere(0, (5, 6, 7)), vec![(5, 6, 7)]);
}

#[test]
fn radius_one_is_the_centre_and_its_neighbours() {
    let p = points_in_sphere(1, (0, 0, 0));
    assert_eq!(
        p,
        vec![(-1, 0, 0), (0, -1, 0), (0, 0, -1), (0, 0, 0), (0, 0, 1), (0, 1, 0), (1, 0, 0)]
    );
}

#[test]
fn radius_two_counts_33_points() {
    let p = points_in_sphere(2, (10, -10, 3));
    assert_eq!(p.len(), 33);
    assert_eq!(p[0], (8, -10, 3));
    assert_eq!(p[32], (12, -10, 3));
    for w in p.windows(2) {
        assert!(w[0] < w[1]);
    }
}

#[test]
fn negative_radius_is_empty() {
    assert!(points_in_sphere(-3, (0, 0, 0)).is_empty());
}

#[test]
fn translation_shifts_every_point() {
    let a = points_in_sphere(3, (0, 0, 0));
    let b = points_in_sphere(3, (100, 200, -300));
    assert_eq!(a.len(), b.len());
    for (p, q) in a.iter().zip(b.iter()) {
        assert_eq!((p.0 + 100, p.1 + 200, p.2 - 300), *q);
    }
}
