use rand::rngs::StdRng;
use rand::SeedableRng;

use water_sandbox::blobs::Blob;
use water_sandbox::point::Point;

fn walk(blob: &Blob, rng: &mut StdRng) -> Vec<Point> {
    let mut walk = blob.into_iter();
    let mut seen = Vec::new();
    while let Some(point) = walk.next(rng) {
        seen.push(point);
    }
    seen
}

#[test]
fn should_correctly_iter_points() {
    // The walk is random within a row, so it may by chance come out in
    // sorted order. That is acceptable, as long as a few more walks show
    // that the order within a row does vary.
    const ALLOWED_FALSE_POSITIVES: usize = 10;

    // Points come row by row from the lowest row, but within a row they
    // shall not always come in the same order, so that water shows no
    // bias towards one side.
    let not_expected = vec![
        Point::new(4, 4),
        Point::new(3, 4),
        Point::new(3, 3),
        Point::new(3, 2),
        Point::new(2, 2),
        Point::new(1, 2),
    ];

    let mut rng = StdRng::seed_from_u64(7);
    for _ in 0..ALLOWED_FALSE_POSITIVES {
        let blob = Blob::new(vec![
            Point::new(3, 4),
            Point::new(4, 4),
            Point::new(1, 2),
            Point::new(3, 2),
            Point::new(2, 2),
            Point::new(3, 3),
        ]);

        let actual = walk(&blob, &mut rng);
        if actual != not_expected {
            return;
        }
    }

    assert!(false);
}

#[test]
fn walk_goes_bottom_row_first_and_yields_each_point_once() {
    let points = vec![
        Point::new(3, 4),
        Point::new(4, 4),
        Point::new(1, 2),
        Point::new(3, 2),
        Point::new(2, 2),
        Point::new(3, 3),
    ];
    for seed in 0..20 {
        let mut rng = StdRng::seed_from_u64(seed);
        let blob = Blob::new(points.clone());
        let seen = walk(&blob, &mut rng);
        assert_eq!(seen.len(), 6);
        let rows: Vec<usize> = seen.iter().map(|p| p.y()).collect();
        assert_eq!(rows, vec![4, 4, 3, 2, 2, 2]);
        for point in &points {
            assert_eq!(seen.iter().filter(|p| *p == point).count(), 1);
        }
    }
}

#[test]
fn walk_over_an_empty_blob_ends_at_once() {
    let mut rng = StdRng::seed_from_u64(1);
    let blob = Blob::default();
    assert_eq!(walk(&blob, &mut rng), vec![]);
}

#[test]
fn points_can_be_taken_from_the_bottom_row_by_place() {
    let blob = Blob::new(vec![
        Point::new(3, 4),
        Point::new(4, 4),
        Point::new(1, 2),
        Point::new(9, 4),
    ]);
    let mut walk = blob.into_iter();
    assert_eq!(walk.take_from_bottom_row(1), Point::new(4, 4));
    assert_eq!(walk.take_from_bottom_row(1), Point::new(9, 4));
    assert_eq!(walk.take_from_bottom_row(0), Point::new(3, 4));
    assert_eq!(walk.take_from_bottom_row(0), Point::new(1, 2));
    let mut rng = StdRng::seed_from_u64(3);
    assert_eq!(walk.next(&mut rng), None);
}

#[test]
fn every_order_within_a_row_turns_up() {
    let mut seen = std::collections::BTreeSet::new();
    let mut rng = StdRng::seed_from_u64(11);
    for _ in 0..200 {
        let blob = Blob::new(vec![Point::new(1, 5), Point::new(2, 5), Point::new(3, 5)]);
        let order: Vec<usize> = walk(&blob, &mut rng).iter().map(|p| p.x()).collect();
        seen.insert(order);
    }
    assert_eq!(seen.len(), 6);
}
