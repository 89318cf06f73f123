use water_sandbox::blobs::Blob;
use water_sandbox::point::Point;

#[test]
fn blob_keeps_each_point_once_in_row_major_order() {
    let blob = Blob::new(vec![
        Point::new(3, 4),
        Point::new(1, 2),
        Point::new(3, 4),
        Point::new(0, 4),
        Point::new(9, 0),
        Point::new(1, 2),
    ]);
    assert_eq!(
        blob.points(),
        &vec![Point::new(9, 0), Point::new(1, 2), Point::new(0, 4), Point::new(3, 4)]
    );
    assert_eq!(blob.len(), 4);
    assert!(!blob.is_empty());
}

#[test]
fn empty_blob_is_empty() {
    let blob = Blob::default();
    assert!(blob.is_empty());
    assert_eq!(blob.len(), 0);
    assert!(!blob.contains(&Point::new(0, 0)));
    assert_eq!(Blob::new(vec![]), blob);
}

#[test]
fn insert_says_whether_the_point_was_new() {
    let mut blob = Blob::default();
    assert!(blob.insert(Point::new(2, 2)));
    assert!(blob.insert(Point::new(1, 2)));
    assert!(!blob.insert(Point::new(2, 2)));
    assert!(blob.insert(Point::new(7, 1)));
    assert_eq!(blob.points(), &vec![Point::new(7, 1), Point::new(1, 2), Point::new(2, 2)]);
}

#[test]
fn contains_finds_members_only() {
    let members: Vec<Point> =
        (0..40).filter(|i| i % 3 != 0).map(|i| Point::new(i % 7, i / 7)).collect();
    let blob = Blob::new(members.clone());
    for i in 0..40 {
        let p = Point::new(i % 7, i / 7);
        assert_eq!(blob.contains(&p), members.contains(&p));
    }
    assert!(!blob.contains(&Point::new(100, 100)));
}

#[test]
fn extend_span_adds_a_run_of_one_row() {
    let mut blob = Blob::new(vec![Point::new(4, 1), Point::new(0, 3)]);
    blob.extend_span(2, 3, 5);
    assert_eq!(
        blob.points(),
        &vec![
            Point::new(4, 1),
            Point::new(3, 2),
            Point::new(4, 2),
            Point::new(5, 2),
            Point::new(0, 3)
        ]
    );
    blob.extend_span(2, 5, 6);
    assert_eq!(blob.len(), 6);
    blob.extend_span(2, 6, 5);
    assert_eq!(blob.len(), 6);
    blob.extend_span(0, usize::MAX, usize::MAX);
    assert_eq!(blob.points()[0], Point::new(usize::MAX, 0));
}

#[test]
fn points_can_be_edited_in_place() {
    let mut blob = Blob::new(vec![Point::new(1, 1)]);
    blob.points_mut().push(Point::new(2, 1));
    assert_eq!(blob.points(), &vec![Point::new(1, 1), Point::new(2, 1)]);
    assert!(blob.contains(&Point::new(2, 1)));
}
