use std::collections::BTreeSet;

use water_sandbox::blob_detector::BlobDetector;
use water_sandbox::blobs::Blobs;
use water_sandbox::board::Board;
use water_sandbox::point::Point;

fn point_sets(blobs: &Blobs) -> BTreeSet<Vec<(usize, usize)>> {
    blobs
        .values()
        .map(|blob| blob.points().iter().map(|p| (p.y(), p.x())).collect())
        .collect()
}

#[test]
fn detects_blob() {
    const TILES: &str = "############\
                         ####oooooo##\
                         #o####o#oo##\
                         #oo##oo#o###\
                         #oo##oo###o#\
                         #ooooooo#oo#\
                         #o#ooooo#oo#\
                         #oooo#o##oo#\
                         #oooo#o##oo#\
                         #o#o#oo##oo#\
                         ############";
    let board = Board::new_from_str(12, 11, TILES).unwrap();
    let mut detector = BlobDetector::new(&board);
    let blobs = detector.detect_quick();

    let blobs_slow = detector.detect_slow();

    assert_eq!(blobs, blobs_slow);

    assert_eq!(blobs.len(), 2);

    let (_, blob) = blobs.into_iter().next().unwrap();

    let result: Vec<char> = TILES
        .chars()
        .enumerate()
        .map(|(i, _)| {
            let y = i / 12;
            let x = i - y * 12;
            if blob.points().contains(&Point::new(x, y)) {
                'o'
            } else {
                '#'
            }
        })
        .collect();
    let rows: Vec<String> = result.chunks(12).map(|chunk| chunk.iter().collect()).collect();
    assert_eq!(rows[1], "####oooooo##");
    assert_eq!(rows[2], "#o####o#oo##");
    assert_eq!(rows[4], "#oo##oo#####");
    assert_eq!(rows[5], "#ooooooo####");
    assert_eq!(rows[9], "#o#o#oo#####");
}

#[test]
fn two_squares_apart_make_two_blobs() {
    let board = Board::new_from_str(
        7,
        4,
        "#######\
         #oo#oo#\
         #oo#oo#\
         #######",
    )
    .unwrap();
    let mut detector = BlobDetector::new(&board);
    let blobs = detector.detect_quick();
    assert_eq!(blobs.len(), 2);
    assert_eq!(blobs[&0].points().len(), 4);
    assert_eq!(blobs[&1].points().len(), 4);
    assert_eq!(point_sets(&blobs), point_sets(&detector.detect_slow()));
}

fn detect(board: &Board) -> Blobs {
    let mut detector = BlobDetector::new(board);
    detector.detect_quick()
}

fn board_of(width: usize, height: usize, text: &str) -> Board {
    Board::new_from_str(width, height, text).unwrap()
}

fn water_cells(board: &Board) -> BTreeSet<(usize, usize)> {
    let mut cells = BTreeSet::new();
    for y in 0..board.height() {
        for x in 0..board.width() {
            if board.tiles().at(x, y).is_some_and(|tile| tile.is_water()) {
                cells.insert((y, x));
            }
        }
    }
    cells
}

fn assert_partition(board: &Board, blobs: &Blobs) {
    let mut seen = BTreeSet::new();
    for (index, (handle, blob)) in blobs.iter().enumerate() {
        assert_eq!(*handle, index);
        assert!(!blob.is_empty());
        for p in blob.points() {
            assert!(seen.insert((p.y(), p.x())));
        }
    }
    assert_eq!(seen, water_cells(board));
}

#[test]
fn single_water_cell_is_a_blob_of_one_point() {
    let board = board_of(3, 3, "####o####");
    let blobs = detect(&board);
    assert_eq!(blobs.len(), 1);
    assert_eq!(blobs[&0].points(), &vec![Point::new(1, 1)]);
}

#[test]
fn row_of_water_in_air_is_one_blob() {
    let board = board_of(7, 3, ".......\
                               .ooooo.\
                               .......");
    let blobs = detect(&board);
    assert_eq!(blobs.len(), 1);
    assert_eq!(
        blobs[&0].points(),
        &vec![
            Point::new(1, 1),
            Point::new(2, 1),
            Point::new(3, 1),
            Point::new(4, 1),
            Point::new(5, 1)
        ]
    );
}

#[test]
fn cells_that_touch_at_a_corner_only_are_apart() {
    let board = board_of(4, 4, "....\
                               .o..\
                               ..o.\
                               ....");
    let blobs = detect(&board);
    assert_eq!(blobs.len(), 2);
    assert_eq!(blobs[&0].points(), &vec![Point::new(1, 1)]);
    assert_eq!(blobs[&1].points(), &vec![Point::new(2, 2)]);
}

#[test]
fn cells_that_share_an_edge_are_together() {
    let across = detect(&board_of(4, 3, "....\
                                        .oo.\
                                        ...."));
    assert_eq!(across.len(), 1);
    assert_eq!(across[&0].len(), 2);
    let down = detect(&board_of(3, 4, "....o..o...."));
    assert_eq!(down.len(), 1);
    assert_eq!(down[&0].points(), &vec![Point::new(1, 1), Point::new(1, 2)]);
}

#[test]
fn cells_at_a_corner_are_together_when_joined_the_long_way() {
    let board = board_of(3, 3, ".oo\
                               oo.\
                               ...");
    let blobs = detect(&board);
    assert_eq!(blobs.len(), 1);
    assert!(blobs[&0].contains(&Point::new(1, 0)));
    assert!(blobs[&0].contains(&Point::new(0, 1)));
}

#[test]
fn water_on_the_rim_of_a_board_without_a_border_is_found() {
    let board = board_of(4, 3, "oo.o\
                               ...o\
                               oooo");
    let blobs = detect(&board);
    assert_eq!(blobs.len(), 2);
    assert_eq!(blobs[&0].points(), &vec![Point::new(0, 0), Point::new(1, 0)]);
    assert_eq!(blobs[&1].len(), 6);
    assert_partition(&board, &blobs);
    assert_eq!(point_sets(&blobs), point_sets(&BlobDetector::new(&board).detect_slow()));
}

#[test]
fn board_full_of_water_is_one_blob() {
    let board = board_of(5, 4, "oooooooooooooooooooo");
    let blobs = detect(&board);
    assert_eq!(blobs.len(), 1);
    assert_eq!(blobs[&0].len(), 20);
    assert_eq!(BlobDetector::new(&board).detect_slow(), blobs);
}

#[test]
fn board_without_cells_or_without_water_has_no_blobs() {
    assert!(detect(&Board::new(0, 0, 1)).is_empty());
    assert!(detect(&Board::new(0, 4, 1)).is_empty());
    assert!(detect(&Board::new(4, 0, 1)).is_empty());
    assert!(detect(&Board::new(6, 5, 1)).is_empty());
    assert!(BlobDetector::new(&Board::new(0, 0, 1)).detect_slow().is_empty());
    assert!(BlobDetector::new(&Board::new(6, 5, 1)).detect_slow().is_empty());
}

#[test]
fn blobs_part_the_water_of_the_trial_board() {
    let board = Board::_new_test_1();
    let blobs = detect(&board);
    assert_partition(&board, &blobs);
    assert_eq!(blobs.len(), 3);
    let sizes: Vec<usize> = blobs.values().map(|blob| blob.len()).collect();
    assert_eq!(sizes, vec![11, 4, 34]);
}

#[test]
fn both_detectors_find_the_same_sets() {
    let boards = vec![
        Board::_new_test_1(),
        board_of(6, 5, "o.o.o.\
                       .o.o.o\
                       oooooo\
                       o.#.#o\
                       oo#o#o"),
        board_of(5, 5, "ooooo\
                       o...o\
                       o.o.o\
                       o...o\
                       ooooo"),
        board_of(1, 6, "oo.o#o"),
        board_of(6, 1, "oo.o#o"),
    ];
    for board in &boards {
        let mut detector = BlobDetector::new(board);
        let quick = detector.detect_quick();
        let slow = detector.detect_slow();
        assert_partition(board, &quick);
        assert_partition(board, &slow);
        assert_eq!(point_sets(&quick), point_sets(&slow));
    }
}

#[test]
fn detecting_twice_gives_the_same_blobs() {
    let board = Board::_new_test_1();
    let mut detector = BlobDetector::new(&board);
    let first = detector.detect_quick();
    let second = detector.detect_quick();
    assert_eq!(first, second);
}

#[test]
fn first_water_point_is_found_in_row_major_order_and_marked() {
    let board = board_of(4, 3, "...o\
                               oo..\
                               ...o");
    let mut detector = BlobDetector::new(&board);
    assert_eq!(detector.find_first_water_point(), Some((3, 0)));
    assert_eq!(detector.find_first_water_point(), Some((0, 1)));
    assert_eq!(detector.find_first_water_point(), Some((1, 1)));
    assert_eq!(detector.find_first_water_point(), Some((3, 2)));
    assert_eq!(detector.find_first_water_point(), None);
    assert_eq!(detector.find_first_water_point(), None);
}

#[test]
fn line_is_the_whole_run_through_the_seed() {
    let board = board_of(7, 3, "..o.o.o\
                               .ooooo.\
                               #o...o.");
    let mut detector = BlobDetector::new(&board);
    let line = detector.find_line(3, 1).unwrap();
    assert_eq!(line.start, 1);
    assert_eq!(line.end, 5);
    let touching: Vec<(usize, usize)> = line.touching.iter().copied().collect();
    assert_eq!(touching, vec![(1, 2), (2, 0), (4, 0), (5, 2)]);
    assert!(detector.find_line(0, 1).is_none());
    assert!(detector.find_line(0, 2).is_none());
    assert!(detector.find_line(9, 9).is_none());
}

#[test]
fn line_may_run_from_rim_to_rim() {
    let board = board_of(4, 2, "oooo\
                               o..o");
    let mut detector = BlobDetector::new(&board);
    let line = detector.find_line(2, 0).unwrap();
    assert_eq!((line.start, line.end), (0, 3));
    assert_eq!(line.touching, BTreeSet::from([(0, 1), (3, 1)]));
    let below = detector.find_line(0, 1).unwrap();
    assert_eq!((below.start, below.end), (0, 0));
    assert!(below.touching.is_empty());
}

#[test]
fn touching_cells_are_unmarked_water_above_and_below() {
    let board = board_of(3, 3, ".o.\
                               .o.\
                               .o.");
    let mut detector = BlobDetector::new(&board);
    let mut touching = BTreeSet::new();
    detector.update_touching(1, 1, &mut touching);
    assert_eq!(touching, BTreeSet::from([(1, 0), (1, 2)]));
    detector.update_touching(1, 0, &mut touching);
    assert_eq!(touching, BTreeSet::from([(1, 0), (1, 2)]));
    detector.update_touching(1, 2, &mut touching);
    assert_eq!(touching, BTreeSet::from([(1, 0), (1, 2)]));
    let mut side = BTreeSet::new();
    detector.update_touching(0, 0, &mut side);
    detector.update_touching(2, 2, &mut side);
    assert!(side.is_empty());
}

#[test]
fn flood_from_a_cell_takes_its_whole_component() {
    let board = board_of(5, 3, "oo#oo\
                               .o#o.\
                               oo#..");
    let detector = BlobDetector::new(&board);
    let mut blob = water_sandbox::blobs::Blob::default();
    let mut visited = BTreeSet::new();
    detector._try_insert_blob(1, 1, &mut blob, &mut visited);
    assert_eq!(blob.len(), 5);
    assert_eq!(visited.len(), 5);
    assert!(blob.contains(&Point::new(0, 2)));
    assert!(!blob.contains(&Point::new(3, 0)));
    detector._try_insert_blob(2, 1, &mut blob, &mut visited);
    assert_eq!(blob.len(), 5);
    detector._try_insert_blob(7, 7, &mut blob, &mut visited);
    assert_eq!(blob.len(), 5);
}

#[test]
fn flood_keeps_off_what_was_visited_or_taken() {
    let board = board_of(5, 1, "ooooo");
    let detector = BlobDetector::new(&board);
    let mut blob = water_sandbox::blobs::Blob::default();
    let mut visited = BTreeSet::new();
    visited.insert((2, 0));
    detector._try_insert_blob(0, 0, &mut blob, &mut visited);
    assert_eq!(blob.points(), &vec![Point::new(0, 0), Point::new(1, 0)]);
    assert_eq!(visited.len(), 3);
    detector._try_insert_blob(2, 0, &mut blob, &mut visited);
    assert_eq!(blob.len(), 2);
    let mut taken = water_sandbox::blobs::Blob::new(vec![Point::new(3, 0)]);
    let mut fresh = BTreeSet::new();
    detector._try_insert_blob(4, 0, &mut taken, &mut fresh);
    assert_eq!(taken.points(), &vec![Point::new(3, 0), Point::new(4, 0)]);
    assert_eq!(fresh.len(), 1);
    detector._try_insert_blob(3, 0, &mut taken, &mut fresh);
    assert_eq!(taken.len(), 2);
    assert_eq!(fresh.len(), 1);
}

#[test]
fn detected_cells_are_told_from_the_others() {
    let board = board_of(4, 2, "oo.o\
                               ....");
    let mut detector = BlobDetector::new(&board);
    let blobs = detector.detect_quick();
    assert!(detector.already_detected(0, 0, &blobs));
    assert!(detector.already_detected(1, 0, &blobs));
    assert!(detector.already_detected(3, 0, &blobs));
    assert!(!detector.already_detected(2, 0, &blobs));
    assert!(!detector.already_detected(0, 1, &blobs));
    assert!(!detector.already_detected(0, 0, &Blobs::new()));
}
