use rand::rngs::StdRng;
use rand::SeedableRng;

use water_sandbox::blob_detector::BlobDetector;
use water_sandbox::blobs::{Blob, Blobs};
use water_sandbox::board::Board;
use water_sandbox::engine::Engine;
use water_sandbox::point::Point;

fn board_of(width: usize, height: usize, text: &str) -> Board {
    Board::new_from_str(width, height, text).unwrap()
}

fn detect(board: &Board) -> Blobs {
    let mut detector = BlobDetector::new(board);
    detector.detect_quick()
}

fn engine_on(board: Board, seed: u64) -> Engine {
    let blobs = detect(&board);
    Engine::new(board, blobs, StdRng::seed_from_u64(seed), None)
}

fn text(engine: &Engine) -> String {
    engine.board().tiles().to_text()
}

fn count(text: &str, glyph: char) -> usize {
    text.chars().filter(|c| *c == glyph).count()
}

fn rocks(text: &str) -> Vec<usize> {
    text.char_indices().filter(|(_, c)| *c == '#').map(|(i, _)| i).collect()
}

#[test]
fn droplet_over_air_sinks_one_row() {
    let mut engine = engine_on(
        board_of(
            5,
            5,
            "#####\
             #o..#\
             #...#\
             #...#\
             #####",
        ),
        1,
    );
    engine.tick();
    assert_eq!(
        text(&engine),
        "#####\
         #...#\
         #o..#\
         #...#\
         #####"
    );
    assert_eq!(engine.blobs().len(), 1);
    assert_eq!(engine.blobs()[&0].points(), &vec![Point::new(1, 2)]);
    engine.tick();
    assert_eq!(engine.board().tiles().at(1, 3), Some(&water_sandbox::tiles::Tile::Water));
    assert_eq!(count(&text(&engine), 'o'), 1);
    engine.tick();
    assert_eq!(engine.board().tiles().at(2, 3), Some(&water_sandbox::tiles::Tile::Water));
    assert_eq!(count(&text(&engine), 'o'), 1);
}

#[test]
fn run_of_water_on_rock_spreads_but_does_not_sink() {
    for seed in 0..30 {
        let board = board_of(
            9,
            4,
            "#########\
             #.......#\
             #.ooooo.#\
             #########",
        );
        let blobs = detect(&board);
        assert_eq!(blobs.len(), 1);
        assert_eq!(blobs[&0].len(), 5);
        let mut engine = Engine::new(board, blobs, StdRng::seed_from_u64(seed), None);
        engine.tick();
        let after = text(&engine);
        assert_eq!(&after[0..18], "##########.......#");
        assert_eq!(&after[27..36], "#########");
        assert_eq!(count(&after[18..27], 'o'), 5);
        assert_eq!(count(&after, 'o'), 5);
    }
}

#[test]
fn run_of_water_between_rocks_stays_put() {
    let mut engine = engine_on(
        board_of(
            7,
            3,
            "#######\
             #ooooo#\
             #######",
        ),
        5,
    );
    let before = text(&engine);
    for _ in 0..5 {
        engine.tick();
        assert_eq!(text(&engine), before);
    }
}

#[test]
fn ticks_keep_the_amount_of_water_and_the_rock() {
    let mut engine = engine_on(Board::_new_test_1(), 99);
    let start = text(&engine);
    for _ in 0..200 {
        engine.tick();
        let now = text(&engine);
        assert_eq!(count(&now, 'o'), 49);
        assert_eq!(rocks(&now), rocks(&start));
        assert_eq!(now.len(), 160);
    }
    assert_ne!(text(&engine), start);
}

#[test]
fn blobs_after_a_tick_are_those_of_the_new_board() {
    let mut engine = engine_on(Board::_new_test_1(), 4);
    for _ in 0..20 {
        engine.tick();
        assert_eq!(engine.blobs(), &detect(engine.board()));
    }
}

#[test]
fn ticks_with_one_seed_give_one_course() {
    let mut first = engine_on(Board::_new_test_1(), 2024);
    let mut second = engine_on(Board::_new_test_1(), 2024);
    for _ in 0..100 {
        first.tick();
        second.tick();
        assert_eq!(text(&first), text(&second));
        assert_eq!(first.blobs(), second.blobs());
    }
}

#[test]
fn tick_on_a_board_without_cells_does_nothing() {
    let mut engine = engine_on(Board::new(0, 0, 1), 1);
    assert!(!engine.tick());
    assert!(engine.blobs().is_empty());
    assert_eq!(text(&engine), "");
    let mut flat = engine_on(Board::new(5, 0, 1), 1);
    flat.tick();
    assert!(flat.blobs().is_empty());
}

#[test]
fn water_on_the_rim_of_a_board_without_a_border_stays_inside() {
    let mut engine = engine_on(board_of(3, 2, "ooo\
                                               ..."), 3);
    for _ in 0..10 {
        engine.tick();
        assert_eq!(count(&text(&engine), 'o'), 3);
    }
    assert_eq!(text(&engine), "...ooo");
}

#[test]
fn stale_blobs_move_water_only() {
    let board = board_of(3, 4, "#.#\
                               #o#\
                               #.#\
                               ###");
    let blobs = detect(&board);
    let mut engine = Engine::new(board, blobs, StdRng::seed_from_u64(1), None);
    engine.board_mut().tiles_mut().set_at(1, 1, water_sandbox::tiles::Tile::Rock);
    engine.tick();
    assert_eq!(text(&engine), "#.#####.####");
    assert!(engine.blobs().is_empty());
}

#[test]
fn sample_budget_counts_down_to_the_end() {
    let board = Board::new(3, 3, 1);
    let mut engine = Engine::new(board, Blobs::new(), StdRng::seed_from_u64(1), Some(3));
    assert!(!engine.tick());
    assert!(!engine.tick());
    assert!(engine.tick());
    assert!(engine.tick());
    let mut unsampled =
        Engine::new(Board::new(3, 3, 1), Blobs::new(), StdRng::seed_from_u64(1), None);
    assert!(!unsampled.tick());
    let mut spent =
        Engine::new(Board::new(3, 3, 1), Blobs::new(), StdRng::seed_from_u64(1), Some(0));
    assert!(spent.tick());
    let mut single =
        Engine::new(Board::new(3, 3, 1), Blobs::new(), StdRng::seed_from_u64(1), Some(1));
    assert!(single.tick());
}

#[test]
fn droplet_goes_down_before_it_goes_sideways() {
    let mut board = board_of(3, 3, "...\
                                   .o.\
                                   ...");
    let pt = Point::new(1, 1);
    assert!(!Engine::wants_coin(&board, &pt));
    assert_eq!(Engine::move_point(&mut board, &pt, true), Point::new(1, 2));
    assert_eq!(board.tiles().to_text(), ".......o.");
}

#[test]
fn coin_decides_between_two_open_sides() {
    let start = "...\
                 .o.\
                 ###";
    let pt = Point::new(1, 1);
    let mut left = board_of(3, 3, start);
    assert!(Engine::wants_coin(&left, &pt));
    assert_eq!(Engine::move_point(&mut left, &pt, true), Point::new(0, 1));
    assert_eq!(left.tiles().to_text(), "...o..###");
    let mut right = board_of(3, 3, start);
    assert_eq!(Engine::move_point(&mut right, &pt, false), Point::new(2, 1));
    assert_eq!(right.tiles().to_text(), ".....o###");
}

#[test]
fn droplet_takes_the_one_open_side() {
    let pt = Point::new(1, 0);
    for coin in [true, false] {
        let mut left = board_of(3, 2, ".o####");
        assert!(!Engine::wants_coin(&left, &pt));
        assert_eq!(Engine::move_point(&mut left, &pt, coin), Point::new(0, 0));
        assert_eq!(left.tiles().to_text(), "o.####");
        let mut right = board_of(3, 2, "oo.###");
        assert_eq!(Engine::move_point(&mut right, &pt, coin), Point::new(2, 0));
        assert_eq!(right.tiles().to_text(), "o.o###");
        let mut shut = board_of(3, 2, "oo####");
        assert_eq!(Engine::move_point(&mut shut, &pt, coin), pt);
        assert_eq!(shut.tiles().to_text(), "oo####");
    }
}

#[test]
fn rim_of_the_board_blocks_a_droplet() {
    for coin in [true, false] {
        let mut alone = board_of(1, 1, "o");
        let origin = Point::new(0, 0);
        assert!(!Engine::wants_coin(&alone, &origin));
        assert_eq!(Engine::move_point(&mut alone, &origin, coin), origin);
        assert_eq!(alone.tiles().to_text(), "o");
        let mut row = board_of(2, 1, "o.");
        assert_eq!(Engine::move_point(&mut row, &origin, coin), Point::new(1, 0));
        let mut back = board_of(2, 1, ".o");
        assert_eq!(Engine::move_point(&mut back, &Point::new(1, 0), coin), origin);
    }
}

#[test]
fn what_is_not_water_does_not_move() {
    let mut board = board_of(3, 3, ".#.\
                                   ...\
                                   ...");
    for pt in [Point::new(1, 0), Point::new(0, 0), Point::new(7, 7), Point::new(usize::MAX, 0)] {
        assert!(!Engine::wants_coin(&board, &pt));
        assert_eq!(Engine::move_point(&mut board, &pt, true), pt);
    }
    assert_eq!(board.tiles().to_text(), ".#.......");
}

#[test]
fn buoyancy_chooses_from_the_top_row_and_the_highest_pockets() {
    let board = board_of(
        6,
        5,
        "######\
         #oo..#\
         #o#.o#\
         #oo.o#\
         ######",
    );
    let points = vec![
        Point::new(2, 3),
        Point::new(1, 1),
        Point::new(4, 3),
        Point::new(4, 2),
        Point::new(1, 3),
        Point::new(2, 1),
        Point::new(1, 2),
    ];
    let (tops, pockets) = Engine::buoyancy_candidates(&board, &points);
    assert_eq!(tops, vec![Point::new(1, 1), Point::new(2, 1)]);
    assert_eq!(pockets, vec![Point::new(4, 1)]);
    let lower = vec![Point::new(2, 3), Point::new(1, 1), Point::new(1, 3)];
    let (tops, pockets) = Engine::buoyancy_candidates(&board, &lower);
    assert_eq!(tops, vec![Point::new(1, 1)]);
    assert_eq!(pockets, vec![]);
}

#[test]
fn buoyancy_finds_nothing_for_a_flat_or_empty_blob() {
    let board = board_of(4, 3, "....\
                               .oo.\
                               ####");
    let flat = vec![Point::new(1, 1), Point::new(2, 1)];
    assert_eq!(Engine::buoyancy_candidates(&board, &flat), (flat.clone(), vec![]));
    assert_eq!(Engine::buoyancy_candidates(&board, &vec![]), (vec![], vec![]));
    let top = vec![Point::new(0, 0), Point::new(3, 0)];
    assert_eq!(Engine::buoyancy_candidates(&board, &top), (top.clone(), vec![]));
}

#[test]
fn lifting_swaps_water_into_air_only() {
    let mut board = board_of(3, 2, "o.#\
                                   o.o");
    Engine::lift_droplet(&mut board, &Point::new(0, 0), &Point::new(1, 1));
    assert_eq!(board.tiles().to_text(), "..#ooo");
    Engine::lift_droplet(&mut board, &Point::new(2, 0), &Point::new(0, 0));
    Engine::lift_droplet(&mut board, &Point::new(0, 1), &Point::new(2, 0));
    Engine::lift_droplet(&mut board, &Point::new(0, 1), &Point::new(1, 1));
    Engine::lift_droplet(&mut board, &Point::new(1, 0), &Point::new(0, 0));
    Engine::lift_droplet(&mut board, &Point::new(0, 1), &Point::new(9, 9));
    assert_eq!(board.tiles().to_text(), "..#ooo");
}

#[test]
fn buoyancy_lifts_a_top_droplet_into_a_pocket() {
    let mut board = board_of(
        5,
        4,
        "#####\
         #o..#\
         #oo.#\
         #####",
    );
    let mut rng = StdRng::seed_from_u64(8);
    let points = vec![Point::new(1, 1), Point::new(1, 2), Point::new(2, 2)];
    Engine::apply_buoyancy(&mut board, &mut rng, &points);
    assert_eq!(
        board.tiles().to_text(),
        "#####\
         #.o.#\
         #oo.#\
         #####"
    );
    let unchanged = board.tiles().to_text();
    Engine::apply_buoyancy(&mut board, &mut rng, &vec![Point::new(1, 2), Point::new(2, 2)]);
    assert_eq!(board.tiles().to_text(), unchanged);
}

#[test]
fn blob_moves_bottom_row_first() {
    let mut board = board_of(3, 4, "#o#\
                                   #o#\
                                   #.#\
                                   ###");
    let mut rng = StdRng::seed_from_u64(8);
    let blob = Blob::new(vec![Point::new(1, 0), Point::new(1, 1)]);
    let (landed, sank) = Engine::move_blob(&mut board, &mut rng, &blob);
    assert_eq!(landed, vec![Point::new(1, 2), Point::new(1, 1)]);
    assert!(sank);
    assert_eq!(board.tiles().to_text(), "#.##o##o####");
    let (landed, sank) = Engine::move_blob(&mut board, &mut rng, &blob);
    assert_eq!(landed, vec![Point::new(1, 1)]);
    assert!(!sank);
    assert_eq!(board.tiles().to_text(), "#.##o##o####");
}

#[test]
fn water_settles_at_the_bottom() {
    let mut engine = engine_on(
        board_of(
            5,
            6,
            "#####\
             #ooo#\
             #...#\
             #...#\
             #...#\
             #####",
        ),
        12,
    );
    for _ in 0..10 {
        engine.tick();
    }
    assert_eq!(
        text(&engine),
        "#####\
         #...#\
         #...#\
         #...#\
         #ooo#\
         #####"
    );
}

#[test]
fn engine_shows_what_it_was_given() {
    let board = Board::new(4, 4, 3);
    let mut blobs = Blobs::new();
    blobs.insert(5, Blob::new(vec![Point::new(1, 1)]));
    let mut engine = Engine::new(board, blobs.clone(), StdRng::seed_from_u64(0), None);
    assert_eq!(engine.board().width(), 4);
    assert_eq!(engine.board().pixel_size(), 3);
    assert_eq!(engine.blobs(), &blobs);
    engine.board_mut().swap(0, 0, 1, 1);
    assert_eq!(engine.board().tiles().at(1, 1), Some(&water_sandbox::tiles::Tile::Rock));
}
