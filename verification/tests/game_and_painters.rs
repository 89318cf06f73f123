use rand::rngs::StdRng;
use rand::SeedableRng;

use water_sandbox::blob_detector::BlobDetector;
use water_sandbox::blobs::{Blob, Blobs};
use water_sandbox::board::Board;
use water_sandbox::console_painter::{ConsolePainter, Glyph, HasBlobs, HasBoard};
use water_sandbox::engine::Engine;
use water_sandbox::game::{Game, GameConfig, KeyCode, MouseButton, Renderer};
use water_sandbox::ggez_painter::{CellColor, Error, GgezPainter, Rectangle};
use water_sandbox::point::Point;
use water_sandbox::tiles::{Tile, TileUpdateOperation};

fn game_on(board: Board) -> Game {
    let blobs = {
        let mut detector = BlobDetector::new(&board);
        detector.detect_quick()
    };
    Game::new(Engine::new(board, blobs, StdRng::seed_from_u64(1), None), GameConfig::default())
}

fn tile(game: &Game, x: usize, y: usize) -> Option<Tile> {
    game.engine().board().tiles().at(x, y).copied()
}

fn count(game: &Game, glyph: char) -> usize {
    game.engine().board().tiles().to_text().chars().filter(|c| *c == glyph).count()
}

#[test]
fn renderer_starts_with_rock_and_no_button_down() {
    let renderer = Renderer::default();
    assert_eq!(renderer.pixel_size, 4);
    assert!(!renderer.left_button_down);
    assert!(!renderer.right_button_down);
    assert!(!renderer.middle_button_down);
    assert_eq!(renderer.tile_to_draw, Tile::Rock);
}

#[test]
fn window_is_as_large_as_the_board_in_pixels() {
    let game = game_on(Board::new(20, 30, 4));
    assert_eq!(game.windows_size(), (80, 120));
    assert_eq!(game.renderer().pixel_size, 4);
    assert!(!game.config().console_preview);
    assert!(!GameConfig::default()._perf_tick);
    assert!(!GameConfig::default()._perf_blob_detect);
}

#[test]
fn outermost_ring_is_out_of_bounds() {
    assert!(Game::within_bounds(4, 4, 10, 10, 4));
    assert!(Game::within_bounds(35, 35, 10, 10, 4));
    assert!(!Game::within_bounds(3, 4, 10, 10, 4));
    assert!(!Game::within_bounds(4, 3, 10, 10, 4));
    assert!(!Game::within_bounds(36, 4, 10, 10, 4));
    assert!(!Game::within_bounds(4, 39, 10, 10, 4));
    assert!(Game::within_bounds(40, 40, 10, 10, 4));
    assert!(Game::within_bounds(4, 4, 0, 0, 4));
}

#[test]
fn brush_paints_the_cells_it_touches() {
    let mut game = game_on(Board::new(20, 20, 1));
    game.update_tile(40, 40, &TileUpdateOperation::Paint(Tile::Water));
    for y in 0..20 {
        for x in 0..20 {
            let border = x == 0 || y == 0 || x == 19 || y == 19;
            let touched = (7..=12).contains(&x) && (7..=12).contains(&y);
            let expected = if border {
                Tile::Rock
            } else if touched {
                Tile::Water
            } else {
                Tile::Air
            };
            assert_eq!(tile(&game, x, y), Some(expected));
        }
    }
}

#[test]
fn brush_near_the_corner_leaves_the_ring_alone() {
    let mut game = game_on(Board::new(20, 20, 1));
    game.update_tile(0, 3, &TileUpdateOperation::Purge);
    assert_eq!(count(&game, '#'), 76);
    game.update_tile(0, 3, &TileUpdateOperation::Paint(Tile::Rock));
    assert_eq!(count(&game, '#'), 76 + 6);
    assert_eq!(tile(&game, 1, 1), Some(Tile::Rock));
    assert_eq!(tile(&game, 2, 2), Some(Tile::Rock));
    assert_eq!(tile(&game, 3, 1), Some(Tile::Air));
    assert_eq!(tile(&game, 1, 3), Some(Tile::Rock));
    assert_eq!(tile(&game, 1, 4), Some(Tile::Air));
    game.update_tile(usize::MAX, usize::MAX, &TileUpdateOperation::Purge);
    assert_eq!(count(&game, '#'), 82);
}

#[test]
fn tools_obey_their_rules() {
    let mut game = game_on(Board::new(12, 12, 1));
    game.draw_tile(20, 20);
    let rock = count(&game, '#');
    assert_eq!(rock, 44 + 36);
    game.key_up_event(Some(KeyCode::Key2));
    game.draw_tile(20, 20);
    assert_eq!(count(&game, '#'), rock);
    assert_eq!(count(&game, 'o'), 0);
    game.erase_tile(20, 20);
    assert_eq!(count(&game, '#'), 44);
    game.draw_tile(20, 20);
    assert_eq!(count(&game, 'o'), 36);
    game.erase_tile(20, 20);
    assert_eq!(count(&game, 'o'), 36);
    game.key_up_event(Some(KeyCode::Key1));
    game.draw_tile(24, 20);
    assert_eq!(count(&game, 'o'), 6);
    assert_eq!(count(&game, '#'), 44 + 36);
    game.purge_tile(22, 20);
    assert_eq!(count(&game, 'o'), 6);
    assert_eq!(count(&game, '#'), 44 + 6);
    game.purge_tile(20, 20);
    assert_eq!(count(&game, 'o'), 0);
}

#[test]
fn keys_choose_the_tile_to_draw() {
    let mut game = game_on(Board::new(4, 4, 1));
    assert_eq!(game.renderer().tile_to_draw, Tile::Rock);
    game.key_up_event(Some(KeyCode::Key2));
    assert_eq!(game.renderer().tile_to_draw, Tile::Water);
    game.key_up_event(Some(KeyCode::Other));
    game.key_up_event(None);
    assert_eq!(game.renderer().tile_to_draw, Tile::Water);
    game.key_up_event(Some(KeyCode::Key1));
    assert_eq!(game.renderer().tile_to_draw, Tile::Rock);
}

#[test]
fn buttons_take_up_and_put_down_their_tools() {
    let mut game = game_on(Board::new(12, 12, 1));
    game.mouse_button_down_event(MouseButton::Left, 20, 20);
    assert!(game.renderer().left_button_down);
    assert_eq!(count(&game, '#'), 44 + 36);
    game.mouse_button_down_event(MouseButton::Right, 20, 20);
    assert!(game.renderer().right_button_down);
    assert_eq!(count(&game, '#'), 44);
    game.mouse_motion_event(20, 20);
    assert_eq!(count(&game, '#'), 44);
    game.mouse_button_up_event(MouseButton::Right);
    assert!(!game.renderer().right_button_down);
    assert!(game.renderer().left_button_down);
    game.mouse_motion_event(20, 20);
    assert_eq!(count(&game, '#'), 44 + 36);
    game.mouse_button_up_event(MouseButton::Left);
    game.mouse_button_down_event(MouseButton::Middle, 20, 20);
    assert!(game.renderer().middle_button_down);
    assert_eq!(count(&game, '#'), 44);
    game.mouse_button_down_event(MouseButton::Other, 20, 20);
    game.mouse_button_up_event(MouseButton::Other);
    assert!(game.renderer().middle_button_down);
    game.mouse_button_up_event(MouseButton::Middle);
    assert!(!game.renderer().middle_button_down);
    game.mouse_motion_event(20, 20);
    assert_eq!(count(&game, '#'), 44);
}

#[test]
fn moving_mouse_erases_and_purges_with_the_button_held() {
    let mut game = game_on(Board::new(12, 12, 1));
    game.draw_tile(20, 20);
    game.mouse_button_down_event(MouseButton::Right, 100, 100);
    game.mouse_motion_event(20, 20);
    assert_eq!(count(&game, '#'), 44);
    game.mouse_button_up_event(MouseButton::Right);
    game.draw_tile(20, 20);
    game.mouse_button_down_event(MouseButton::Middle, 100, 100);
    game.mouse_motion_event(20, 20);
    assert_eq!(count(&game, '#'), 44);
}

#[test]
fn update_advances_the_simulation() {
    let mut game = game_on(Board::new(5, 5, 1));
    game.key_up_event(Some(KeyCode::Key2));
    game.draw_tile(0, 0);
    assert_eq!(tile(&game, 1, 1), Some(Tile::Water));
    assert_eq!(count(&game, 'o'), 4);
    assert!(!game.update());
    assert_eq!(count(&game, 'o'), 4);
    assert_eq!(game.engine().blobs().len(), 1);
    let mut ending = Game::new(
        Engine::new(Board::new(3, 3, 1), Blobs::new(), StdRng::seed_from_u64(1), Some(1)),
        GameConfig::default(),
    );
    assert!(ending.update());
}

#[test]
fn painter_finds_the_blob_of_a_cell() {
    let mut blobs = Blobs::new();
    blobs.insert(2, Blob::new(vec![Point::new(1, 1), Point::new(2, 1)]));
    blobs.insert(7, Blob::new(vec![Point::new(2, 1), Point::new(5, 5)]));
    assert_eq!(ConsolePainter::blob_index_from_point(1, 1, &blobs), Some(2));
    assert_eq!(ConsolePainter::blob_index_from_point(2, 1, &blobs), Some(2));
    assert_eq!(ConsolePainter::blob_index_from_point(5, 5, &blobs), Some(7));
    assert_eq!(ConsolePainter::blob_index_from_point(1, 2, &blobs), None);
    assert_eq!(ConsolePainter::blob_index_from_point(0, 0, &Blobs::new()), None);
}

#[test]
fn painter_shows_the_blob_or_else_the_tile() {
    let board = Board::new_from_str(4, 1, "#o.o").unwrap();
    let mut blobs = Blobs::new();
    blobs.insert(3, Blob::new(vec![Point::new(1, 0)]));
    assert_eq!(ConsolePainter::glyph_at(0, 0, &board, &blobs), Glyph::Rock);
    assert_eq!(ConsolePainter::glyph_at(1, 0, &board, &blobs), Glyph::Blob(3));
    assert_eq!(ConsolePainter::glyph_at(2, 0, &board, &blobs), Glyph::Air);
    assert_eq!(ConsolePainter::glyph_at(3, 0, &board, &blobs), Glyph::Water);
    assert_eq!(ConsolePainter::glyph_at(4, 0, &board, &blobs), Glyph::Outside);
    assert_eq!(ConsolePainter::glyph_at(0, 1, &board, &blobs), Glyph::Outside);
}

#[test]
fn cells_are_coloured_by_their_tile() {
    assert_eq!(GgezPainter::cell_color(Some(&Tile::Rock)), CellColor::Black);
    assert_eq!(GgezPainter::cell_color(Some(&Tile::Water)), CellColor::Blue);
    assert_eq!(GgezPainter::cell_color(Some(&Tile::Air)), CellColor::White);
    assert_eq!(GgezPainter::cell_color(None), CellColor::Magenta);
}

#[test]
fn refused_rectangle_is_an_error_that_tells_the_cell() {
    let rectangle = Rectangle { x: 3, y: 4, color: CellColor::Blue };
    assert_eq!(GgezPainter::rectangle_drawn(&rectangle, true), Ok(()));
    assert_eq!(
        GgezPainter::rectangle_drawn(&rectangle, false),
        Err(Error::UnableToDrawRectangle(3, 4))
    );
}

#[test]
fn refused_frame_is_an_error() {
    assert_eq!(GgezPainter::canvas_finished(true), Ok(()));
    assert_eq!(
        GgezPainter::canvas_finished(false),
        Err(Error::UnableToFinishCanvasOperation)
    );
}

#[test]
fn picture_has_a_rectangle_for_each_cell_row_by_row() {
    let board = Board::new_from_str(3, 2, "#o.\
                                           ..#").unwrap();
    let plan = GgezPainter::rectangles(&board);
    assert_eq!(
        plan,
        vec![
            Rectangle { x: 0, y: 0, color: CellColor::Black },
            Rectangle { x: 1, y: 0, color: CellColor::Blue },
            Rectangle { x: 2, y: 0, color: CellColor::White },
            Rectangle { x: 0, y: 1, color: CellColor::White },
            Rectangle { x: 1, y: 1, color: CellColor::White },
            Rectangle { x: 2, y: 1, color: CellColor::Black },
        ]
    );
    assert_eq!(GgezPainter::rectangles(&Board::new(0, 5, 1)), vec![]);
}

#[test]
fn engine_can_be_painted() {
    let board = Board::new(3, 3, 1);
    let engine = Engine::new(board, Blobs::new(), StdRng::seed_from_u64(1), None);
    assert_eq!(HasBoard::board(&engine).width(), 3);
    assert!(HasBlobs::blobs(&engine).is_empty());
}
