use std::cmp::Ordering;

use water_sandbox::board::Board;
use water_sandbox::point::Point;
use water_sandbox::tiles::{Tile, TileUpdateOperation, TileUpdateRule, Tiles, TilesError};

#[test]
fn tile_knows_what_it_is() {
    assert!(Tile::Air.is_air());
    assert!(!Tile::Air.is_rock());
    assert!(!Tile::Air.is_water());
    assert!(Tile::Rock.is_rock());
    assert!(!Tile::Rock.is_air());
    assert!(Tile::Water.is_water());
    assert!(!Tile::Water.is_rock());
}

#[test]
fn edits_leave_their_target_behind() {
    assert_eq!(TileUpdateOperation::Paint(Tile::Water).target(), Tile::Water);
    assert_eq!(TileUpdateOperation::Paint(Tile::Rock).target(), Tile::Rock);
    assert_eq!(TileUpdateOperation::Erase.target(), Tile::Air);
    assert_eq!(TileUpdateOperation::Purge.target(), Tile::Air);
}

#[test]
fn painting_needs_air_unless_rock_goes_over_water() {
    let paint_water = TileUpdateOperation::Paint(Tile::Water);
    let paint_rock = TileUpdateOperation::Paint(Tile::Rock);
    assert!(TileUpdateRule::is_allowed(Some(&Tile::Air), &paint_water));
    assert!(!TileUpdateRule::is_allowed(Some(&Tile::Water), &paint_water));
    assert!(!TileUpdateRule::is_allowed(Some(&Tile::Rock), &paint_water));
    assert!(!TileUpdateRule::is_allowed(None, &paint_water));
    assert!(TileUpdateRule::is_allowed(Some(&Tile::Air), &paint_rock));
    assert!(TileUpdateRule::is_allowed(Some(&Tile::Water), &paint_rock));
    assert!(!TileUpdateRule::is_allowed(Some(&Tile::Rock), &paint_rock));
    assert!(!TileUpdateRule::is_allowed(None, &paint_rock));
}

#[test]
fn erasing_needs_rock_and_purging_needs_nothing() {
    assert!(TileUpdateRule::is_allowed(Some(&Tile::Rock), &TileUpdateOperation::Erase));
    assert!(!TileUpdateRule::is_allowed(Some(&Tile::Water), &TileUpdateOperation::Erase));
    assert!(!TileUpdateRule::is_allowed(Some(&Tile::Air), &TileUpdateOperation::Erase));
    assert!(!TileUpdateRule::is_allowed(None, &TileUpdateOperation::Erase));
    assert!(TileUpdateRule::is_allowed(Some(&Tile::Rock), &TileUpdateOperation::Purge));
    assert!(TileUpdateRule::is_allowed(None, &TileUpdateOperation::Purge));
}

#[test]
fn text_is_read_row_by_row() {
    let tiles = Tiles::from_str("#.o.o#", 3, 2).unwrap();
    assert_eq!(tiles.width(), 3);
    assert_eq!(tiles.height(), 2);
    assert_eq!(tiles.at(0, 0), Some(&Tile::Rock));
    assert_eq!(tiles.at(1, 0), Some(&Tile::Air));
    assert_eq!(tiles.at(2, 0), Some(&Tile::Water));
    assert_eq!(tiles.at(0, 1), Some(&Tile::Air));
    assert_eq!(tiles.at(1, 1), Some(&Tile::Water));
    assert_eq!(tiles.at(2, 1), Some(&Tile::Rock));
}

#[test]
fn text_with_an_unknown_character_is_rejected() {
    assert_eq!(Tiles::from_str("#.x.o?", 3, 2).err(), Some(TilesError::UnknownTile('x')));
    assert_eq!(Tiles::from_str("#.o.o?ab", 3, 2).err(), Some(TilesError::UnknownTile('?')));
}

#[test]
fn text_of_the_wrong_length_is_rejected() {
    assert_eq!(Tiles::from_str("#.o.o", 3, 2).err(), Some(TilesError::SizeMismatch));
    assert_eq!(Tiles::from_str("#.o.o##", 3, 2).err(), Some(TilesError::SizeMismatch));
    assert_eq!(Tiles::from_str("#", 0, 5).err(), Some(TilesError::SizeMismatch));
    assert_eq!(Tiles::from_str("#", usize::MAX, 2).err(), Some(TilesError::SizeMismatch));
    assert!(Tiles::from_str("", 0, 5).is_ok());
    assert!(Tiles::from_str("", 4, 0).is_ok());
}

#[test]
fn text_written_reads_back() {
    let text = "#.o.o##..ooo";
    let tiles = Tiles::from_str(text, 4, 3).unwrap();
    assert_eq!(tiles.to_text(), text);
    let again = Tiles::from_str(&tiles.to_text(), 4, 3).unwrap();
    assert_eq!(again.to_text(), text);
    assert_eq!(Tiles::empty(2, 2).to_text(), "....");
    assert_eq!(Tiles::empty(0, 2).to_text(), "");
}

#[test]
fn cells_outside_the_grid_are_absent() {
    let mut tiles = Tiles::empty(3, 2);
    assert_eq!(tiles.at(2, 1), Some(&Tile::Air));
    assert_eq!(tiles.at(3, 1), None);
    assert_eq!(tiles.at(2, 2), None);
    assert_eq!(tiles.at(usize::MAX, 0), None);
    assert_eq!(tiles.at(0, usize::MAX), None);
    assert!(tiles.within_limits(2, 1));
    assert!(!tiles.within_limits(3, 1));
    assert!(!tiles.within_limits(0, 2));
    tiles.set_at(3, 1, Tile::Rock);
    tiles.set_at(0, 2, Tile::Rock);
    tiles.set_at(usize::MAX, usize::MAX, Tile::Rock);
    assert_eq!(tiles.to_text(), "......");
    tiles.set_at(1, 1, Tile::Water);
    assert_eq!(tiles.to_text(), "....o.");
}

#[test]
fn new_board_is_air_in_a_ring_of_rock() {
    let board = Board::new(4, 3, 2);
    assert_eq!(board.width(), 4);
    assert_eq!(board.height(), 3);
    assert_eq!(board.pixel_size(), 2);
    assert_eq!(board.tiles().to_text(), "#####..#####");
    let larger = Board::new(5, 4, 1);
    assert_eq!(larger.tiles().to_text(), "######...##...######");
}

#[test]
fn new_board_may_have_no_cells() {
    let board = Board::new(0, 0, 4);
    assert_eq!(board.width(), 0);
    assert_eq!(board.height(), 0);
    assert_eq!(board.tiles().at(0, 0), None);
    assert_eq!(Board::new(0, 3, 4).tiles().to_text(), "");
    assert_eq!(Board::new(3, 0, 4).tiles().to_text(), "");
    assert_eq!(Board::new(1, 1, 4).tiles().to_text(), "#");
}

#[test]
fn swap_exchanges_two_cells() {
    let mut board = Board::new_from_str(3, 2, "#o....").unwrap();
    board.swap(1, 0, 2, 1);
    assert_eq!(board.tiles().to_text(), "#....o");
    board.swap(0, 0, 2, 1);
    assert_eq!(board.tiles().to_text(), "o....#");
    board.swap(1, 1, 1, 1);
    assert_eq!(board.tiles().to_text(), "o....#");
}

#[test]
fn swap_does_nothing_unless_both_cells_exist() {
    let mut board = Board::new_from_str(3, 2, "#o....").unwrap();
    board.swap(1, 0, 3, 0);
    board.swap(3, 0, 1, 0);
    board.swap(1, 0, 1, 2);
    board.swap(usize::MAX, 0, 1, 0);
    assert_eq!(board.tiles().to_text(), "#o....");
}

#[test]
fn board_from_text_has_cells_one_pixel_wide() {
    let board = Board::new_from_str(2, 2, "#o.#").unwrap();
    assert_eq!(board.pixel_size(), 1);
    assert_eq!(board.width(), 2);
    assert_eq!(board.height(), 2);
    assert_eq!(board.tiles().at(1, 0), Some(&Tile::Water));
    assert_eq!(Board::new_from_str(2, 2, "#o.").err(), Some(TilesError::SizeMismatch));
    assert_eq!(Board::new_from_str(2, 2, "#o.X").err(), Some(TilesError::UnknownTile('X')));
}

#[test]
fn trial_board_is_ten_by_sixteen() {
    let board = Board::_new_test_1();
    assert_eq!(board.width(), 10);
    assert_eq!(board.height(), 16);
    assert_eq!(board.pixel_size(), 1);
    assert_eq!(board.tiles().at(1, 1), Some(&Tile::Water));
    assert_eq!(board.tiles().at(5, 1), Some(&Tile::Air));
    assert_eq!(board.tiles().at(7, 1), Some(&Tile::Rock));
    assert_eq!(board.tiles().at(8, 14), Some(&Tile::Air));
    let water = board.tiles().to_text().chars().filter(|c| *c == 'o').count();
    assert_eq!(water, 49);
}

#[test]
fn image_pixels_become_tiles() {
    let pixels = vec![
        0, 0, 0, /**/ 255, 255, 255, /**/ 0, 0, 255, //
        10, 20, 30, /**/ 0, 0, 254, /**/ 0, 0, 0,
    ];
    let board = Board::from_image(3, 2, &pixels).unwrap();
    assert_eq!(board.width(), 3);
    assert_eq!(board.height(), 2);
    assert_eq!(board.pixel_size(), 1);
    assert_eq!(board.tiles().to_text(), "#.o..#");
}

#[test]
fn image_with_the_wrong_number_of_bytes_is_no_board() {
    assert!(Board::from_image(3, 2, &vec![0; 17]).is_none());
    assert!(Board::from_image(3, 2, &vec![0; 19]).is_none());
    assert!(Board::from_image(usize::MAX, 2, &vec![0; 6]).is_none());
    assert!(Board::from_image(usize::MAX / 2, 2, &vec![0; 6]).is_none());
    assert!(Board::from_image(0, 7, &vec![]).is_some());
}

#[test]
fn tiles_can_be_edited_through_the_board() {
    let mut board = Board::new(3, 3, 1);
    board.tiles_mut().set_at(1, 1, Tile::Water);
    assert_eq!(board.tiles().to_text(), "####o####");
}

#[test]
fn points_are_ordered_by_row_then_column() {
    let a = Point::new(5, 1);
    let b = Point::new(0, 2);
    let c = Point::new(1, 2);
    assert!(a < b);
    assert!(b < c);
    assert!(a < c);
    assert!(!(b < a));
    assert!(c > b);
    assert_eq!(a.cmp(&b), Ordering::Less);
    assert_eq!(c.cmp(&b), Ordering::Greater);
    assert_eq!(b.cmp(&Point::new(0, 2)), Ordering::Equal);
    assert_eq!(a.partial_cmp(&b), Some(Ordering::Less));
    assert_eq!(b.partial_cmp(&a), Some(Ordering::Greater));
    assert_eq!(b.partial_cmp(&b), Some(Ordering::Equal));
    assert_eq!(b, Point::new(0, 2));
    assert_ne!(b, c);
}

#[test]
fn point_gives_its_coordinates() {
    let p = Point::new(3, 9);
    assert_eq!(p.x(), 3);
    assert_eq!(p.y(), 9);
    assert_eq!(p.inner(), (3, 9));
}
