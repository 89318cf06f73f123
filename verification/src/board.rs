//! The playfield: a tile grid together with its size and the size of a
//! cell on screen.
use vstd::prelude::*;
use crate::grid::{lemma_with_tile, Grid};
use crate::tiles::{Tile, Tiles, TilesError};

verus! {

/// The playfield.
#[derive(Clone, Debug)]
pub struct Board {
    width: usize,
    height: usize,
    pixel_size: usize,
    tiles: Tiles,
}

impl View for Board {
    type V = Grid;

    closed spec fn view(&self) -> Grid {
        self.tiles@
    }
}

/// The tile that a pixel of the given colour stands for: black is rock,
/// pure blue is water, anything else is air.
pub open spec fn tile_of_rgb(r: u8, g: u8, b: u8) -> Tile {
    if r == 0 && g == 0 && b == 0 {
        Tile::Rock
    } else if r == 0 && g == 0 && b == 255 {
        Tile::Water
    } else {
        Tile::Air
    }
}

/// The tile that the pixel at `(x, y)` of an image stands for, the image
/// given as red, green and blue bytes pixel by pixel, row by row.
pub open spec fn tile_of_pixel(pixels: Seq<u8>, width: int, x: int, y: int) -> Tile {
    let at = 3 * (y * width + x);
    tile_of_rgb(pixels[at], pixels[at + 1], pixels[at + 2])
}

/// The textual form of the trial playfield.
pub const TEST_1: &'static str = "##########\
#oooo..#.#\
#oooo#o#.#\
#ooo.#ooo#\
##########\
#oooooooo#\
#oooooooo#\
#oooooooo#\
#oo#######\
#oo#.###.#\
#oo#.#...#\
#oo#.#.#.#\
#oo#...#.#\
#..#####.#\
#........#\
##########";

/// The tile of a freshly made playfield: rock on the outermost ring, air inside.
pub open spec fn bordered_tile(x: int, y: int, width: int, height: int) -> Tile {
    if x == 0 || y == 0 || x == width - 1 || y == height - 1 {
        Tile::Rock
    } else {
        Tile::Air
    }
}

impl Board {
    /// The grid that the board holds.
    pub closed spec fn spec_tiles(&self) -> Tiles {
        self.tiles
    }

    /// The width that the board records.
    pub closed spec fn spec_width(&self) -> usize {
        self.width
    }

    /// The height that the board records.
    pub closed spec fn spec_height(&self) -> usize {
        self.height
    }

    /// How many pixels wide a cell is on screen.
    pub closed spec fn spec_pixel_size(&self) -> usize {
        self.pixel_size
    }

    /// The grid is well formed and has the size that the board records.
    pub open spec fn wf(&self) -> bool {
        &&& self.spec_tiles().wf()
        &&& self@ == self.spec_tiles()@
        &&& self@.width == self.spec_width()
        &&& self@.height == self.spec_height()
    }

    /// A playfield of air enclosed by a ring of rock.
    pub fn new(width: usize, height: usize, pixel_size: usize) -> (b: Board)
        ensures
            b.wf(),
            b@.width == width,
            b@.height == height,
            b.spec_pixel_size() == pixel_size,
            forall|x: int, y: int|
                b@.in_range(x, y) ==> #[trigger] b@.tile(x, y) == Some(
                    bordered_tile(x, y, width as int, height as int),
                ),
    {
        let mut tiles = Tiles::empty(width, height);
        let mut x: usize = 0;
        while x < width
            invariant
                x <= width,
                tiles.wf(),
                tiles@.width == width,
                tiles@.height == height,
                forall|a: int, b: int|
                    tiles@.in_range(a, b) ==> #[trigger] tiles@.tile(a, b) == Some(
                        if a < x && (b == 0 || b == height - 1) {
                            Tile::Rock
                        } else {
                            Tile::Air
                        },
                    ),
            decreases width - x,
        {
            proof {
                lemma_with_tile(tiles@, x as int, 0, Tile::Rock);
            }
            tiles.set_at(x, 0, Tile::Rock);
            if height > 0 {
                proof {
                    lemma_with_tile(tiles@, x as int, height - 1, Tile::Rock);
                }
                tiles.set_at(x, height - 1, Tile::Rock);
            }
            x += 1;
        }
        let mut y: usize = 0;
        while y < height
            invariant
                y <= height,
                tiles.wf(),
                tiles@.width == width,
                tiles@.height == height,
                forall|a: int, b: int|
                    tiles@.in_range(a, b) ==> #[trigger] tiles@.tile(a, b) == Some(
                        if b == 0 || b == height - 1 || (b < y && (a == 0 || a == width - 1)) {
                            Tile::Rock
                        } else {
                            Tile::Air
                        },
                    ),
            decreases height - y,
        {
            proof {
                lemma_with_tile(tiles@, 0, y as int, Tile::Rock);
            }
            tiles.set_at(0, y, Tile::Rock);
            if width > 0 {
                proof {
                    lemma_with_tile(tiles@, width - 1, y as int, Tile::Rock);
                }
                tiles.set_at(width - 1, y, Tile::Rock);
            }
            y += 1;
        }
        Board { width, height, tiles, pixel_size }
    }

    /// Exchanges the tiles of two cells; does nothing unless both exist.
    pub fn swap(&mut self, x1: usize, y1: usize, x2: usize, y2: usize)
        requires
            old(self).wf(),
        ensures
            final(self).wf(),
            final(self)@ == old(self)@.swapped(x1 as int, y1 as int, x2 as int, y2 as int),
            final(self).spec_pixel_size() == old(self).spec_pixel_size(),
    {
        let maybe_source = match self.tiles.at(x1, y1) {
            Some(tile) => Some(*tile),
            None => None,
        };
        let maybe_target = match self.tiles.at(x2, y2) {
            Some(tile) => Some(*tile),
            None => None,
        };
        match (maybe_source, maybe_target) {
            (Some(source), Some(target)) => {
                proof {
                    lemma_with_tile(self.tiles@, x1 as int, y1 as int, target);
                }
                self.tiles.set_at(x1, y1, target);
                self.tiles.set_at(x2, y2, source);
            },
            _ => {},
        }
    }

    pub fn tiles(&self) -> (t: &Tiles)
        ensures
            *t == self.spec_tiles(),
    {
        &self.tiles
    }

    /// Hands out the grid for editing. The board stays well formed as long
    /// as the grid keeps its size.
    pub fn tiles_mut(&mut self) -> (t: &mut Tiles)
        ensures
            *t == old(self).spec_tiles(),
            final(self).spec_tiles() == *final(t),
            final(self)@ == final(t)@,
            final(self).spec_width() == old(self).spec_width(),
            final(self).spec_height() == old(self).spec_height(),
            final(self).spec_pixel_size() == old(self).spec_pixel_size(),
    {
        &mut self.tiles
    }

    pub fn width(&self) -> (w: usize)
        ensures
            w == self.spec_width(),
    {
        self.width
    }

    pub fn height(&self) -> (h: usize)
        ensures
            h == self.spec_height(),
    {
        self.height
    }

    /// The playfield that an image shows, with cells one pixel wide. The
    /// image is given by its size and its red, green and blue bytes, pixel
    /// by pixel and row by row. Where the bytes are not three for each
    /// pixel there is no playfield.
    pub fn from_image(width: usize, height: usize, pixels: &Vec<u8>) -> (r: Option<Board>)
        ensures
            match r {
                Some(b) => {
                    &&& pixels@.len() == 3 * (width * height)
                    &&& b.wf()
                    &&& b@.width == width
                    &&& b@.height == height
                    &&& b.spec_pixel_size() == 1
                    &&& forall|x: int, y: int|
                        b@.in_range(x, y) ==> #[trigger] b@.tile(x, y) == Some(
                            tile_of_pixel(pixels@, width as int, x, y),
                        )
                },
                None => pixels@.len() != 3 * (width * height),
            },
    {
        let cells = match width.checked_mul(height) {
            Some(cells) => cells,
            None => {
                assert(pixels@.len() == pixels.len());
                return None;
            },
        };
        let bytes = match cells.checked_mul(3) {
            Some(bytes) => bytes,
            None => {
                assert(pixels@.len() == pixels.len());
                return None;
            },
        };
        if pixels.len() != bytes {
            return None;
        }
        let mut tiles = Tiles::empty(width, height);
        let mut at: usize = 0;
        let mut y: usize = 0;
        while y < height
            invariant
                y <= height,
                at == 3 * (y * width),
                pixels.len() == 3 * (width * height),
                tiles.wf(),
                tiles@.width == width,
                tiles@.height == height,
                forall|a: int, b: int|
                    tiles@.in_range(a, b) && b < y ==> #[trigger] tiles@.tile(a, b) == Some(
                        tile_of_pixel(pixels@, width as int, a, b),
                    ),
            decreases height - y,
        {
            let mut x: usize = 0;
            while x < width
                invariant
                    x <= width,
                    y < height,
                    at == 3 * (y * width + x),
                    pixels.len() == 3 * (width * height),
                    tiles.wf(),
                    tiles@.width == width,
                    tiles@.height == height,
                    forall|a: int, b: int|
                        tiles@.in_range(a, b) && (b < y || (b == y && a < x))
                            ==> #[trigger] tiles@.tile(a, b) == Some(
                            tile_of_pixel(pixels@, width as int, a, b),
                        ),
                decreases width - x,
            {
                proof {
                    crate::tiles::lemma_cell_index(
                        x as int,
                        y as int,
                        width as int,
                        height as int,
                    );
                }
                let red = pixels[at];
                let green = pixels[at + 1];
                let blue = pixels[at + 2];
                let tile = if red == 0 && green == 0 && blue == 0 {
                    Tile::Rock
                } else if red == 0 && green == 0 && blue == 255 {
                    Tile::Water
                } else {
                    Tile::Air
                };
                proof {
                    lemma_with_tile(tiles@, x as int, y as int, tile);
                }
                tiles.set_at(x, y, tile);
                at += 3;
                x += 1;
            }
            proof {
                if width > 0 {
                    crate::tiles::lemma_cell_index(0, y as int, width as int, height as int);
                }
            }
            y += 1;
        }
        Some(Board { width, height, tiles, pixel_size: 1 })
    }

    /// Reads a playfield from its textual form, with cells one pixel wide.
    pub fn new_from_str(width: usize, height: usize, tiles: &str) -> (r: Result<Board, TilesError>)
        ensures
            match r {
                Ok(b) => {
                    &&& crate::tiles::all_known(tiles@)
                    &&& tiles@.len() == width * height
                    &&& b.wf()
                    &&& b@ == crate::tiles::grid_of_text(tiles@, width as nat, height as nat)
                    &&& b.spec_pixel_size() == 1
                },
                Err(TilesError::UnknownTile(c)) => exists|i: int| #[trigger]
                    crate::tiles::first_unknown_at(tiles@, i) && tiles@[i] == c,
                Err(TilesError::SizeMismatch) => crate::tiles::all_known(tiles@) && tiles@.len()
                    != width * height,
            },
    {
        match Tiles::from_str(tiles, width, height) {
            Ok(tiles) => Ok(Board { width, height, tiles, pixel_size: 1 }),
            Err(e) => Err(e),
        }
    }

    /// A playfield of ten by sixteen cells with basins, shafts and a
    /// overhang, to try the simulation on.
    pub fn _new_test_1() -> (b: Board)
        ensures
            b.wf(),
            b@ == crate::tiles::grid_of_text(TEST_1@, 10, 16),
            b.spec_pixel_size() == 1,
    {
        proof {
            reveal_strlit(
                "##########\
#oooo..#.#\
#oooo#o#.#\
#ooo.#ooo#\
##########\
#oooooooo#\
#oooooooo#\
#oooooooo#\
#oo#######\
#oo#.###.#\
#oo#.#...#\
#oo#.#.#.#\
#oo#...#.#\
#..#####.#\
#........#\
##########",
            );
        }
        match Tiles::from_str(TEST_1, 10, 16) {
            Ok(tiles) => Board { width: 10, height: 16, tiles, pixel_size: 1 },
            Err(_) => {
                Board::new(10, 16, 1)
            },
        }
    }

    pub fn pixel_size(&self) -> (size: usize)
        ensures
            size == self.spec_pixel_size(),
    {
        self.pixel_size
    }
}

} // verus!
