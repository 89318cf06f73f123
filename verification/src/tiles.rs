//! Tiles, the rules for painting them, and the grid that stores them.
use vstd::prelude::*;
use vstd::string::StringExecFns;
use crate::grid::Grid;

verus! {

/// What one grid cell holds.
#[derive(Debug, Copy, Clone, PartialEq, Eq, Structural)]
pub enum Tile {
    /// Immovable and impermeable.
    Rock,
    /// Movable.
    Water,
    /// Vacant.
    Air,
}

impl Tile {
    pub fn is_air(&self) -> (b: bool)
        ensures
            b == (*self == Tile::Air),
    {
        *self == Tile::Air
    }

    pub fn is_rock(&self) -> (b: bool)
        ensures
            b == (*self == Tile::Rock),
    {
        *self == Tile::Rock
    }

    pub fn is_water(&self) -> (b: bool)
        ensures
            b == (*self == Tile::Water),
    {
        *self == Tile::Water
    }
}

/// An edit that a painting tool asks for.
pub enum TileUpdateOperation {
    Paint(Tile),
    Erase,
    Purge,
}

impl TileUpdateOperation {
    /// The tile that the edit leaves behind.
    pub open spec fn spec_target(self) -> Tile {
        match self {
            TileUpdateOperation::Paint(what) => what,
            TileUpdateOperation::Purge | TileUpdateOperation::Erase => Tile::Air,
        }
    }

    /// The tile that the edit leaves behind.
    pub fn target(&self) -> (t: Tile)
        ensures
            t == self.spec_target(),
    {
        match self {
            TileUpdateOperation::Paint(what) => *what,
            TileUpdateOperation::Purge | TileUpdateOperation::Erase => Tile::Air,
        }
    }
}

/// Decides which edits a cell accepts.
pub struct TileUpdateRule {}

impl TileUpdateRule {
    /// Painting needs a vacant cell, except that rock may be painted over
    /// water; erasing needs rock; purging is always allowed.
    pub open spec fn allows(current: Option<Tile>, op: TileUpdateOperation) -> bool {
        match op {
            TileUpdateOperation::Paint(what) => current == Some(Tile::Air) || (what == Tile::Rock
                && current == Some(Tile::Water)),
            TileUpdateOperation::Erase => current == Some(Tile::Rock),
            TileUpdateOperation::Purge => true,
        }
    }

    /// Whether the cell with the tile `current` accepts the edit; what
    /// lies outside the grid has no tile.
    pub fn is_allowed(current: Option<&Tile>, op: &TileUpdateOperation) -> (ok: bool)
        ensures
            ok == Self::allows(
                match current {
                    Some(t) => Some(*t),
                    None => None,
                },
                *op,
            ),
    {
        match op {
            TileUpdateOperation::Paint(what) => {
                match current {
                    Some(tile) => tile.is_air() || (what.is_rock() && tile.is_water()),
                    None => false,
                }
            },
            TileUpdateOperation::Erase => {
                match current {
                    Some(tile) => tile.is_rock(),
                    None => false,
                }
            },
            TileUpdateOperation::Purge => true,
        }
    }
}

/// Why a textual grid was rejected.
#[derive(Debug, Clone, Copy, PartialEq, Eq, Structural)]
pub enum TilesError {
    /// A character that names no tile; it is the first such character.
    UnknownTile(char),
    /// The number of characters is not `width * height`.
    SizeMismatch,
}

/// The tile that a character of the textual format stands for.
pub open spec fn tile_of_char(c: char) -> Option<Tile> {
    if c == '#' {
        Some(Tile::Rock)
    } else if c == '.' {
        Some(Tile::Air)
    } else if c == 'o' {
        Some(Tile::Water)
    } else {
        None
    }
}

/// The character that stands for a tile in the textual format.
pub open spec fn char_of_tile(t: Tile) -> char {
    match t {
        Tile::Rock => '#',
        Tile::Air => '.',
        Tile::Water => 'o',
    }
}

/// The grid that a text of known characters describes, read row by row.
pub open spec fn grid_of_text(s: Seq<char>, width: nat, height: nat) -> Grid {
    Grid {
        width,
        height,
        rows: Seq::new(
            height,
            |y: int| Seq::new(width, |x: int| tile_of_char(s[y * width + x]).unwrap()),
        ),
    }
}

/// The character of a row-by-row listing that stands for the cell `(x, y)`.
pub open spec fn cell_char(text: Seq<char>, width: int, x: int, y: int) -> char {
    text[y * width + x]
}

/// Whether the text lists the tiles of the grid row by row.
pub open spec fn is_text_of(text: Seq<char>, g: Grid) -> bool {
    &&& text.len() == g.width * g.height
    &&& forall|x: int, y: int|
        0 <= x < g.width && 0 <= y < g.height ==> #[trigger] cell_char(text, g.width as int, x, y)
            == char_of_tile(g.rows[y][x])
}

/// In a row-by-row listing the cells come in row-major order.
pub proof fn lemma_cell_order(a: int, b: int, x: int, y: int, width: int)
    requires
        0 <= a < width,
        0 <= x < width,
        0 <= b,
        0 <= y,
    ensures
        (b < y || (b == y && a < x)) <==> b * width + a < y * width + x,
        (b == y && a == x) <==> b * width + a == y * width + x,
{
    if b < y {
        assert(b * width + width <= y * width) by (nonlinear_arith)
            requires
                b + 1 <= y,
                0 <= width,
        ;
    } else if y < b {
        assert(y * width + width <= b * width) by (nonlinear_arith)
            requires
                y + 1 <= b,
                0 <= width,
        ;
    }
}

/// The textual form of a grid reads back as the grid.
pub proof fn lemma_text_round_trip(text: Seq<char>, g: Grid)
    requires
        g.wf(),
        is_text_of(text, g),
    ensures
        all_known(text),
        grid_of_text(text, g.width, g.height) == g,
{
    let width = g.width as int;
    let height = g.height as int;
    assert forall|i: int| 0 <= i < text.len() implies tile_of_char(#[trigger] text[i]) is Some by {
        if width > 0 {
            let y = i / width;
            let x = i % width;
            assert(i == y * width + x && 0 <= x < width && 0 <= y) by (nonlinear_arith)
                requires
                    y == i / width,
                    x == i % width,
                    width > 0,
                    0 <= i,
            ;
            assert(y < height) by (nonlinear_arith)
                requires
                    i == y * width + x,
                    0 <= x,
                    i < width * height,
                    width > 0,
            ;
            assert(text[i] == cell_char(text, width, x, y));
        } else {
            assert(width * height == 0) by (nonlinear_arith)
                requires
                    width == 0,
            ;
        }
    }
    let back = grid_of_text(text, g.width, g.height);
    assert forall|y: int| 0 <= y < height implies #[trigger] back.rows[y] =~= g.rows[y] by {
        assert forall|x: int| 0 <= x < width implies back.rows[y][x] == g.rows[y][x] by {
            assert(text[y * width + x] == cell_char(text, width, x, y));
        }
    }
}

/// Whether every character of the text names a tile.
pub open spec fn all_known(s: Seq<char>) -> bool {
    forall|i: int| 0 <= i < s.len() ==> tile_of_char(#[trigger] s[i]) is Some
}

/// Whether `i` is the place of the first character that names no tile.
pub open spec fn first_unknown_at(s: Seq<char>, i: int) -> bool {
    &&& 0 <= i < s.len()
    &&& tile_of_char(s[i]) is None
    &&& forall|j: int| 0 <= j < i ==> tile_of_char(#[trigger] s[j]) is Some
}

/// A cell's place in a row-by-row listing lies within the listing.
pub proof fn lemma_cell_index(x: int, y: int, width: int, height: int)
    requires
        0 <= x < width,
        0 <= y < height,
    ensures
        0 <= y * width <= y * width + x < (y + 1) * width <= width * height,
        (y + 1) * width == y * width + width,
{
    assert(0 <= y * width) by (nonlinear_arith)
        requires
            0 <= y,
            0 <= width,
    ;
    assert((y + 1) * width == y * width + width) by (nonlinear_arith);
    assert((y + 1) * width <= width * height) by (nonlinear_arith)
        requires
            y + 1 <= height,
            0 <= width,
    ;
}

/// Width times height storage of tiles with bounds-checked access.
#[derive(Clone, Debug)]
pub struct Tiles {
    width: usize,
    height: usize,
    tiles: Vec<Vec<Tile>>,
}

impl View for Tiles {
    type V = Grid;

    closed spec fn view(&self) -> Grid {
        Grid {
            width: self.width as nat,
            height: self.height as nat,
            rows: Seq::new(self.tiles@.len(), |y: int| self.tiles@[y]@),
        }
    }
}

impl Tiles {
    /// Every row is present and has the grid's width.
    pub open spec fn wf(&self) -> bool {
        self@.wf()
    }

    fn tile_from_char(c: char) -> (t: Option<Tile>)
        ensures
            t == tile_of_char(c),
    {
        if c == '#' {
            Some(Tile::Rock)
        } else if c == '.' {
            Some(Tile::Air)
        } else if c == 'o' {
            Some(Tile::Water)
        } else {
            None
        }
    }

    /// Reads a grid from its textual form: `#` is rock, `.` is air, `o` is
    /// water, listed row by row. A text with a character that names no tile
    /// is rejected with that character; a text of the wrong length is
    /// rejected as a size mismatch.
    pub fn from_str(s: &str, width: usize, height: usize) -> (r: Result<Tiles, TilesError>)
        ensures
            match r {
                Ok(t) => {
                    &&& all_known(s@)
                    &&& s@.len() == width * height
                    &&& t.wf()
                    &&& t@ == grid_of_text(s@, width as nat, height as nat)
                },
                Err(TilesError::UnknownTile(c)) => exists|i: int| #[trigger]
                    first_unknown_at(s@, i) && s@[i] == c,
                Err(TilesError::SizeMismatch) => all_known(s@) && s@.len() != width * height,
            },
    {
        let mut flat: Vec<Tile> = Vec::new();
        for c in it: s.chars()
            invariant
                it.seq() == s@,
                flat@.len() == it.index(),
                forall|j: int| 0 <= j < it.index() ==> tile_of_char(#[trigger] s@[j]) == Some(flat@[j]),
        {
            match Self::tile_from_char(c) {
                Some(tile) => flat.push(tile),
                None => {
                    assert(first_unknown_at(s@, it.index() as int));
                    return Err(TilesError::UnknownTile(c));
                },
            }
        }
        let total = match width.checked_mul(height) {
            Some(total) => total,
            None => {
                assert(s@.len() == flat.len());
                return Err(TilesError::SizeMismatch);
            },
        };
        if flat.len() != total {
            return Err(TilesError::SizeMismatch);
        }
        let mut tiles: Vec<Vec<Tile>> = Vec::new();
        let mut y: usize = 0;
        let mut base: usize = 0;
        while y < height
            invariant
                y <= height,
                base == y * width,
                flat.len() == width * height,
                s@.len() == flat.len(),
                tiles@.len() == y,
                forall|j: int| 0 <= j < flat@.len() ==> tile_of_char(#[trigger] s@[j]) == Some(flat@[j]),
                forall|b: int| 0 <= b < y ==> (#[trigger] tiles@[b])@ == grid_of_text(
                    s@,
                    width as nat,
                    height as nat,
                ).rows[b],
            decreases height - y,
        {
            let mut row: Vec<Tile> = Vec::new();
            let mut x: usize = 0;
            while x < width
                invariant
                    x <= width,
                    y < height,
                    base == y * width,
                    flat.len() == width * height,
                    s@.len() == flat.len(),
                    row@.len() == x,
                    forall|j: int| 0 <= j < flat@.len() ==> tile_of_char(#[trigger] s@[j]) == Some(flat@[j]),
                    forall|a: int| 0 <= a < x ==> #[trigger] row@[a] == tile_of_char(
                        s@[y * width + a],
                    ).unwrap(),
                decreases width - x,
            {
                proof {
                    lemma_cell_index(x as int, y as int, width as int, height as int);
                }
                row.push(flat[base + x]);
                x += 1;
            }
            proof {
                if width > 0 {
                    lemma_cell_index(0, y as int, width as int, height as int);
                } else {
                    assert((y + 1) * width == y * width + width) by (nonlinear_arith);
                }
            }
            tiles.push(row);
            base += width;
            y += 1;
        }
        let t = Tiles { width, height, tiles };
        Ok(t)
    }

    /// Writes the grid in its textual form, row by row.
    pub fn to_text(&self) -> (text: String)
        requires
            self.wf(),
        ensures
            is_text_of(text@, self@),
    {
        let mut text = String::new();
        let mut y: usize = 0;
        proof {
            reveal_strlit("#");
            reveal_strlit(".");
            reveal_strlit("o");
        }
        while y < self.height
            invariant
                y <= self.height,
                self.wf(),
                text@.len() == y * self.width,
                "#"@ == seq!['#'],
                "."@ == seq!['.'],
                "o"@ == seq!['o'],
                forall|a: int, b: int|
                    0 <= a < self.width && 0 <= b < y ==> #[trigger] cell_char(
                        text@,
                        self.width as int,
                        a,
                        b,
                    ) == char_of_tile(self@.rows[b][a]),
            decreases self.height - y,
        {
            let mut x: usize = 0;
            while x < self.width
                invariant
                    x <= self.width,
                    y < self.height,
                    self.wf(),
                    text@.len() == y * self.width + x,
                    "#"@ == seq!['#'],
                    "."@ == seq!['.'],
                    "o"@ == seq!['o'],
                    forall|a: int, b: int|
                        0 <= a < self.width && (0 <= b < y || (b == y && a < x))
                            ==> #[trigger] cell_char(text@, self.width as int, a, b)
                            == char_of_tile(self@.rows[b][a]),
                decreases self.width - x,
            {
                let ghost before = text@;
                assert(self@.rows[y as int].len() == self.width);
                let glyph = match self.tiles[y][x] {
                    Tile::Rock => "#",
                    Tile::Air => ".",
                    Tile::Water => "o",
                };
                text.append(glyph);
                proof {
                    assert forall|a: int, b: int|
                        0 <= a < self.width && (0 <= b < y || (b == y && a < x + 1))
                            implies #[trigger] cell_char(text@, self.width as int, a, b)
                        == char_of_tile(self@.rows[b][a]) by {
                        lemma_cell_order(a, b, x as int, y as int, self.width as int);
                        if b == y && a == x {
                        } else {
                            assert(cell_char(before, self.width as int, a, b) == char_of_tile(
                                self@.rows[b][a],
                            ));
                        }
                    }
                }
                x += 1;
            }
            proof {
                assert((y + 1) * self.width == y * self.width + self.width) by (nonlinear_arith);
            }
            y += 1;
        }
        proof {
            assert(y * self.width == self.width * self.height) by (nonlinear_arith)
                requires
                    y == self.height,
            ;
        }
        text
    }

    /// An all-air grid.
    pub fn empty(width: usize, height: usize) -> (t: Tiles)
        ensures
            t.wf(),
            t@.width == width,
            t@.height == height,
            forall|x: int, y: int| t@.in_range(x, y) ==> t@.tile(x, y) == Some(Tile::Air),
    {
        let mut row: Vec<Tile> = Vec::new();
        let mut x: usize = 0;
        while x < width
            invariant
                x <= width,
                row@.len() == x,
                forall|i: int| 0 <= i < x ==> row@[i] == Tile::Air,
            decreases width - x,
        {
            row.push(Tile::Air);
            x += 1;
        }
        let mut tiles: Vec<Vec<Tile>> = Vec::new();
        let mut y: usize = 0;
        while y < height
            invariant
                y <= height,
                tiles@.len() == y,
                row@.len() == width,
                forall|i: int| 0 <= i < width ==> row@[i] == Tile::Air,
                forall|j: int| 0 <= j < y ==> (#[trigger] tiles@[j])@ == row@,
            decreases height - y,
        {
            tiles.push(row.clone());
            y += 1;
        }
        Tiles { width, height, tiles }
    }

    pub fn width(&self) -> (w: usize)
        ensures
            w == self@.width,
    {
        self.width
    }

    pub fn height(&self) -> (h: usize)
        ensures
            h == self@.height,
    {
        self.height
    }

    /// The tile at `(x, y)`, or `None` outside the grid.
    pub fn at(&self, x: usize, y: usize) -> (t: Option<&Tile>)
        requires
            self.wf(),
        ensures
            match t {
                Some(tile) => self@.tile(x as int, y as int) == Some(*tile),
                None => self@.tile(x as int, y as int) is None,
            },
    {
        if self.within_limits(x, y) {
            Some(&self.tiles[y][x])
        } else {
            None
        }
    }

    /// Overwrites the tile at `(x, y)`; does nothing outside the grid.
    pub fn set_at(&mut self, x: usize, y: usize, tile: Tile)
        requires
            old(self).wf(),
        ensures
            final(self).wf(),
            final(self)@ == old(self)@.with_tile(x as int, y as int, tile),
    {
        if self.within_limits(x, y) {
            assert(self@.rows[y as int].len() == self.width);
            self.tiles[y][x] = tile;
            assert(self@.rows =~= old(self)@.with_tile(x as int, y as int, tile).rows);
        }
    }

    /// Whether the grid has a cell at `(x, y)`.
    pub fn within_limits(&self, x: usize, y: usize) -> (inside: bool)
        ensures
            inside == self@.in_range(x as int, y as int),
    {
        x < self.width && y < self.height
    }
}

} // verus!
