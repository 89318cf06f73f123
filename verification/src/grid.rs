//! The mathematical picture of a tile grid, over which contracts are stated.
use vstd::prelude::*;
use crate::point::Point;
use crate::tiles::Tile;

verus! {

/// A grid as a value: its dimensions and its rows from top to bottom.
#[verifier::ext_equal]
pub struct Grid {
    pub width: nat,
    pub height: nat,
    pub rows: Seq<Seq<Tile>>,
}

impl Grid {
    /// Every row is present and has the grid's width.
    pub open spec fn wf(self) -> bool {
        &&& self.rows.len() == self.height
        &&& forall|y: int| 0 <= y < self.height ==> (#[trigger] self.rows[y]).len() == self.width
    }

    /// Whether the grid has a cell at `(x, y)`.
    pub open spec fn in_range(self, x: int, y: int) -> bool {
        0 <= x < self.width && 0 <= y < self.height
    }

    /// The tile at `(x, y)`, or `None` outside the grid.
    pub open spec fn tile(self, x: int, y: int) -> Option<Tile> {
        if self.in_range(x, y) {
            Some(self.rows[y][x])
        } else {
            None
        }
    }

    /// The grid with the tile at `(x, y)` replaced; unchanged outside the grid.
    pub open spec fn with_tile(self, x: int, y: int, t: Tile) -> Grid {
        if self.in_range(x, y) {
            Grid { rows: self.rows.update(y, self.rows[y].update(x, t)), ..self }
        } else {
            self
        }
    }

    /// The grid with two cells exchanged; unchanged unless both exist.
    pub open spec fn swapped(self, x1: int, y1: int, x2: int, y2: int) -> Grid {
        if self.in_range(x1, y1) && self.in_range(x2, y2) {
            self.with_tile(x1, y1, self.rows[y2][x2]).with_tile(x2, y2, self.rows[y1][x1])
        } else {
            self
        }
    }

    /// The tile at the point, or `None` outside the grid.
    pub open spec fn at(self, p: Point) -> Option<Tile> {
        self.tile(p.x as int, p.y as int)
    }

    /// Whether the grid holds water at the point.
    pub open spec fn water(self, p: Point) -> bool {
        self.at(p) == Some(Tile::Water)
    }
}

/// Replacing one tile keeps the grid well formed and touches no other cell.
pub proof fn lemma_with_tile(g: Grid, x: int, y: int, t: Tile)
    requires
        g.wf(),
    ensures
        g.with_tile(x, y, t).wf(),
        g.with_tile(x, y, t).width == g.width,
        g.with_tile(x, y, t).height == g.height,
        forall|a: int, b: int| #[trigger]
            g.with_tile(x, y, t).tile(a, b) == if a == x && b == y && g.in_range(x, y) {
                Some(t)
            } else {
                g.tile(a, b)
            },
{
    let h = g.with_tile(x, y, t);
}

/// Exchanging two cells keeps the grid well formed and touches no other cell.
pub proof fn lemma_swapped(g: Grid, x1: int, y1: int, x2: int, y2: int)
    requires
        g.wf(),
    ensures
        g.swapped(x1, y1, x2, y2).wf(),
        g.swapped(x1, y1, x2, y2).width == g.width,
        g.swapped(x1, y1, x2, y2).height == g.height,
        forall|a: int, b: int| #[trigger]
            g.swapped(x1, y1, x2, y2).tile(a, b) == if g.in_range(x1, y1) && g.in_range(x2, y2) {
                if a == x2 && b == y2 {
                    g.tile(x1, y1)
                } else if a == x1 && b == y1 {
                    g.tile(x2, y2)
                } else {
                    g.tile(a, b)
                }
            } else {
                g.tile(a, b)
            },
{
    if g.in_range(x1, y1) && g.in_range(x2, y2) {
        let m = g.with_tile(x1, y1, g.rows[y2][x2]);
        lemma_with_tile(g, x1, y1, g.rows[y2][x2]);
        lemma_with_tile(m, x2, y2, g.rows[y1][x1]);
    }
}

/// The point that a pair `(x, y)` names.
pub open spec fn cell(c: (usize, usize)) -> Point {
    Point { x: c.0, y: c.1 }
}

/// The cells of a grid of the given size.
pub open spec fn cells(width: nat, height: nat) -> Set<(usize, usize)> {
    Set::new(|c: (usize, usize)| c.0 < width && c.1 < height)
}

/// A row has finitely many cells.
proof fn lemma_row_finite(width: nat, y: usize)
    ensures
        Set::new(|c: (usize, usize)| c.0 < width && c.1 == y).finite(),
    decreases width,
{
    let row = Set::new(|c: (usize, usize)| c.0 < width && c.1 == y);
    if width == 0 {
        assert(row =~= Set::empty());
    } else {
        let shorter = Set::new(|c: (usize, usize)| c.0 < (width - 1) as nat && c.1 == y);
        lemma_row_finite((width - 1) as nat, y);
        if width - 1 <= usize::MAX {
            assert(row =~= shorter.insert(((width - 1) as usize, y)));
        } else {
            assert(row =~= shorter);
        }
    }
}

/// A grid has finitely many cells.
pub proof fn lemma_cells_finite(width: nat, height: nat)
    ensures
        cells(width, height).finite(),
    decreases height,
{
    if height == 0 {
        assert(cells(width, height) =~= Set::empty());
    } else {
        lemma_cells_finite(width, (height - 1) as nat);
        if height - 1 <= usize::MAX {
            let y = (height - 1) as usize;
            lemma_row_finite(width, y);
            let row = Set::new(|c: (usize, usize)| c.0 < width && c.1 == y);
            assert(cells(width, height) =~= cells(width, (height - 1) as nat).union(row));
        } else {
            assert(cells(width, height) =~= cells(width, (height - 1) as nat));
        }
    }
}

/// The water cells of a grid.
pub open spec fn water_cells(g: Grid) -> Set<Point> {
    Set::new(|p: Point| g.water(p))
}

/// How many water cells a grid holds.
pub open spec fn water_count(g: Grid) -> nat {
    water_cells(g).len()
}

/// A grid holds finitely many water cells.
pub proof fn lemma_water_cells_finite(g: Grid)
    ensures
        water_cells(g).finite(),
{
    let all = cells(g.width, g.height);
    lemma_cells_finite(g.width, g.height);
    let points = all.map(|c: (usize, usize)| cell(c));
    all.lemma_map_finite(|c: (usize, usize)| cell(c));
    assert forall|p: Point| water_cells(g).contains(p) implies points.contains(p) by {
        assert(all.contains((p.x, p.y)));
    }
    vstd::set_lib::lemma_len_subset(water_cells(g), points);
}

/// Whether two grids hold the same matter: they have the same size, the
/// same number of water cells, and rock in the same cells.
pub open spec fn same_matter(before: Grid, after: Grid) -> bool {
    &&& after.width == before.width
    &&& after.height == before.height
    &&& water_count(after) == water_count(before)
    &&& forall|p: Point| #[trigger] after.at(p) == Some(Tile::Rock) <==> before.at(p) == Some(Tile::Rock)
}

/// Exchanging any two cells keeps the number of water cells.
pub proof fn lemma_swap_keeps_water_count(g: Grid, a: Point, b: Point)
    requires
        g.wf(),
    ensures
        water_count(g.swapped(a.x as int, a.y as int, b.x as int, b.y as int)) == water_count(g),
{
    let h = g.swapped(a.x as int, a.y as int, b.x as int, b.y as int);
    lemma_swapped(g, a.x as int, a.y as int, b.x as int, b.y as int);
    lemma_water_cells_finite(g);
    let before = water_cells(g);
    let after = water_cells(h);
    assert forall|p: Point| h.at(p) == h.tile(p.x as int, p.y as int) by {}
    if g.in_range(a.x as int, a.y as int) && g.in_range(b.x as int, b.y as int) {
        if g.water(a) == g.water(b) {
            assert(after =~= before);
        } else if g.water(a) {
            assert(after =~= before.remove(a).insert(b));
        } else {
            assert(after =~= before.remove(b).insert(a));
        }
    }
}

/// Moving a droplet into a vacant cell keeps the matter of the grid.
pub proof fn lemma_droplet_move_keeps_matter(g: Grid, from: Point, to: Point)
    requires
        g.wf(),
        g.water(from),
        g.at(to) == Some(Tile::Air),
    ensures
        same_matter(g, g.swapped(from.x as int, from.y as int, to.x as int, to.y as int)),
        g.swapped(from.x as int, from.y as int, to.x as int, to.y as int).wf(),
{
    lemma_swapped(g, from.x as int, from.y as int, to.x as int, to.y as int);
    lemma_swap_keeps_water_count(g, from, to);
}

} // verus!
