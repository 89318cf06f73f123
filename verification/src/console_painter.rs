//! What a painter needs to see of the playfield, and which blob it finds
//! at a cell.
use vstd::prelude::*;
use vstd::std_specs::cmp::OrdSpec;
use vstd::std_specs::iter::IteratorSpec;
use crate::blobs::{blob_sets, Blobs};
use crate::board::Board;
use crate::components::covered;
use crate::engine::Engine;
use crate::point::Point;

verus! {

/// Something that shows a board.
pub trait HasBoard {
    fn board(&self) -> &Board;
}

/// Something that shows blobs.
pub trait HasBlobs {
    fn blobs(&self) -> &Blobs;
}

/// Something that a painter can paint.
pub trait Paintable: HasBlobs + HasBoard {

}

impl HasBlobs for Engine {
    /// The blobs as the engine last found them.
    fn blobs(&self) -> (blobs: &Blobs)
        ensures
            blobs@ == self.spec_blobs(),
    {
        Engine::blobs(self)
    }
}

impl HasBoard for Engine {
    /// The board on which the engine runs.
    fn board(&self) -> (board: &Board)
        ensures
            *board == self.spec_board(),
    {
        Engine::board(self)
    }
}

impl Paintable for Engine {

}

/// The text painter shows at most this many rows and columns.
pub const DRAW_LIMIT: usize = 20;

/// What the text painter shows for a cell.
#[derive(Debug, Clone, Copy, PartialEq, Eq, Structural)]
pub enum Glyph {
    /// Water of the blob with the given handle.
    Blob(usize),
    Rock,
    /// Water that no blob holds.
    Water,
    Air,
    /// A cell outside the board.
    Outside,
}

/// Whether `k` is the smallest handle of a blob that holds `p`.
pub open spec fn is_first_handle(blobs: Map<usize, crate::blobs::Blob>, p: Point, k: usize) -> bool {
    &&& blobs.contains_key(k)
    &&& blobs[k]@.contains(p)
    &&& forall|j: usize| j < k && blobs.contains_key(j) ==> !(#[trigger] blobs[j])@.contains(p)
}

/// The glyph of a cell that no blob holds.
pub open spec fn tile_glyph(tile: Option<crate::tiles::Tile>) -> Glyph {
    match tile {
        Some(crate::tiles::Tile::Rock) => Glyph::Rock,
        Some(crate::tiles::Tile::Water) => Glyph::Water,
        Some(crate::tiles::Tile::Air) => Glyph::Air,
        None => Glyph::Outside,
    }
}

/// Whether the handles ascend strictly.
pub open spec fn ascending(handles: Seq<usize>) -> bool {
    forall|i: int, j: int| 0 <= i < j < handles.len() ==> #[trigger] handles[i] < #[trigger] handles[j]
}

/// The handles of a map are walked in ascending order.
pub proof fn lemma_walk_ascends(handles: Seq<usize>)
    requires
        vstd::std_specs::btree::increasing_seq(handles),
    ensures
        ascending(handles),
{
    broadcast use vstd::laws_cmp::group_laws_cmp;

    vstd::std_specs::btree::axiom_increasing_seq_meaning::<usize>(handles);
    assert forall|i: int, j: int| 0 <= i < j < handles.len() implies #[trigger] handles[i]
        < #[trigger] handles[j] by {
        assert(handles[i].cmp_spec(&handles[j]) is Less);
    }
}

/// Paints the playfield as text.
pub struct ConsolePainter {}

impl ConsolePainter {
    /// The handle of the blob that holds the cell `(x, y)`: the smallest
    /// such handle, or `None` where no blob holds the cell.
    pub fn blob_index_from_point(x: usize, y: usize, blobs: &Blobs) -> (index: Option<usize>)
        requires
            forall|k: usize| blobs@.contains_key(k) ==> (#[trigger] blobs@[k]).wf(),
        ensures
            match index {
                Some(k) => is_first_handle(blobs@, Point { x, y }, k),
                None => !covered(blob_sets(blobs@), Point { x, y }),
            },
    {
        let here = Point::new(x, y);
        let ghost parts = blob_sets(blobs@);
        let ghost entries = blobs.iter().remaining();
        let ghost keys = entries.map_values(|kv: (&usize, &crate::blobs::Blob)| *kv.0);
        for entry in it: blobs.iter()
            invariant
                here == (Point { x, y }),
                it.seq() == entries,
                keys == entries.map_values(|kv: (&usize, &crate::blobs::Blob)| *kv.0),
                vstd::std_specs::btree::increasing_seq(keys),
                entries.len() == blobs@.dom().len(),
                forall|i: int|
                    0 <= i < entries.len() ==> blobs@.contains_key(*(#[trigger] entries[i]).0)
                        && blobs@[*entries[i].0] == *entries[i].1,
                forall|k: usize| #[trigger]
                    blobs@.contains_key(k) ==> entries.contains((&k, &blobs@[k])),
                forall|i: int| 0 <= i < it.index() ==> !(#[trigger] entries[i]).1@.contains(here),
                forall|k: usize| blobs@.contains_key(k) ==> (#[trigger] blobs@[k]).wf(),
                parts == blob_sets(blobs@),
        {
            if entry.1.contains(&here) {
                proof {
                    let at = it.index();
                    assert forall|j: usize|
                        j < *entry.0 && blobs@.contains_key(j) implies !(#[trigger] blobs@[j])@.contains(
                        here,
                    ) by {
                        let i = choose|i: int|
                            0 <= i < entries.len() && entries[i] == (&j, &blobs@[j]);
                        if i > at {
                            Self::lemma_ascending(keys, at, i);
                        }
                    }
                }
                return Some(*entry.0);
            }
        }
        None
    }

    /// What to show for the cell `(x, y)`: the blob that holds it, or else
    /// its tile.
    pub fn glyph_at(x: usize, y: usize, board: &Board, blobs: &Blobs) -> (glyph: Glyph)
        requires
            board.wf(),
            forall|k: usize| blobs@.contains_key(k) ==> (#[trigger] blobs@[k]).wf(),
        ensures
            match glyph {
                Glyph::Blob(k) => is_first_handle(blobs@, Point { x, y }, k),
                other => !covered(blob_sets(blobs@), Point { x, y }) && other == tile_glyph(
                    board@.tile(x as int, y as int),
                ),
            },
    {
        match Self::blob_index_from_point(x, y, blobs) {
            Some(blob_index) => Glyph::Blob(blob_index),
            None => match board.tiles().at(x, y) {
                Some(crate::tiles::Tile::Rock) => Glyph::Rock,
                Some(crate::tiles::Tile::Water) => Glyph::Water,
                Some(crate::tiles::Tile::Air) => Glyph::Air,
                None => Glyph::Outside,
            },
        }
    }

    /// In an ascending listing of handles a later handle is the larger one.
    proof fn lemma_ascending(keys: Seq<usize>, i: int, j: int)
        requires
            vstd::std_specs::btree::increasing_seq(keys),
            0 <= i < j < keys.len(),
        ensures
            keys[i] < keys[j],
    {
        broadcast use vstd::laws_cmp::group_laws_cmp;

        vstd::std_specs::btree::axiom_increasing_seq_meaning::<usize>(keys);
        assert(keys[i].cmp_spec(&keys[j]) is Less);

    }
}

} // verus!
