//! Finds the blobs of a board: the maximal 4-connected groups of water.
use std::collections::BTreeMap;
use std::collections::BTreeSet;
use std::collections::VecDeque;
use vstd::prelude::*;
use vstd::std_specs::btree::increasing_seq;
use vstd::std_specs::cmp::OrdSpec;
use vstd::std_specs::iter::IteratorSpec;
use crate::blobs::{blob_sets, Blob, Blobs};
use crate::board::Board;
use crate::components::{
    adjacent, connected, connected_avoiding, covered, is_component_partition,
    lemma_avoiding_connected, lemma_avoiding_prepend, lemma_avoiding_refl, lemma_connected_refl,
    lemma_flood_exact, parts_in_scan_order,
};
use crate::flood::{
    flood_ctx, flood_inv, lemma_absorb, lemma_add_part, lemma_pass_closed, lemma_pass_complete,
    lemma_skip, lemma_touching_grows, lemma_unmarked_shrinks, marked_cells, pass_inv, span_cells,
    touching_of, touching_of_span,
};
use crate::grid::{cell, cells, lemma_cells_finite, Grid};
use crate::point::Point;

verus! {

/// A horizontal run of water found from a seed cell.
#[derive(Debug)]
pub struct DetectedLineDef {
    /// The leftmost column of the run.
    pub start: usize,
    /// The rightmost column of the run.
    pub end: usize,
    /// The unmarked water cells directly above and below the run.
    pub touching: BTreeSet<(usize, usize)>,
}

/// Whether `line` is the unbroken run of water through `(sx, sy)`, found
/// when the cells `done` were marked and leaving `done_after` marked.
pub open spec fn found_line(
    g: Grid,
    done: Set<(usize, usize)>,
    sx: usize,
    sy: usize,
    line: DetectedLineDef,
    done_after: Set<(usize, usize)>,
) -> bool {
    &&& line.start <= sx <= line.end
    &&& forall|p: Point| p.y == sy && line.start <= p.x <= line.end ==> #[trigger] g.water(p)
    &&& line.start > 0 ==> !g.water(Point { x: (line.start - 1) as usize, y: sy })
    &&& line.end < usize::MAX ==> !g.water(Point { x: (line.end + 1) as usize, y: sy })
    &&& done_after == done.union(span_cells(sy, line.start, line.end))
    &&& line.touching@ == touching_of_span(g, done, sy, line.start, line.end)
}

/// The points that a flood must keep off: those whose cells were visited
/// and those that the blob holds.
pub open spec fn blocked(visited: Set<(usize, usize)>, blob: Set<Point>) -> Set<Point> {
    Set::new(|p: Point| visited.contains((p.x, p.y)) || blob.contains(p))
}

/// Whether `p` was taken in between two states of a flood.
pub open spec fn newly_blocked(
    v0: Set<(usize, usize)>,
    b0: Set<Point>,
    v1: Set<(usize, usize)>,
    b1: Set<Point>,
    p: Point,
) -> bool {
    blocked(v1, b1).contains(p) && !blocked(v0, b0).contains(p)
}

/// Whether a flood has only taken in: nothing is lost, and what is new
/// is new to the visited cells and to the blob alike.
pub open spec fn grown(
    v0: Set<(usize, usize)>,
    b0: Set<Point>,
    v1: Set<(usize, usize)>,
    b1: Set<Point>,
) -> bool {
    &&& v0.subset_of(v1)
    &&& b0.subset_of(b1)
    &&& forall|c: (usize, usize)| #[trigger]
        v1.contains(c) ==> v0.contains(c) || newly_blocked(v0, b0, v1, b1, cell(c))
    &&& forall|p: Point| #[trigger] b1.contains(p) ==> b0.contains(p) || newly_blocked(v0, b0, v1, b1, p)
    &&& forall|p: Point| #[trigger]
        newly_blocked(v0, b0, v1, b1, p) ==> v1.contains((p.x, p.y)) && b1.contains(p)
}

/// What a visit of `here` leaves behind: the flood has only taken in; it
/// has taken in `here` unless that was no water; what it has taken in, a
/// walk reaches from `here` over water that was free before; and no water
/// next to what it has taken in is left free.
pub open spec fn flooded(
    g: Grid,
    here: Point,
    v0: Set<(usize, usize)>,
    b0: Set<Point>,
    v1: Set<(usize, usize)>,
    b1: Set<Point>,
) -> bool {
    &&& grown(v0, b0, v1, b1)
    &&& g.water(here) ==> blocked(v1, b1).contains(here)
    &&& forall|p: Point| #[trigger]
        newly_blocked(v0, b0, v1, b1, p) ==> connected_avoiding(g, blocked(v0, b0), here, p)
    &&& forall|p: Point, q: Point|
        #![trigger blocked(v1, b1).contains(p), adjacent(p, q)]
        newly_blocked(v0, b0, v1, b1, p) && g.water(q) && adjacent(p, q) ==> blocked(
            v1,
            b1,
        ).contains(q)
}

/// However the blobs of a grid are detected, they come out the same: two
/// families of well-formed blobs that both are the component partition of
/// one grid have the same handles and, under each handle, the same points
/// in the same order.
pub proof fn lemma_detections_agree(g: Grid, a: Map<usize, Blob>, b: Map<usize, Blob>)
    requires
        is_component_partition(g, blob_sets(a)),
        is_component_partition(g, blob_sets(b)),
        forall|k: usize| a.contains_key(k) ==> (#[trigger] a[k]).wf(),
        forall|k: usize| b.contains_key(k) ==> (#[trigger] b[k]).wf(),
    ensures
        a.dom() == b.dom(),
        forall|k: usize| a.contains_key(k) ==> (#[trigger] a[k]).spec_points() == b[k].spec_points(),
{
    crate::components::lemma_component_partition_same(g, blob_sets(a), blob_sets(b));
    assert(a.dom() =~= blob_sets(a).dom());
    assert forall|k: usize| a.contains_key(k) implies (#[trigger] a[k]).spec_points()
        == b[k].spec_points() by {
        crate::blobs::lemma_blob_listing_unique(a[k], b[k]);
    }
}

/// Partitions the water of a board into blobs, marking the cells it has
/// assigned as it goes.
pub struct BlobDetector<'a> {
    board: &'a Board,
    done: BTreeSet<(usize, usize)>,
}

impl<'a> BlobDetector<'a> {
    /// The board under inspection.
    pub closed spec fn spec_board(&self) -> Board {
        *self.board
    }

    /// The cells that are marked as assigned to a blob.
    pub closed spec fn spec_done(&self) -> Set<(usize, usize)> {
        self.done@
    }

    /// The board under inspection is well formed.
    pub open spec fn wf(&self) -> bool {
        self.spec_board().wf()
    }

    /// The grid under inspection.
    pub open spec fn grid(&self) -> Grid {
        self.spec_board()@
    }

    pub fn new(board: &'a Board) -> (detector: Self)
        ensures
            detector.spec_board() == *board,
            detector.spec_done() == Set::<(usize, usize)>::empty(),
    {
        Self { board, done: BTreeSet::new() }
    }

    fn is_water_at(&self, x: usize, y: usize) -> (water: bool)
        requires
            self.wf(),
        ensures
            water == self.grid().water(Point { x, y }),
    {
        match self.board.tiles().at(x, y) {
            Some(tile) => tile.is_water(),
            None => false,
        }
    }

    /// Marks `(x, y)` and records the unmarked water cells directly above
    /// and below it.
    pub fn update_touching(&mut self, x: usize, y: usize, touching: &mut BTreeSet<(usize, usize)>)
        requires
            old(self).wf(),
        ensures
            final(self).spec_board() == old(self).spec_board(),
            final(self).spec_done() == old(self).spec_done().insert((x, y)),
            final(touching)@ == old(touching)@.union(
                touching_of(old(self).grid(), old(self).spec_done(), x, y),
            ),
    {
        self.done.insert((x, y));
        if y > 0 {
            if !self.done.contains(&(x, y - 1)) && self.is_water_at(x, y - 1) {
                touching.insert((x, y - 1));
            }
        }
        if y < usize::MAX {
            if !self.done.contains(&(x, y + 1)) && self.is_water_at(x, y + 1) {
                touching.insert((x, y + 1));
            }
        }
        proof {
            assert(touching@ =~= old(touching)@.union(
                touching_of(old(self).grid(), old(self).spec_done(), x, y),
            ));
        }
    }

    /// Finds the first unmarked water cell in row-major order, and marks it.
    pub fn find_first_water_point(&mut self) -> (first: Option<(usize, usize)>)
        requires
            old(self).wf(),
        ensures
            final(self).spec_board() == old(self).spec_board(),
            match first {
                Some(c) => {
                    &&& old(self).grid().water(cell(c))
                    &&& !old(self).spec_done().contains(c)
                    &&& final(self).spec_done() == old(self).spec_done().insert(c)
                    &&& forall|p: Point|
                        p.before(cell(c)) && #[trigger] old(self).grid().water(p) ==> old(
                            self,
                        ).spec_done().contains((p.x, p.y))
                },
                None => {
                    &&& final(self).spec_done() == old(self).spec_done()
                    &&& forall|p: Point| #[trigger]
                        old(self).grid().water(p) ==> old(self).spec_done().contains((p.x, p.y))
                },
            },
    {
        let height = self.board.height();
        let width = self.board.width();
        let mut y: usize = 0;
        while y < height
            invariant
                y <= height,
                self.wf(),
                *self == *old(self),
                height == self.grid().height,
                width == self.grid().width,
                forall|p: Point|
                    p.y < y && #[trigger] self.grid().water(p) ==> self.spec_done().contains(
                        (p.x, p.y),
                    ),
            decreases height - y,
        {
            let mut x: usize = 0;
            while x < width
                invariant
                    x <= width,
                    y < height,
                    self.wf(),
                    *self == *old(self),
                    height == self.grid().height,
                    width == self.grid().width,
                    forall|p: Point|
                        (p.y < y || (p.y == y && p.x < x)) && #[trigger] self.grid().water(p)
                            ==> self.spec_done().contains((p.x, p.y)),
                decreases width - x,
            {
                if !self.done.contains(&(x, y)) && self.is_water_at(x, y) {
                    self.done.insert((x, y));
                    return Some((x, y));
                }
                x += 1;
            }
            y += 1;
        }
        None
    }

    /// Finds the unbroken run of water through `(sx, sy)`, marks its cells,
    /// and records the unmarked water cells directly above and below it.
    /// Where `(sx, sy)` is not water there is no run.
    pub fn find_line(&mut self, sx: usize, sy: usize) -> (line: Option<DetectedLineDef>)
        requires
            old(self).wf(),
        ensures
            final(self).spec_board() == old(self).spec_board(),
            match line {
                Some(line) => found_line(
                    old(self).grid(),
                    old(self).spec_done(),
                    sx,
                    sy,
                    line,
                    final(self).spec_done(),
                ),
                None => {
                    &&& !old(self).grid().water(Point { x: sx, y: sy })
                    &&& final(self).spec_done() == old(self).spec_done()
                },
            },
    {
        if !self.is_water_at(sx, sy) {
            return None;
        }
        let ghost g = self.grid();
        let ghost marked = self.spec_done();
        let mut touching: BTreeSet<(usize, usize)> = BTreeSet::new();
        self.update_touching(sx, sy, &mut touching);
        proof {
            assert(self.spec_done() =~= marked.union(span_cells(sy, sx, sx)));
            assert(touching@ =~= touching_of_span(g, marked, sy, sx, sx));
        }
        let mut end: usize = sx;
        while end < usize::MAX && self.is_water_at(end + 1, sy)
            invariant
                self.wf(),
                self.grid() == g,
                self.spec_board() == old(self).spec_board(),
                sx <= end,
                forall|p: Point| p.y == sy && sx <= p.x <= end ==> #[trigger] g.water(p),
                self.spec_done() == marked.union(span_cells(sy, sx, end)),
                touching@ == touching_of_span(g, marked, sy, sx, end),
                end < g.width,
            decreases g.width - end,
        {
            let ghost now = self.spec_done();
            self.update_touching(end + 1, sy, &mut touching);
            proof {
                assert(self.spec_done() =~= marked.union(span_cells(sy, sx, (end + 1) as usize)));
                lemma_touching_grows(g, marked, now, sy, sx, end, (end + 1) as usize);
            }
            end += 1;
        }
        let mut start: usize = sx;
        while start > 0 && self.is_water_at(start - 1, sy)
            invariant
                self.wf(),
                self.grid() == g,
                self.spec_board() == old(self).spec_board(),
                start <= sx <= end,
                forall|p: Point| p.y == sy && start <= p.x <= end ==> #[trigger] g.water(p),
                self.spec_done() == marked.union(span_cells(sy, start, end)),
                touching@ == touching_of_span(g, marked, sy, start, end),
            decreases start,
        {
            let ghost now = self.spec_done();
            self.update_touching(start - 1, sy, &mut touching);
            proof {
                assert(self.spec_done() =~= marked.union(
                    span_cells(sy, (start - 1) as usize, end),
                ));
                lemma_touching_grows(g, marked, now, sy, start, end, (start - 1) as usize);
            }
            start -= 1;
        }
        Some(DetectedLineDef { start, end, touching })
    }

    /// Takes the run of water through `(x, y)` into the blob and queues
    /// the unmarked water cells directly above and below it.
    fn absorb_line(
        &mut self,
        x: usize,
        y: usize,
        blob: &mut Blob,
        queue: &mut VecDeque<(usize, usize)>,
    ) -> (line: Option<DetectedLineDef>)
        requires
            old(self).wf(),
            old(blob).wf(),
        ensures
            final(self).spec_board() == old(self).spec_board(),
            final(blob).wf(),
            match line {
                Some(line) => {
                    &&& found_line(
                        old(self).grid(),
                        old(self).spec_done(),
                        x,
                        y,
                        line,
                        final(self).spec_done(),
                    )
                    &&& forall|p: Point| #[trigger]
                        final(blob)@.contains(p) <==> old(blob)@.contains(p) || (p.y == y
                            && line.start <= p.x <= line.end)
                    &&& exists|seeds: Seq<(usize, usize)>|
                        #![trigger seeds.to_set()]
                        final(queue)@ == old(queue)@ + seeds && seeds.to_set() == line.touching@
                            && seeds.no_duplicates() && increasing_seq(seeds)
                },
                None => {
                    &&& !old(self).grid().water(Point { x, y })
                    &&& final(self).spec_done() == old(self).spec_done()
                    &&& final(blob)@ == old(blob)@
                    &&& final(queue)@ == old(queue)@
                },
            },
    {
        let found = self.find_line(x, y);
        match found {
            Some(line) => {
                blob.extend_span(y, line.start, line.end);
                let ghost entries = line.touching.iter().remaining();
                for seed in it: line.touching.iter()
                    invariant
                        it.seq() == entries,
                        entries.unref().to_set() == line.touching@,
                        entries.no_duplicates(),
                        increasing_seq(entries),
                        queue@ == old(queue)@ + entries.unref().take(it.index()),
                {
                    queue.push_back(*seed);
                    proof {
                        assert(entries.unref().take(it.index() + 1) =~= entries.unref().take(
                            it.index(),
                        ).push(*seed));
                    }
                }
                proof {
                    assert(entries.unref().take(entries.len() as int) =~= entries.unref());
                    Self::lemma_seeds_listed(entries);
                }
                Some(line)
            },
            None => None,
        }
    }

    /// The blobs of the board: its water, partitioned into maximal
    /// 4-connected groups by flooding runs of water row by row. Handles
    /// count up from zero in the order in which the blobs are met, scanning
    /// the board from the top left.
    pub fn detect_quick(&mut self) -> (blobs: Blobs)
        requires
            old(self).wf(),
        ensures
            final(self).spec_board() == old(self).spec_board(),
            is_component_partition(old(self).grid(), blob_sets(blobs@)),
            forall|k: usize| blobs@.contains_key(k) ==> (#[trigger] blobs@[k]).wf(),
            forall|p: Point|
                final(self).spec_done().contains((p.x, p.y)) <==> #[trigger] old(
                    self,
                ).grid().water(p),
    {
        self.done.clear();
        let mut blobs: Blobs = BTreeMap::new();
        let ghost g = self.grid();
        let ghost all = cells(g.width, g.height);
        proof {
            lemma_cells_finite(g.width, g.height);
            assert(blob_sets(blobs@).dom() =~= Set::<usize>::empty());
            assert(parts_in_scan_order(blob_sets(blobs@))) by {
                reveal(parts_in_scan_order);
            }
        }
        loop
            invariant
                self.wf(),
                self.grid() == g,
                self.spec_board() == old(self).spec_board(),
                all == cells(g.width, g.height),
                all.finite(),
                pass_inv(g, blob_sets(blobs@), self.spec_done()),
                forall|k: usize| blobs@.contains_key(k) ==> (#[trigger] blobs@[k]).wf(),
            decreases all.difference(self.spec_done()).len(),
        {
            let ghost earlier = self.spec_done();
            let ghost parts = blob_sets(blobs@);
            let first = self.find_first_water_point();
            let (x, y) = match first {
                Some(c) => c,
                None => {
                    proof {
                        lemma_pass_complete(g, parts, earlier);
                        assert forall|p: Point|
                            self.spec_done().contains((p.x, p.y)) implies #[trigger] g.water(p) by {
                            assert(covered(parts, p));
                            let k = choose|k: usize|
                                parts.dom().contains(k) && #[trigger] parts[k].contains(p);
                        }
                    }
                    return blobs;
                },
            };
            let ghost seed = Point { x, y };
            let ghost marked = self.spec_done();
            proof {
                lemma_pass_closed(g, parts, earlier);
                lemma_connected_refl(g, seed);
            }
            let mut blob: Blob = Blob::default();
            let mut to_be_analyzed: VecDeque<(usize, usize)> = VecDeque::new();
            let line = self.absorb_line(x, y, &mut blob, &mut to_be_analyzed);
            proof {
                let line = line.unwrap();
                let seeds = choose|seeds: Seq<(usize, usize)>|
                    #![trigger seeds.to_set()]
                    to_be_analyzed@ == Seq::<(usize, usize)>::empty() + seeds && seeds.to_set()
                        == line.touching@ && seeds.no_duplicates() && increasing_seq(seeds);
                assert forall|t: (usize, usize)|
                    #![trigger seeds.contains(t)]
                    seeds.contains(t) <==> line.touching@.contains(t) by {
                    assert(seeds.contains(t) <==> seeds.to_set().contains(t));
                }
                lemma_absorb(
                    g,
                    earlier,
                    seed,
                    true,
                    marked,
                    Set::empty(),
                    Seq::empty(),
                    (x, y),
                    line.start,
                    line.end,
                    seeds,
                    self.spec_done(),
                    blob@,
                );
            }
            while to_be_analyzed.len() > 0
                invariant
                    self.wf(),
                    self.grid() == g,
                    self.spec_board() == old(self).spec_board(),
                    all == cells(g.width, g.height),
                    all.finite(),
                    blob.wf(),
                    flood_ctx(g, earlier, seed),
                    flood_inv(g, earlier, seed, self.spec_done(), blob@, to_be_analyzed@),
                decreases all.difference(self.spec_done()).len(), to_be_analyzed.len(),
            {
                let ghost waiting = to_be_analyzed@;
                let ghost marked = self.spec_done();
                let ghost taken = blob@;
                let (sx, sy) = to_be_analyzed.pop_front().unwrap();
                if self.done.contains(&(sx, sy)) {
                    proof {
                        lemma_skip(g, earlier, seed, marked, taken, waiting);
                    }
                } else {
                    let line = self.absorb_line(sx, sy, &mut blob, &mut to_be_analyzed);
                    proof {
                        let line = line.unwrap();
                        assert forall|p: Point, q: Point|
                            #![trigger taken.contains(p), adjacent(p, q)]
                            taken.contains(p) && g.water(q) && adjacent(p, q) implies taken.contains(
                            q,
                        ) || waiting.drop_first().contains((q.x, q.y)) || (q.x, q.y) == (
                            sx,
                            sy,
                        ) by {
                            if !taken.contains(q) {
                                let k = choose|k: int|
                                    0 <= k < waiting.len() && waiting[k] == (q.x, q.y);
                                if k > 0 {
                                    assert(waiting.drop_first()[k - 1] == (q.x, q.y));
                                }
                            }
                        }
                        let seeds = choose|seeds: Seq<(usize, usize)>|
                            #![trigger seeds.to_set()]
                            to_be_analyzed@ == waiting.drop_first() + seeds && seeds.to_set()
                                == line.touching@ && seeds.no_duplicates() && increasing_seq(seeds);
                        assert forall|t: (usize, usize)|
                            #![trigger seeds.contains(t)]
                            seeds.contains(t) <==> line.touching@.contains(t) by {
                            assert(seeds.contains(t) <==> seeds.to_set().contains(t));
                        }
                        lemma_absorb(
                            g,
                            earlier,
                            seed,
                            false,
                            marked,
                            taken,
                            waiting.drop_first(),
                            (sx, sy),
                            line.start,
                            line.end,
                            seeds,
                            self.spec_done(),
                            blob@,
                        );
                        lemma_unmarked_shrinks(all, marked, self.spec_done());
                    }
                }
            }
            let handle = blobs.len();
            proof {
                assert(parts.dom() =~= blobs@.dom());
                lemma_add_part(g, parts, earlier, seed, self.spec_done(), blob@, handle);
                lemma_unmarked_shrinks(all, earlier, self.spec_done());
            }
            let ghost found = blob@;
            blobs.insert(handle, blob);
            proof {
                assert(blob_sets(blobs@) =~= parts.insert(handle, found));
            }
        }
    }

    /// Visits the cell `(x, y)`. Where it is water that was neither visited
    /// nor taken into the blob, takes it into the blob and goes on to its
    /// four neighbours, so that in the end the blob has taken in everything
    /// that a walk from the cell reaches over water that was neither
    /// visited nor in the blob before.
    pub fn _try_insert_blob(
        &self,
        x: usize,
        y: usize,
        current_blob: &mut Blob,
        visited: &mut BTreeSet<(usize, usize)>,
    )
        requires
            self.wf(),
            old(current_blob).wf(),
        ensures
            final(current_blob).wf(),
            forall|q: Point|
                newly_blocked(
                    old(visited)@,
                    old(current_blob)@,
                    final(visited)@,
                    final(current_blob)@,
                    q,
                ) <==> #[trigger] connected_avoiding(
                    self.grid(),
                    blocked(old(visited)@, old(current_blob)@),
                    Point { x, y },
                    q,
                ),
            flooded(
                self.grid(),
                Point { x, y },
                old(visited)@,
                old(current_blob)@,
                final(visited)@,
                final(current_blob)@,
            ),
        decreases cells(self.grid().width, self.grid().height).difference(old(visited)@).len(),
    {
        let ghost g = self.grid();
        let ghost v0 = visited@;
        let ghost b0 = current_blob@;
        let ghost avoid = blocked(v0, b0);
        let here = Point::new(x, y);
        if visited.contains(&(x, y)) || !self.is_water_at(x, y) || current_blob.contains(&here) {
            proof {
                Self::lemma_flooded_exact(g, here, v0, b0, v0, b0);
            }
            return ;
        }
        let ghost all = cells(g.width, g.height);
        proof {
            lemma_cells_finite(g.width, g.height);
            lemma_avoiding_refl(g, avoid, here);
        }
        current_blob.insert(here);
        visited.insert((x, y));
        let ghost v1 = visited@;
        let ghost b1 = current_blob@;
        proof {
            lemma_unmarked_shrinks(all, v0, v1);
        }
        if x < usize::MAX {
            self._try_insert_blob(x + 1, y, current_blob, visited);
        }
        let ghost v2 = visited@;
        let ghost b2 = current_blob@;
        proof {
            lemma_unmarked_shrinks(all, v1, v2);
            Self::lemma_neighbour_flooded(
                g,
                here,
                if x < usize::MAX { Point { x: (x + 1) as usize, y } } else { here },
                v0,
                b0,
                v1,
                b1,
                v2,
                b2,
            );
        }
        if x > 0 {
            self._try_insert_blob(x - 1, y, current_blob, visited);
        }
        let ghost v3 = visited@;
        let ghost b3 = current_blob@;
        proof {
            lemma_unmarked_shrinks(all, v2, v3);
            Self::lemma_neighbour_flooded(
                g,
                here,
                if x > 0 { Point { x: (x - 1) as usize, y } } else { here },
                v0,
                b0,
                v2,
                b2,
                v3,
                b3,
            );
        }
        if y < usize::MAX {
            self._try_insert_blob(x, y + 1, current_blob, visited);
        }
        let ghost v4 = visited@;
        let ghost b4 = current_blob@;
        proof {
            lemma_unmarked_shrinks(all, v3, v4);
            Self::lemma_neighbour_flooded(
                g,
                here,
                if y < usize::MAX { Point { x, y: (y + 1) as usize } } else { here },
                v0,
                b0,
                v3,
                b3,
                v4,
                b4,
            );
        }
        if y > 0 {
            self._try_insert_blob(x, y - 1, current_blob, visited);
        }
        proof {
            let v5 = visited@;
            let b5 = current_blob@;
            Self::lemma_neighbour_flooded(
                g,
                here,
                if y > 0 { Point { x, y: (y - 1) as usize } } else { here },
                v0,
                b0,
                v4,
                b4,
                v5,
                b5,
            );
            Self::lemma_flooded_exact(g, here, v0, b0, v5, b5);
        }
    }

    /// After a neighbour `next` of `here` was visited, what was taken in
    /// since the visit of `here` began is reached from `here`.
    proof fn lemma_neighbour_flooded(
        g: Grid,
        here: Point,
        next: Point,
        v0: Set<(usize, usize)>,
        b0: Set<Point>,
        before_v: Set<(usize, usize)>,
        before_b: Set<Point>,
        after_v: Set<(usize, usize)>,
        after_b: Set<Point>,
    )
        requires
            g.water(here),
            !blocked(v0, b0).contains(here),
            (before_v == after_v && before_b == after_b && next == here) || (adjacent(here, next)
                && flooded(
                g,
                next,
                before_v,
                before_b,
                after_v,
                after_b,
            )),
            grown(v0, b0, before_v, before_b),
            forall|p: Point| #[trigger]
                newly_blocked(v0, b0, before_v, before_b, p) ==> connected_avoiding(
                    g,
                    blocked(v0, b0),
                    here,
                    p,
                ) && before_v.contains((p.x, p.y)) && before_b.contains(p),
        ensures
            grown(v0, b0, after_v, after_b),
            grown(before_v, before_b, after_v, after_b),
            forall|p: Point| #[trigger]
                newly_blocked(v0, b0, after_v, after_b, p) ==> connected_avoiding(
                    g,
                    blocked(v0, b0),
                    here,
                    p,
                ) && after_v.contains((p.x, p.y)) && after_b.contains(p),
            forall|p: Point|
                newly_blocked(v0, b0, after_v, after_b, p) ==> #[trigger] newly_blocked(
                    v0,
                    b0,
                    before_v,
                    before_b,
                    p,
                ) || newly_blocked(before_v, before_b, after_v, after_b, p),
            adjacent(here, next) && g.water(next) ==> blocked(after_v, after_b).contains(next),
            forall|p: Point, q: Point|
                #![trigger blocked(after_v, after_b).contains(p), adjacent(p, q)]
                newly_blocked(before_v, before_b, after_v, after_b, p) && g.water(q) && adjacent(
                    p,
                    q,
                ) ==> blocked(after_v, after_b).contains(q),
    {
        assert forall|p: Point| #[trigger]
            newly_blocked(v0, b0, after_v, after_b, p) implies connected_avoiding(
            g,
            blocked(v0, b0),
            here,
            p,
        ) && after_v.contains((p.x, p.y)) && after_b.contains(p) by {
            if !newly_blocked(v0, b0, before_v, before_b, p) {
                lemma_avoiding_prepend(
                    g,
                    blocked(v0, b0),
                    blocked(before_v, before_b),
                    here,
                    next,
                    p,
                );
            }
        }
    }

    /// What a visit has taken in is all that a walk reaches from its cell.
    proof fn lemma_flooded_exact(
        g: Grid,
        here: Point,
        v0: Set<(usize, usize)>,
        b0: Set<Point>,
        v1: Set<(usize, usize)>,
        b1: Set<Point>,
    )
        requires
            flooded(g, here, v0, b0, v1, b1),
        ensures
            forall|q: Point|
                newly_blocked(v0, b0, v1, b1, q) <==> #[trigger] connected_avoiding(
                    g,
                    blocked(v0, b0),
                    here,
                    q,
                ),
    {
        let found = Set::new(|q: Point| newly_blocked(v0, b0, v1, b1, q));
        lemma_flood_exact(g, blocked(v0, b0), here, found);
        assert forall|q: Point|
            newly_blocked(v0, b0, v1, b1, q) <==> #[trigger] connected_avoiding(
                g,
                blocked(v0, b0),
                here,
                q,
            ) by {
            assert(found.contains(q) <==> newly_blocked(v0, b0, v1, b1, q));
        }
    }

    /// Whether one of the blobs holds the cell `(x, y)`.
    pub fn already_detected(&self, x: usize, y: usize, detected: &Blobs) -> (found: bool)
        requires
            forall|k: usize| detected@.contains_key(k) ==> (#[trigger] detected@[k]).wf(),
        ensures
            found == covered(blob_sets(detected@), Point { x, y }),
    {
        let here = Point::new(x, y);
        let ghost parts = blob_sets(detected@);
        let ghost entries = detected.iter().remaining();
        for entry in it: detected.iter()
            invariant
                here == (Point { x, y }),
                it.seq() == entries,
                entries.len() == detected@.dom().len(),
                forall|i: int|
                    0 <= i < entries.len() ==> detected@.contains_key(*(#[trigger] entries[i]).0)
                        && detected@[*entries[i].0] == *entries[i].1,
                forall|k: usize| #[trigger]
                    detected@.contains_key(k) ==> entries.contains((&k, &detected@[k])),
                forall|i: int| 0 <= i < it.index() ==> !(#[trigger] entries[i]).1@.contains(here),
                forall|k: usize| detected@.contains_key(k) ==> (#[trigger] detected@[k]).wf(),
                parts == blob_sets(detected@),
        {
            if entry.1.contains(&here) {
                proof {
                    assert(parts[*entry.0].contains(here));
                }
                return true;
            }
        }
        false
    }

    /// The blobs of the board, found by flooding from each cell in turn to
    /// its four neighbours. It finds what `detect_quick` finds, a cell at a
    /// time, and serves to check it.
    pub fn detect_slow(&self) -> (blobs: Blobs)
        requires
            self.wf(),
        ensures
            is_component_partition(self.grid(), blob_sets(blobs@)),
            forall|k: usize| blobs@.contains_key(k) ==> (#[trigger] blobs@[k]).wf(),
    {
        let mut detected: Blobs = BTreeMap::new();
        let ghost g = self.grid();
        let height = self.board.height();
        let width = self.board.width();
        proof {
            assert(blob_sets(detected@).dom() =~= Set::<usize>::empty());
            assert(parts_in_scan_order(blob_sets(detected@))) by {
                reveal(parts_in_scan_order);
            }
        }
        let mut y: usize = 0;
        while y < height
            invariant
                y <= height,
                self.wf(),
                self.grid() == g,
                height == g.height,
                width == g.width,
                pass_inv(g, blob_sets(detected@), marked_cells(blob_sets(detected@))),
                forall|k: usize| detected@.contains_key(k) ==> (#[trigger] detected@[k]).wf(),
                forall|p: Point|
                    p.y < y && #[trigger] g.water(p) ==> covered(blob_sets(detected@), p),
            decreases height - y,
        {
            let mut x: usize = 0;
            while x < width
                invariant
                    x <= width,
                    y < height,
                    self.wf(),
                    self.grid() == g,
                    height == g.height,
                    width == g.width,
                    pass_inv(g, blob_sets(detected@), marked_cells(blob_sets(detected@))),
                    forall|k: usize| detected@.contains_key(k) ==> (#[trigger] detected@[k]).wf(),
                    forall|p: Point|
                        (p.y < y || (p.y == y && p.x < x)) && #[trigger] g.water(p) ==> covered(
                            blob_sets(detected@),
                            p,
                        ),
                decreases width - x,
            {
                let ghost parts = blob_sets(detected@);
                let ghost earlier = marked_cells(parts);
                if !self.already_detected(x, y, &detected) {
                    let mut current_blob: Blob = Blob::default();
                    let mut visited: BTreeSet<(usize, usize)> = BTreeSet::new();
                    self._try_insert_blob(x, y, &mut current_blob, &mut visited);
                    if !current_blob.is_empty() {
                        let handle = detected.len();
                        let ghost found = current_blob@;
                        let ghost seed = Point { x, y };
                        proof {
                            assert(parts.dom() =~= detected@.dom());
                            let p = current_blob.spec_points()[0];
                            let nothing = blocked(Set::empty(), Set::empty());
                            lemma_avoiding_connected(g, nothing, seed, p);
                            lemma_pass_closed(g, parts, earlier);
                            let done = earlier.union(visited@);
                            assert forall|c: (usize, usize)| #[trigger]
                                done.contains(c) <==> earlier.contains(c) || found.contains(
                                    cell(c),
                                ) by {
                                if found.contains(cell(c)) {
                                    assert(newly_blocked(
                                        Set::empty(),
                                        Set::empty(),
                                        visited@,
                                        found,
                                        cell(c),
                                    ));
                                }
                            }
                            assert forall|p: Point| #[trigger] found.contains(p) implies connected(
                                g,
                                seed,
                                p,
                            ) by {
                                lemma_avoiding_connected(g, nothing, seed, p);
                            }
                            lemma_add_part(g, parts, earlier, seed, done, found, handle);
                        }
                        detected.insert(handle, current_blob);
                        proof {
                            assert(blob_sets(detected@) =~= parts.insert(handle, found));
                            assert forall|p: Point| #[trigger] covered(parts, p) implies covered(
                                blob_sets(detected@),
                                p,
                            ) by {
                                let k = choose|k: usize|
                                    parts.dom().contains(k) && #[trigger] parts[k].contains(p);
                            }
                        }
                    }
                }
                x += 1;
            }
            y += 1;
        }
        proof {
            let parts = blob_sets(detected@);
            let done = marked_cells(parts);
            lemma_pass_complete(g, parts, done);
        }
        detected
    }

    /// The cells that a walk over a set yields come each once and in
    /// ascending order.
    proof fn lemma_seeds_listed(entries: Seq<&(usize, usize)>)
        requires
            entries.no_duplicates(),
            increasing_seq(entries),
        ensures
            entries.unref().no_duplicates(),
            increasing_seq(entries.unref()),
    {
        broadcast use vstd::laws_cmp::group_laws_cmp;

        let seeds = entries.unref();
        vstd::std_specs::btree::axiom_increasing_seq_meaning::<&(usize, usize)>(entries);
        vstd::std_specs::btree::axiom_increasing_seq_meaning::<(usize, usize)>(seeds);
        assert forall|i: int, j: int| 0 <= i < j < seeds.len() implies seeds[i].cmp_spec(
            &seeds[j],
        ) is Less by {
            assert((&entries[i]).cmp_spec(&entries[j]) is Less);
        }
    }
}

} // verus!
