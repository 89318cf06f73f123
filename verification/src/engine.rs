//! The tick engine: one step of the simulation moves every droplet of
//! every blob, lifts a droplet of each blob that did not sink, and finds
//! the blobs anew.
use std::collections::BTreeMap;
use rand::rngs::StdRng;
use vstd::prelude::*;
use vstd::std_specs::iter::IteratorSpec;
use crate::blob_detector::BlobDetector;
use crate::blobs::{blob_sets, in_row, Blob, Blobs};
use crate::board::Board;
use crate::components::is_component_partition;
use crate::grid::{lemma_droplet_move_keeps_matter, same_matter, Grid};
use crate::point::Point;
use crate::random::{choose_point, random_bool};
use crate::tiles::Tile;

verus! {

/// Whether the cell at `(x, y)` exists and is vacant.
pub open spec fn vacant(g: Grid, x: int, y: int) -> bool {
    g.tile(x, y) == Some(Tile::Air)
}

/// Whether the droplet at `p` has both sides open and cannot sink, so that
/// a coin decides where it goes.
pub open spec fn undecided(g: Grid, p: Point) -> bool {
    &&& g.water(p)
    &&& !vacant(g, p.x as int, p.y + 1)
    &&& vacant(g, p.x - 1, p.y as int)
    &&& vacant(g, p.x + 1, p.y as int)
}

/// Where the droplet at `p` goes in one step: down where the cell below is
/// vacant; else to the side that is vacant, to the left on `coin` where
/// both are; else nowhere. What is not water goes nowhere.
pub open spec fn destination(g: Grid, p: Point, coin: bool) -> Point {
    if !g.water(p) {
        p
    } else if vacant(g, p.x as int, p.y + 1) {
        Point { x: p.x, y: (p.y + 1) as usize }
    } else if vacant(g, p.x - 1, p.y as int) && (coin || !vacant(g, p.x + 1, p.y as int)) {
        Point { x: (p.x - 1) as usize, y: p.y }
    } else if vacant(g, p.x + 1, p.y as int) {
        Point { x: (p.x + 1) as usize, y: p.y }
    } else {
        p
    }
}

/// The coin decides nothing but the way of an undecided droplet.
pub proof fn lemma_coin_decides_the_undecided_only(g: Grid, p: Point)
    ensures
        !undecided(g, p) ==> destination(g, p, true) == destination(g, p, false),
{
}

/// The grid after the droplet at `p` has gone to `dest`.
pub open spec fn after_move(g: Grid, p: Point, dest: Point) -> Grid {
    if dest == p {
        g
    } else {
        g.swapped(p.x as int, p.y as int, dest.x as int, dest.y as int)
    }
}

/// The topmost row that holds one of the points; the largest row number
/// there is where there is no point.
pub open spec fn min_row(points: Seq<Point>) -> usize
    decreases points.len(),
{
    if points.len() == 0 {
        usize::MAX
    } else {
        let rest = min_row(points.drop_last());
        if points.last().y < rest {
            points.last().y
        } else {
            rest
        }
    }
}

/// The cell directly above a point.
pub open spec fn above(p: Point) -> Point {
    Point { x: p.x, y: (p.y - 1) as usize }
}

/// The test for a point below row `top` with a vacant cell directly above it.
pub open spec fn sink_test(g: Grid, top: usize) -> spec_fn(Point) -> bool {
    |p: Point| p.y != top && vacant(g, p.x as int, p.y - 1)
}

/// The points of the topmost row, one of which buoyancy lifts.
pub open spec fn buoyancy_tops(points: Seq<Point>) -> Seq<Point> {
    points.filter(in_row(min_row(points)))
}

/// The points below the topmost row that have a vacant cell directly above.
pub open spec fn buoyancy_sinks(g: Grid, points: Seq<Point>) -> Seq<Point> {
    points.filter(sink_test(g, min_row(points)))
}

/// The vacant cells into which buoyancy may lift a droplet: those directly
/// above the topmost of the sinks.
pub open spec fn buoyancy_pockets(g: Grid, points: Seq<Point>) -> Seq<Point> {
    let sinks = buoyancy_sinks(g, points);
    sinks.filter(in_row(min_row(sinks))).map_values(lift())
}

/// The step from a point to the cell directly above it.
pub open spec fn lift() -> spec_fn(Point) -> Point {
    |p: Point| above(p)
}

/// The grid after buoyancy has lifted the droplet at `top` into `pocket`:
/// nothing happens unless the one is water and the other vacant.
pub open spec fn after_lift(g: Grid, top: Point, pocket: Point) -> Grid {
    if g.water(top) && g.at(pocket) == Some(Tile::Air) {
        g.swapped(top.x as int, top.y as int, pocket.x as int, pocket.y as int)
    } else {
        g
    }
}

/// What moving the droplets of a blob has come to: the grid, where the
/// droplets are now, and whether one of them sank.
pub struct BlobRun {
    pub grid: Grid,
    pub landed: Seq<Point>,
    pub sank: bool,
}

/// Moves the droplets at the points of `order` one after the other, the
/// coin of each deciding between two open sides. A point that holds no
/// water when its turn comes is passed over.
pub open spec fn run_droplets(g: Grid, order: Seq<Point>, coins: Seq<bool>) -> BlobRun
    decreases order.len(),
{
    if order.len() == 0 {
        BlobRun { grid: g, landed: Seq::empty(), sank: false }
    } else {
        let so_far = run_droplets(g, order.drop_last(), coins.drop_last());
        let p = order.last();
        if so_far.grid.water(p) {
            let dest = destination(so_far.grid, p, coins.last());
            BlobRun {
                grid: after_move(so_far.grid, p, dest),
                landed: so_far.landed.push(dest),
                sank: so_far.sank || dest.y != p.y,
            }
        } else {
            so_far
        }
    }
}

/// Whether `order` lists the points once each, lower rows first.
pub open spec fn bottom_up(points: Set<Point>, order: Seq<Point>) -> bool {
    &&& order.no_duplicates()
    &&& order.to_set() == points
    &&& forall|i: int, j: int|
        0 <= i < j < order.len() ==> (#[trigger] order[i]).y >= (#[trigger] order[j]).y
}

/// Whether `run` is a way in which the droplets of a blob can move in one
/// tick: they move one after the other, lower rows first, in some order
/// within a row and with some fall of the coins.
pub open spec fn is_blob_run(g: Grid, blob: Set<Point>, run: BlobRun) -> bool {
    exists|order: Seq<Point>, coins: Seq<bool>|
        #![trigger run_droplets(g, order, coins)]
        bottom_up(blob, order) && coins.len() == order.len() && run == run_droplets(
            g,
            order,
            coins,
        )
}

/// Whether `after` is a grid that buoyancy can make of `g`, the droplets
/// of the blob being at `landed`: one droplet of their topmost row is
/// lifted into one of the pockets; nothing happens where there is no
/// pocket.
pub open spec fn is_buoyancy_outcome(g: Grid, landed: Seq<Point>, after: Grid) -> bool {
    let tops = buoyancy_tops(landed);
    let pockets = buoyancy_pockets(g, landed);
    if tops.len() == 0 || pockets.len() == 0 {
        after == g
    } else {
        exists|i: int, j: int|
            #![trigger tops[i], pockets[j]]
            0 <= i < tops.len() && 0 <= j < pockets.len() && after == after_lift(
                g,
                tops[i],
                pockets[j],
            )
    }
}

/// Whether `after` is a grid that one tick can make of `g` by moving the
/// blob: its droplets move, and where none of them sank, buoyancy follows.
pub open spec fn is_blob_outcome(g: Grid, blob: Set<Point>, after: Grid) -> bool {
    exists|run: BlobRun| #[trigger]
        is_blob_run(g, blob, run) && if run.sank {
            after == run.grid
        } else {
            is_buoyancy_outcome(run.grid, run.landed, after)
        }
}

/// Whether `after` is a grid that one tick can make of `g` by moving the
/// blobs one after the other.
pub open spec fn is_tick_outcome(g: Grid, blobs: Seq<Set<Point>>, after: Grid) -> bool
    decreases blobs.len(),
{
    if blobs.len() == 0 {
        after == g
    } else {
        exists|between: Grid|
            is_tick_outcome(g, blobs.drop_last(), between) && #[trigger] is_blob_outcome(
                between,
                blobs.last(),
                after,
            )
    }
}

/// A tick that has moved some blobs goes on with the next one.
pub proof fn lemma_tick_goes_on(g: Grid, blobs: Seq<Set<Point>>, between: Grid, after: Grid)
    requires
        blobs.len() > 0,
        is_tick_outcome(g, blobs.drop_last(), between),
        is_blob_outcome(between, blobs.last(), after),
    ensures
        is_tick_outcome(g, blobs, after),
{
}

/// Holding the same matter carries over from grid to grid.
pub proof fn lemma_same_matter_trans(a: Grid, b: Grid, c: Grid)
    requires
        same_matter(a, b),
        same_matter(b, c),
    ensures
        same_matter(a, c),
{
}

/// However the droplets of a blob move, water is neither made nor lost
/// and rock stays where it is.
pub proof fn lemma_run_keeps_matter(g: Grid, order: Seq<Point>, coins: Seq<bool>)
    requires
        g.wf(),
        g.width <= usize::MAX,
        g.height <= usize::MAX,
    ensures
        run_droplets(g, order, coins).grid.wf(),
        same_matter(g, run_droplets(g, order, coins).grid),
    decreases order.len(),
{
    if order.len() > 0 {
        lemma_run_keeps_matter(g, order.drop_last(), coins.drop_last());
        let so_far = run_droplets(g, order.drop_last(), coins.drop_last());
        let p = order.last();
        let dest = destination(so_far.grid, p, coins.last());
        if so_far.grid.water(p) && dest != p {
            lemma_droplet_move_keeps_matter(so_far.grid, p, dest);
            lemma_same_matter_trans(g, so_far.grid, after_move(so_far.grid, p, dest));
        }
    }
}

/// Whatever a tick makes of the grid of a board, water is neither made
/// nor lost and rock stays where it is.
pub proof fn lemma_tick_keeps_matter(g: Grid, blobs: Seq<Set<Point>>, after: Grid)
    requires
        g.wf(),
        g.width <= usize::MAX,
        g.height <= usize::MAX,
        is_tick_outcome(g, blobs, after),
    ensures
        after.wf(),
        same_matter(g, after),
    decreases blobs.len(),
{
    if blobs.len() > 0 {
        let between = choose|between: Grid|
            is_tick_outcome(g, blobs.drop_last(), between) && #[trigger] is_blob_outcome(
                between,
                blobs.last(),
                after,
            );
        lemma_tick_keeps_matter(g, blobs.drop_last(), between);
        let run = choose|run: BlobRun| #[trigger]
            is_blob_run(between, blobs.last(), run) && if run.sank {
                after == run.grid
            } else {
                is_buoyancy_outcome(run.grid, run.landed, after)
            };
        let (order, coins) = choose|order: Seq<Point>, coins: Seq<bool>|
            #![trigger run_droplets(between, order, coins)]
            bottom_up(blobs.last(), order) && coins.len() == order.len() && run == run_droplets(
                between,
                order,
                coins,
            );
        lemma_run_keeps_matter(between, order, coins);
        if !run.sank {
            let tops = buoyancy_tops(run.landed);
            let pockets = buoyancy_pockets(run.grid, run.landed);
            if tops.len() > 0 && pockets.len() > 0 {
                let (i, j) = choose|i: int, j: int|
                    #![trigger tops[i], pockets[j]]
                    0 <= i < tops.len() && 0 <= j < pockets.len() && after == after_lift(
                        run.grid,
                        tops[i],
                        pockets[j],
                    );
                if run.grid.water(tops[i]) && run.grid.at(pockets[j]) == Some(Tile::Air) {
                    lemma_droplet_move_keeps_matter(run.grid, tops[i], pockets[j]);
                }
            }
        }
        lemma_same_matter_trans(between, run.grid, after);
        lemma_same_matter_trans(g, between, after);
    }
}

/// What is drawn for one blob in a tick: the order in which its droplets
/// move, the coin of each, and the places of the droplet and of the pocket
/// that buoyancy takes from its lists.
pub struct BlobDraws {
    pub order: Seq<Point>,
    pub coins: Seq<bool>,
    pub top: int,
    pub pocket: int,
}

/// The grid after buoyancy has lifted the droplet at place `top` of the
/// top row into the pocket at place `pocket`; the same grid where there
/// is no droplet or no pocket.
pub open spec fn buoyancy_result(g: Grid, landed: Seq<Point>, top: int, pocket: int) -> Grid {
    let tops = buoyancy_tops(landed);
    let pockets = buoyancy_pockets(g, landed);
    if tops.len() == 0 || pockets.len() == 0 {
        g
    } else {
        after_lift(g, tops[top], pockets[pocket])
    }
}

/// The grid after a blob has moved as drawn: its droplets move, and where
/// none of them sank, buoyancy follows.
pub open spec fn blob_result(g: Grid, draws: BlobDraws) -> Grid {
    let run = run_droplets(g, draws.order, draws.coins);
    if run.sank {
        run.grid
    } else {
        buoyancy_result(run.grid, run.landed, draws.top, draws.pocket)
    }
}

/// Whether the draws are such as can be drawn for the blob on the grid:
/// the order lists its points lower rows first, each point has its coin,
/// and the places that buoyancy takes lie within its lists.
pub open spec fn draws_fit_blob(g: Grid, blob: Set<Point>, draws: BlobDraws) -> bool {
    let run = run_droplets(g, draws.order, draws.coins);
    let tops = buoyancy_tops(run.landed);
    let pockets = buoyancy_pockets(run.grid, run.landed);
    &&& bottom_up(blob, draws.order)
    &&& draws.coins.len() == draws.order.len()
    &&& !run.sank && tops.len() > 0 && pockets.len() > 0 ==> 0 <= draws.top < tops.len() && 0
        <= draws.pocket < pockets.len()
}

/// The grid after the blobs have moved as drawn, one after the other.
pub open spec fn tick_result(g: Grid, draws: Seq<BlobDraws>) -> Grid
    decreases draws.len(),
{
    if draws.len() == 0 {
        g
    } else {
        blob_result(tick_result(g, draws.drop_last()), draws.last())
    }
}

/// Whether the draws are such as can be drawn for the blobs in one tick.
pub open spec fn draws_fit(g: Grid, blobs: Seq<Set<Point>>, draws: Seq<BlobDraws>) -> bool
    decreases draws.len(),
{
    &&& draws.len() == blobs.len()
    &&& draws.len() > 0 ==> draws_fit(g, blobs.drop_last(), draws.drop_last()) && draws_fit_blob(
        tick_result(g, draws.drop_last()),
        blobs.last(),
        draws.last(),
    )
}

/// Whatever a tick makes of a grid, it makes by what is drawn: every
/// outcome of a tick is the result of draws that fit.
pub proof fn lemma_outcome_has_draws(g: Grid, blobs: Seq<Set<Point>>, after: Grid) -> (draws: Seq<
    BlobDraws,
>)
    requires
        is_tick_outcome(g, blobs, after),
    ensures
        draws_fit(g, blobs, draws),
        after == tick_result(g, draws),
    decreases blobs.len(),
{
    if blobs.len() == 0 {
        Seq::empty()
    } else {
        let between = choose|between: Grid|
            is_tick_outcome(g, blobs.drop_last(), between) && #[trigger] is_blob_outcome(
                between,
                blobs.last(),
                after,
            );
        let earlier = lemma_outcome_has_draws(g, blobs.drop_last(), between);
        let run = choose|run: BlobRun| #[trigger]
            is_blob_run(between, blobs.last(), run) && if run.sank {
                after == run.grid
            } else {
                is_buoyancy_outcome(run.grid, run.landed, after)
            };
        let (order, coins) = choose|order: Seq<Point>, coins: Seq<bool>|
            #![trigger run_droplets(between, order, coins)]
            bottom_up(blobs.last(), order) && coins.len() == order.len() && run == run_droplets(
                between,
                order,
                coins,
            );
        let tops = buoyancy_tops(run.landed);
        let pockets = buoyancy_pockets(run.grid, run.landed);
        let (top, pocket) = if !run.sank && tops.len() > 0 && pockets.len() > 0 {
            choose|i: int, j: int|
                #![trigger tops[i], pockets[j]]
                0 <= i < tops.len() && 0 <= j < pockets.len() && after == after_lift(
                    run.grid,
                    tops[i],
                    pockets[j],
                )
        } else {
            (0int, 0int)
        };
        let last = BlobDraws { order, coins, top, pocket };
        let draws = earlier.push(last);
        assert(draws.drop_last() =~= earlier);
        assert(draws.last() == last);
        draws
    }
}

/// What fitting draws give is an outcome of a tick.
pub proof fn lemma_draws_give_outcome(g: Grid, blobs: Seq<Set<Point>>, draws: Seq<BlobDraws>)
    requires
        draws_fit(g, blobs, draws),
    ensures
        is_tick_outcome(g, blobs, tick_result(g, draws)),
    decreases draws.len(),
{
    if draws.len() > 0 {
        lemma_draws_give_outcome(g, blobs.drop_last(), draws.drop_last());
        let between = tick_result(g, draws.drop_last());
        let last = draws.last();
        let run = run_droplets(between, last.order, last.coins);
        let after = blob_result(between, last);
        assert(is_blob_run(between, blobs.last(), run));
        if !run.sank {
            let tops = buoyancy_tops(run.landed);
            let pockets = buoyancy_pockets(run.grid, run.landed);
            if tops.len() > 0 && pockets.len() > 0 {
                assert(after == after_lift(run.grid, tops[last.top], pockets[last.pocket]));
            }
            assert(is_buoyancy_outcome(run.grid, run.landed, after));
        }
        assert(is_blob_outcome(between, blobs.last(), after));
    }
}

/// One seed, one course: a tick is determined by the grid and by what is
/// drawn. Two ticks that start from the same grid and for which the same
/// is drawn end in the same grid, and the blobs found on it are the same,
/// handle by handle and point by point.
pub proof fn lemma_same_draws_same_tick(
    g: Grid,
    draws: Seq<BlobDraws>,
    after_a: Grid,
    found_a: Map<usize, Blob>,
    after_b: Grid,
    found_b: Map<usize, Blob>,
)
    requires
        after_a == tick_result(g, draws),
        after_b == tick_result(g, draws),
        is_component_partition(after_a, blob_sets(found_a)),
        is_component_partition(after_b, blob_sets(found_b)),
        forall|k: usize| found_a.contains_key(k) ==> (#[trigger] found_a[k]).wf(),
        forall|k: usize| found_b.contains_key(k) ==> (#[trigger] found_b[k]).wf(),
    ensures
        after_a == after_b,
        found_a.dom() == found_b.dom(),
        forall|k: usize|
            found_a.contains_key(k) ==> (#[trigger] found_a[k]).spec_points()
                == found_b[k].spec_points(),
{
    crate::blob_detector::lemma_detections_agree(after_a, found_a, found_b);
}

/// Whether `handles` lists the handles of the blobs once each in
/// ascending order.
pub open spec fn handles_in_order(blobs: Map<usize, Blob>, handles: Seq<usize>) -> bool {
    &&& forall|i: int, j: int|
        0 <= i < j < handles.len() ==> #[trigger] handles[i] < #[trigger] handles[j]
    &&& forall|k: usize| blobs.contains_key(k) <==> handles.contains(k)
}

/// The point sets of the blobs with the given handles.
pub open spec fn blob_listing(blobs: Map<usize, Blob>, handles: Seq<usize>) -> Seq<Set<Point>> {
    Seq::new(handles.len(), |i: int| blobs[handles[i]]@)
}

/// What is left of a budget of samples after one more was taken.
pub open spec fn samples_left(budget: Option<usize>) -> Option<usize> {
    match budget {
        Some(n) => if n > 0 {
            Some((n - 1) as usize)
        } else {
            Some(0)
        },
        None => None,
    }
}

/// Runs the simulation on a board, one tick at a time.
pub struct Engine {
    board: Board,
    blobs: Blobs,
    rng: StdRng,
    perf_check: Option<usize>,
}

impl Engine {
    /// The board on which the simulation runs.
    pub closed spec fn spec_board(&self) -> Board {
        self.board
    }

    /// The blobs as they were last found.
    pub closed spec fn spec_blobs(&self) -> Map<usize, Blob> {
        self.blobs@
    }

    /// How many more ticks are to be sampled, where sampling is asked for.
    pub closed spec fn spec_perf_check(&self) -> Option<usize> {
        self.perf_check
    }

    /// The board and every blob are well formed.
    pub open spec fn wf(&self) -> bool {
        &&& self.spec_board().wf()
        &&& forall|k: usize|
            self.spec_blobs().contains_key(k) ==> (#[trigger] self.spec_blobs()[k]).wf()
    }

    /// An engine for `board` with the blobs found on it, drawing from `rng`.
    /// With `perf_check` it counts that many ticks and then says so.
    pub fn new(board: Board, blobs: Blobs, rng: StdRng, perf_check: Option<usize>) -> (engine: Self)
        ensures
            engine.spec_board() == board,
            engine.spec_blobs() == blobs@,
            engine.spec_perf_check() == perf_check,
    {
        Self { board, blobs, rng, perf_check }
    }

    pub fn board(&self) -> (board: &Board)
        ensures
            *board == self.spec_board(),
    {
        &self.board
    }

    /// Hands out the board for editing between ticks.
    pub fn board_mut(&mut self) -> (board: &mut Board)
        ensures
            *board == old(self).spec_board(),
            final(self).spec_board() == *final(board),
            final(self).spec_blobs() == old(self).spec_blobs(),
            final(self).spec_perf_check() == old(self).spec_perf_check(),
    {
        &mut self.board
    }

    pub fn blobs(&self) -> (blobs: &Blobs)
        ensures
            blobs@ == self.spec_blobs(),
    {
        &self.blobs
    }

    fn is_air_at(board: &Board, x: usize, y: usize) -> (air: bool)
        requires
            board.wf(),
        ensures
            air == vacant(board@, x as int, y as int),
    {
        match board.tiles().at(x, y) {
            Some(tile) => tile.is_air(),
            None => false,
        }
    }

    fn is_water_at(board: &Board, pt: &Point) -> (water: bool)
        requires
            board.wf(),
        ensures
            water == board@.water(*pt),
    {
        match board.tiles().at(pt.x(), pt.y()) {
            Some(tile) => tile.is_water(),
            None => false,
        }
    }

    fn below_is_air(board: &Board, pt: &Point) -> (air: bool)
        requires
            board.wf(),
        ensures
            air == vacant(board@, pt.x as int, pt.y + 1),
    {
        pt.y() < usize::MAX && Self::is_air_at(board, pt.x(), pt.y() + 1)
    }

    fn left_is_air(board: &Board, pt: &Point) -> (air: bool)
        requires
            board.wf(),
        ensures
            air == vacant(board@, pt.x - 1, pt.y as int),
    {
        pt.x() > 0 && Self::is_air_at(board, pt.x() - 1, pt.y())
    }

    fn right_is_air(board: &Board, pt: &Point) -> (air: bool)
        requires
            board.wf(),
        ensures
            air == vacant(board@, pt.x + 1, pt.y as int),
    {
        pt.x() < usize::MAX && Self::is_air_at(board, pt.x() + 1, pt.y())
    }

    /// Whether a coin has to decide where the droplet at `pt` goes.
    pub fn wants_coin(board: &Board, pt: &Point) -> (toss: bool)
        requires
            board.wf(),
        ensures
            toss == undecided(board@, *pt),
    {
        Self::is_water_at(board, pt) && !Self::below_is_air(board, pt) && Self::left_is_air(
            board,
            pt,
        ) && Self::right_is_air(board, pt)
    }

    /// Moves the droplet at `pt` one step and says where it went: down
    /// where it can sink, else sideways where a side is open, `coin`
    /// deciding between two open sides. A cell outside the board counts as
    /// blocked, and what is not water stays where it is.
    pub fn move_point(board: &mut Board, pt: &Point, coin: bool) -> (dest: Point)
        requires
            old(board).wf(),
        ensures
            final(board).wf(),
            dest == destination(old(board)@, *pt, coin),
            final(board)@ == after_move(old(board)@, *pt, dest),
            final(board).spec_pixel_size() == old(board).spec_pixel_size(),
            same_matter(old(board)@, final(board)@),
    {
        if !Self::is_water_at(board, pt) {
            return *pt;
        }
        let dest = if Self::below_is_air(board, pt) {
            Point::new(pt.x(), pt.y() + 1)
        } else {
            let left = Self::left_is_air(board, pt);
            let right = Self::right_is_air(board, pt);
            if left && (coin || !right) {
                Point::new(pt.x() - 1, pt.y())
            } else if right {
                Point::new(pt.x() + 1, pt.y())
            } else {
                return *pt;
            }
        };
        proof {
            lemma_droplet_move_keeps_matter(board@, *pt, dest);
        }
        board.swap(pt.x(), pt.y(), dest.x(), dest.y());
        dest
    }

    /// The topmost row that holds one of the points.
    fn min_row_of(points: &Vec<Point>) -> (row: usize)
        ensures
            row == min_row(points@),
    {
        let mut row: usize = usize::MAX;
        let mut i: usize = 0;
        while i < points.len()
            invariant
                i <= points.len(),
                row == min_row(points@.take(i as int)),
            decreases points.len() - i,
        {
            proof {
                assert(points@.take(i + 1).drop_last() =~= points@.take(i as int));
            }
            if points[i].y() < row {
                row = points[i].y();
            }
            i += 1;
        }
        proof {
            assert(points@.take(i as int) =~= points@);
        }
        row
    }

    /// The points that lie in the row, in the order of their listing.
    fn points_in_row(points: &Vec<Point>, row: usize) -> (found: Vec<Point>)
        ensures
            found@ == points@.filter(in_row(row)),
    {
        let mut found: Vec<Point> = Vec::new();
        let mut i: usize = 0;
        proof {
            reveal(Seq::filter);
        }
        while i < points.len()
            invariant
                i <= points.len(),
                found@ == points@.take(i as int).filter(in_row(row)),
            decreases points.len() - i,
        {
            proof {
                assert(points@.take(i + 1) =~= points@.take(i as int).push(points@[i as int]));
                points@.take(i as int).lemma_filter_push(points@[i as int], in_row(row));
            }
            if points[i].y() == row {
                found.push(points[i]);
            }
            i += 1;
        }
        proof {
            assert(points@.take(i as int) =~= points@);
        }
        found
    }

    /// The points below row `top` with a vacant cell directly above, in
    /// the order of their listing.
    fn sinks_below(board: &Board, points: &Vec<Point>, top: usize) -> (found: Vec<Point>)
        requires
            board.wf(),
        ensures
            found@ == points@.filter(sink_test(board@, top)),
    {
        let mut found: Vec<Point> = Vec::new();
        let mut i: usize = 0;
        proof {
            reveal(Seq::filter);
        }
        while i < points.len()
            invariant
                i <= points.len(),
                board.wf(),
                found@ == points@.take(i as int).filter(sink_test(board@, top)),
            decreases points.len() - i,
        {
            proof {
                assert(points@.take(i + 1) =~= points@.take(i as int).push(points@[i as int]));
                points@.take(i as int).lemma_filter_push(
                    points@[i as int],
                    sink_test(board@, top),
                );
            }
            let pt = points[i];
            if pt.y() != top && pt.y() > 0 && Self::is_air_at(board, pt.x(), pt.y() - 1) {
                found.push(pt);
            }
            i += 1;
        }
        proof {
            assert(points@.take(i as int) =~= points@);
        }
        found
    }

    /// What buoyancy chooses from, given where the droplets of a blob are:
    /// first the droplets of their topmost row; second the pockets, which
    /// are the vacant cells directly above the topmost of the droplets
    /// that lie deeper and have a vacant cell above them.
    pub fn buoyancy_candidates(board: &Board, points: &Vec<Point>) -> (found: (Vec<Point>, Vec<Point>))
        requires
            board.wf(),
        ensures
            found.0@ == buoyancy_tops(points@),
            found.1@ == buoyancy_pockets(board@, points@),
    {
        let top_row = Self::min_row_of(points);
        let top_points = Self::points_in_row(points, top_row);
        let sinks = Self::sinks_below(board, points, top_row);
        let sink_row = Self::min_row_of(&sinks);
        let highest = Self::points_in_row(&sinks, sink_row);
        let mut pockets: Vec<Point> = Vec::new();
        let mut i: usize = 0;
        while i < highest.len()
            invariant
                i <= highest.len(),
                highest@ == sinks@.filter(in_row(sink_row)),
                sinks@ == points@.filter(sink_test(board@, top_row)),
                pockets@ == highest@.take(i as int).map_values(lift()),
            decreases highest.len() - i,
        {
            let pt = highest[i];
            proof {
                highest@.take(i as int).lemma_push_map_commute(lift(), pt);
                crate::blobs::lemma_filter_member(sinks@, in_row(sink_row), pt);
                crate::blobs::lemma_filter_member(points@, sink_test(board@, top_row), pt);
            }
            pockets.push(Point::new(pt.x(), pt.y() - 1));
            i += 1;
        }
        (top_points, pockets)
    }

    /// Lifts the droplet at `top` into the vacant cell `pocket`. Nothing
    /// happens unless the one is water and the other vacant.
    pub fn lift_droplet(board: &mut Board, top: &Point, pocket: &Point)
        requires
            old(board).wf(),
        ensures
            final(board).wf(),
            final(board)@ == after_lift(old(board)@, *top, *pocket),
            final(board).spec_pixel_size() == old(board).spec_pixel_size(),
            same_matter(old(board)@, final(board)@),
    {
        if Self::is_water_at(board, top) && Self::is_air_at(board, pocket.x(), pocket.y()) {
            proof {
                lemma_droplet_move_keeps_matter(board@, *top, *pocket);
            }
            board.swap(top.x(), top.y(), pocket.x(), pocket.y());
        }
    }

    /// Moves the droplets of one blob, lower rows first and in an order
    /// within a row that `rng` decides, and says where they are now and
    /// whether one of them sank.
    pub fn move_blob(board: &mut Board, rng: &mut StdRng, blob: &Blob) -> (moved: (
        Vec<Point>,
        bool,
    ))
        requires
            old(board).wf(),
            blob.wf(),
        ensures
            final(board).wf(),
            final(board).spec_pixel_size() == old(board).spec_pixel_size(),
            same_matter(old(board)@, final(board)@),
            is_blob_run(
                old(board)@,
                blob@,
                (BlobRun { grid: final(board)@, landed: moved.0@, sank: moved.1 }),
            ),
    {
        let mut new_points: Vec<Point> = Vec::new();
        let mut moved_down = false;
        let mut walk = blob.into_iter();
        let ghost mut order: Seq<Point> = Seq::empty();
        let ghost mut coins: Seq<bool> = Seq::empty();
        proof {
            walk.lemma_bottom_row();
        }
        loop
            invariant_except_break
                board.wf(),
                board.spec_pixel_size() == old(board).spec_pixel_size(),
                same_matter(old(board)@, board@),
                walk.wf(),
                walk.remaining().finite(),
                coins.len() == order.len(),
                order.no_duplicates(),
                forall|p: Point|
                    blob@.contains(p) <==> order.contains(p) || walk.remaining().contains(p),
                forall|p: Point| !(order.contains(p) && walk.remaining().contains(p)),
                forall|i: int, j: int|
                    0 <= i < j < order.len() ==> (#[trigger] order[i]).y >= (#[trigger] order[j]).y,
                forall|i: int, p: Point|
                    #![trigger order[i], walk.remaining().contains(p)]
                    0 <= i < order.len() && walk.remaining().contains(p) ==> order[i].y >= p.y,
                run_droplets(old(board)@, order, coins) == (BlobRun {
                    grid: board@,
                    landed: new_points@,
                    sank: moved_down,
                }),
            ensures
                final(board).wf(),
                final(board).spec_pixel_size() == old(board).spec_pixel_size(),
                same_matter(old(board)@, final(board)@),
                coins.len() == order.len(),
                bottom_up(blob@, order),
                run_droplets(old(board)@, order, coins) == (BlobRun {
                    grid: board@,
                    landed: new_points@,
                    sank: moved_down,
                }),
            decreases walk.remaining().len(),
        {
            proof {
                walk.lemma_bottom_row();
            }
            let ghost before = walk;
            let ghost listed = order;
            let ghost tossed = coins;
            let pt = match walk.next(rng) {
                Some(pt) => pt,
                None => {
                    proof {
                        assert forall|p: Point| blob@.contains(p) <==> order.to_set().contains(
                            p,
                        ) by {}
                        assert(order.to_set() =~= blob@);
                    }
                    break ;
                },
            };
            proof {
                let k = choose|k: int|
                    0 <= k < before.bottom_row().len() && before.bottom_row()[k] == pt;
                walk.lemma_bottom_row();
            }
            let mut coin = false;
            if Self::is_water_at(board, &pt) {
                if Self::wants_coin(board, &pt) {
                    coin = random_bool(rng);
                }
                let dest = Self::move_point(board, &pt, coin);
                if dest.y() != pt.y() {
                    moved_down = true;
                }
                new_points.push(dest);
            }
            proof {
                order = listed.push(pt);
                coins = tossed.push(coin);
                assert(order.drop_last() =~= listed);
                assert(coins.drop_last() =~= tossed);
                assert forall|p: Point| order.contains(p) <==> listed.contains(p) || p == pt by {
                    crate::blobs::lemma_push_contains(listed, pt, p);
                }
                assert forall|i: int, j: int| 0 <= i < j < order.len() implies order[i]
                    != order[j] by {
                    if j == listed.len() {
                        assert(listed.contains(listed[i]));
                    }
                }
            }
        }
        (new_points, moved_down)
    }

    /// Lifts one droplet of the topmost row of a blob into a pocket, both
    /// drawn from `rng`, where there is a droplet and a pocket to draw.
    /// The droplets of the blob are at `points`.
    pub fn apply_buoyancy(board: &mut Board, rng: &mut StdRng, points: &Vec<Point>)
        requires
            old(board).wf(),
        ensures
            final(board).wf(),
            final(board).spec_pixel_size() == old(board).spec_pixel_size(),
            same_matter(old(board)@, final(board)@),
            is_buoyancy_outcome(old(board)@, points@, final(board)@),
    {
        let (top_points, pockets) = Self::buoyancy_candidates(board, points);
        if top_points.len() == 0 || pockets.len() == 0 {
            return ;
        }
        let top_point = choose_point(rng, &top_points);
        let destination_point = choose_point(rng, &pockets);
        match (top_point, destination_point) {
            (Some(top), Some(pocket)) => {
                Self::lift_droplet(board, &top, &pocket)
            },
            _ => {},
        }
    }

    /// One step of the simulation. The blobs are taken in the order of
    /// their handles. The droplets of a blob move one after the other,
    /// lower rows first: down where they can, else sideways. Where none of
    /// them sank, one droplet of the top row of the blob is lifted into a
    /// pocket further down. Then the blobs are found anew. Water is neither
    /// made nor lost, and rock stays where it is. Says whether the budget
    /// of sampled ticks is used up.
    pub fn tick(&mut self) -> (finished: bool)
        requires
            old(self).wf(),
        ensures
            final(self).wf(),
            final(self).spec_board().spec_pixel_size() == old(self).spec_board().spec_pixel_size(),
            same_matter(old(self).spec_board()@, final(self).spec_board()@),
            exists|handles: Seq<usize>| #[trigger]
                handles_in_order(old(self).spec_blobs(), handles) && is_tick_outcome(
                    old(self).spec_board()@,
                    blob_listing(old(self).spec_blobs(), handles),
                    final(self).spec_board()@,
                ),
            is_component_partition(final(self).spec_board()@, blob_sets(final(self).spec_blobs())),
            final(self).spec_perf_check() == samples_left(old(self).spec_perf_check()),
            finished == (final(self).spec_perf_check() == Some(0usize)),
    {
        let mut blobs: Blobs = BTreeMap::new();
        std::mem::swap(&mut blobs, &mut self.blobs);
        let ghost entries = blobs.iter().remaining();
        let ghost handles = entries.map_values(|kv: (&usize, &Blob)| *kv.0);
        let ghost listing = blob_listing(blobs@, handles);
        proof {
            assert(blobs@ == old(self).spec_blobs());
        }
        for entry in it: blobs.iter()
            invariant
                it.seq() == entries,
                handles == entries.map_values(|kv: (&usize, &Blob)| *kv.0),
                listing == blob_listing(blobs@, handles),
                vstd::std_specs::btree::increasing_seq(handles),
                forall|i: int|
                    0 <= i < entries.len() ==> blobs@.contains_key(*(#[trigger] entries[i]).0)
                        && blobs@[*entries[i].0] == *entries[i].1,
                forall|k: usize| #[trigger]
                    blobs@.contains_key(k) ==> entries.contains((&k, &blobs@[k])),
                forall|k: usize| blobs@.contains_key(k) ==> (#[trigger] blobs@[k]).wf(),
                self.board.wf(),
                self.board.spec_pixel_size() == old(self).board.spec_pixel_size(),
                same_matter(old(self).board@, self.board@),
                is_tick_outcome(old(self).board@, listing.take(it.index()), self.board@),
                self.perf_check == old(self).perf_check,
        {
            let ghost at = it.index();
            let ghost between = self.board@;
            let (new_points, moved_down) = Self::move_blob(&mut self.board, &mut self.rng, entry.1);
            if !moved_down {
                Self::apply_buoyancy(&mut self.board, &mut self.rng, &new_points);
            }
            proof {
                assert(listing.take(at + 1).drop_last() =~= listing.take(at));
                let longer = listing.take(at + 1);
                lemma_tick_goes_on(old(self).board@, longer, between, self.board@);
            }
        }
        proof {
            assert(listing.take(entries.len() as int) =~= listing);
            assert forall|k: usize| blobs@.contains_key(k) <==> handles.contains(k) by {
                if blobs@.contains_key(k) {
                    let i = choose|i: int| 0 <= i < entries.len() && entries[i] == (&k, &blobs@[k]);
                    assert(handles[i] == k);
                }
            }
            crate::console_painter::lemma_walk_ascends(handles);
            assert(handles_in_order(old(self).spec_blobs(), handles));
        }
        let mut blob_detector = BlobDetector::new(&self.board);
        let found = blob_detector.detect_quick();
        self.blobs = found;
        match self.perf_check {
            Some(samples) => {
                if samples > 0 {
                    self.perf_check = Some(samples - 1);
                }
                samples <= 1
            },
            None => false,
        }
    }
}

} // verus!
