//! What a flood over the water of a grid keeps true, from which follows
//! that the blobs it yields are the connected components.
use vstd::prelude::*;
use crate::components::{
    adjacent, closed_under_adjacency, connected, covered, handles_sequential,
    is_component_partition, lemma_closed_holds_connected, lemma_connected_refl,
    lemma_connected_step, lemma_connected_sym, lemma_connected_trans, parts_connected,
    parts_disjoint, parts_in_scan_order, parts_maximal, parts_nonempty, preceded_in,
};
use crate::grid::{cell, Grid};
use crate::point::Point;

verus! {

/// The cells of row `y` from column `start` to column `end`, both included.
pub open spec fn span_cells(y: usize, start: usize, end: usize) -> Set<(usize, usize)> {
    Set::new(|c: (usize, usize)| c.1 == y && start <= c.0 <= end)
}

/// Whether `t` lies directly above or below a cell of the span.
pub open spec fn touches_span(t: (usize, usize), y: usize, start: usize, end: usize) -> bool {
    start <= t.0 <= end && (t.1 + 1 == y || y + 1 == t.1)
}

/// The water cells directly above and below `(x, y)` that are not marked.
pub open spec fn touching_of(g: Grid, done: Set<(usize, usize)>, x: usize, y: usize) -> Set<
    (usize, usize),
> {
    Set::new(
        |t: (usize, usize)|
            t.0 == x && (t.1 + 1 == y || y + 1 == t.1) && g.water(cell(t)) && !done.contains(t),
    )
}

/// The water cells directly above and below the run of row `y` from column
/// `start` to column `end` that are not marked.
pub open spec fn touching_of_span(
    g: Grid,
    done: Set<(usize, usize)>,
    y: usize,
    start: usize,
    end: usize,
) -> Set<(usize, usize)> {
    Set::new(
        |t: (usize, usize)| touches_span(t, y, start, end) && g.water(cell(t)) && !done.contains(t),
    )
}

/// Taking in the cell at column `x` next to a run extends what touches the
/// run; marks in the row of the run do not matter.
pub proof fn lemma_touching_grows(
    g: Grid,
    marked: Set<(usize, usize)>,
    now: Set<(usize, usize)>,
    y: usize,
    start: usize,
    end: usize,
    x: usize,
)
    requires
        forall|c: (usize, usize)| c.1 != y ==> (now.contains(c) <==> marked.contains(c)),
        start <= end,
        x == end + 1 || x + 1 == start,
    ensures
        touching_of(g, now, x, y) == touching_of_span(g, marked, y, x, x),
        x == end + 1 ==> touching_of_span(g, marked, y, start, end).union(
            touching_of(g, now, x, y),
        ) == touching_of_span(g, marked, y, start, x),
        x + 1 == start ==> touching_of_span(g, marked, y, start, end).union(
            touching_of(g, now, x, y),
        ) == touching_of_span(g, marked, y, x, end),
{
    assert(touching_of(g, now, x, y) =~= touching_of_span(g, marked, y, x, x));
    if x == end + 1 {
        assert(touching_of_span(g, marked, y, start, end).union(touching_of(g, now, x, y))
            =~= touching_of_span(g, marked, y, start, x));
    }
    if x + 1 == start {
        assert(touching_of_span(g, marked, y, start, end).union(touching_of(g, now, x, y))
            =~= touching_of_span(g, marked, y, x, end));
    }
}

/// Marking more cells leaves fewer unmarked, and strictly fewer when a
/// cell of the grid is newly marked.
pub proof fn lemma_unmarked_shrinks(
    all: Set<(usize, usize)>,
    before: Set<(usize, usize)>,
    after: Set<(usize, usize)>,
)
    requires
        all.finite(),
        before.subset_of(after),
    ensures
        all.difference(after).len() <= all.difference(before).len(),
        forall|c: (usize, usize)|
            all.contains(c) && !before.contains(c) && after.contains(c) ==> all.difference(
                after,
            ).len() < all.difference(before).len(),
{
    vstd::set_lib::lemma_len_subset(all.difference(after), all.difference(before));
    assert forall|c: (usize, usize)|
        all.contains(c) && !before.contains(c) && after.contains(c) implies all.difference(
        after,
    ).len() < all.difference(before).len() by {
        all.difference(after).lemma_subset_not_in_lt(all.difference(before), c);
    }
}

/// The cells of an unbroken run of water in one row are connected.
pub proof fn lemma_row_connected(g: Grid, y: usize, a: usize, b: usize)
    requires
        a <= b,
        forall|p: Point| p.y == y && a <= p.x <= b ==> #[trigger] g.water(p),
    ensures
        connected(g, Point { x: a, y }, Point { x: b, y }),
        connected(g, Point { x: b, y }, Point { x: a, y }),
    decreases b - a,
{
    let from = Point { x: a, y };
    if a == b {
        lemma_connected_refl(g, from);
    } else {
        let mid = Point { x: (b - 1) as usize, y };
        let to = Point { x: b, y };
        lemma_row_connected(g, y, a, (b - 1) as usize);
        lemma_connected_step(g, from, mid, to);
        lemma_connected_sym(g, from, to);
    }
}

/// The points whose cells are marked.
pub open spec fn marked_points(done: Set<(usize, usize)>) -> Set<Point> {
    Set::new(|p: Point| done.contains((p.x, p.y)))
}

/// The cells of the points that some part holds.
pub open spec fn marked_cells(parts: Map<usize, Set<Point>>) -> Set<(usize, usize)> {
    Set::new(|c: (usize, usize)| covered(parts, cell(c)))
}

/// What holds between two blobs of a pass: the blobs found so far are
/// connected components under handles counting up from zero, and the
/// marked cells are exactly their points.
pub open spec fn pass_inv(g: Grid, parts: Map<usize, Set<Point>>, done: Set<(usize, usize)>) -> bool {
    &&& handles_sequential(parts)
    &&& parts_nonempty(parts)
    &&& parts_disjoint(parts)
    &&& parts_connected(g, parts)
    &&& parts_maximal(g, parts)
    &&& parts_in_scan_order(parts)
    &&& forall|p: Point| #[trigger] covered(parts, p) <==> done.contains((p.x, p.y))
    &&& forall|k: usize| #[trigger] parts.dom().contains(k) ==> leads(g, done, parts[k])
}

/// Whether some member of the set comes before every water cell that is
/// not marked.
pub open spec fn leads(g: Grid, done: Set<(usize, usize)>, s: Set<Point>) -> bool {
    exists|p: Point| #[trigger] s.contains(p) && comes_before_unmarked(g, done, p)
}

/// Whether `p` comes before every water cell that is not marked.
pub open spec fn comes_before_unmarked(g: Grid, done: Set<(usize, usize)>, p: Point) -> bool {
    forall|w: Point| #[trigger] g.water(w) && !done.contains((w.x, w.y)) ==> p.before(w)
}

/// What a flood starts from: the first water cell in row-major order that
/// was not marked earlier; the cells marked earlier are closed under
/// adjacency.
pub open spec fn flood_ctx(g: Grid, earlier: Set<(usize, usize)>, seed: Point) -> bool {
    &&& closed_under_adjacency(g, marked_points(earlier))
    &&& !earlier.contains((seed.x, seed.y))
    &&& g.water(seed)
    &&& forall|w: Point| w.before(seed) && #[trigger] g.water(w) ==> earlier.contains((w.x, w.y))
}

/// What holds while a blob is flooded from `seed`: its points are connected
/// to the seed, the marked cells are the earlier ones and the blob's, the
/// queued cells are connected to the seed, and each water cell next to the
/// blob is in the blob or queued.
pub open spec fn flood_inv(
    g: Grid,
    earlier: Set<(usize, usize)>,
    seed: Point,
    done: Set<(usize, usize)>,
    blob: Set<Point>,
    queue: Seq<(usize, usize)>,
) -> bool {
    &&& blob.contains(seed)
    &&& forall|p: Point| #[trigger] blob.contains(p) ==> connected(g, seed, p)
    &&& forall|c: (usize, usize)| #[trigger]
        done.contains(c) <==> earlier.contains(c) || blob.contains(cell(c))
    &&& forall|i: int| 0 <= i < queue.len() ==> connected(g, seed, cell(#[trigger] queue[i]))
    &&& forall|p: Point, q: Point|
        #![trigger blob.contains(p), adjacent(p, q)]
        blob.contains(p) && g.water(q) && adjacent(p, q) ==> blob.contains(q) || queue.contains(
            (q.x, q.y),
        )
}

/// Nothing connected to the seed of a flood was marked earlier.
pub proof fn lemma_not_marked_earlier(g: Grid, earlier: Set<(usize, usize)>, seed: Point, p: Point)
    requires
        flood_ctx(g, earlier, seed),
        connected(g, seed, p),
    ensures
        !earlier.contains((p.x, p.y)),
{
    if earlier.contains((p.x, p.y)) {
        lemma_connected_sym(g, seed, p);
        lemma_closed_holds_connected(g, marked_points(earlier), p, seed);
    }
}

/// Between two blobs the marked cells are closed under adjacency.
pub proof fn lemma_pass_closed(g: Grid, parts: Map<usize, Set<Point>>, done: Set<(usize, usize)>)
    requires
        pass_inv(g, parts, done),
    ensures
        closed_under_adjacency(g, marked_points(done)),
{
    let s = marked_points(done);
    assert forall|p: Point, q: Point|
        #![trigger s.contains(p), adjacent(p, q)]
        s.contains(p) && g.water(q) && adjacent(p, q) implies s.contains(q) by {
        assert(covered(parts, p));
        assert(covered(parts, q));
    }
}

/// Taking a run of water into the blob keeps the flood going: the run was
/// found from the cell `s`, which is connected to the seed and was not in
/// the blob; `first` says that `s` is the seed itself, marked beforehand.
pub proof fn lemma_absorb(
    g: Grid,
    earlier: Set<(usize, usize)>,
    seed: Point,
    first: bool,
    done: Set<(usize, usize)>,
    blob: Set<Point>,
    rest: Seq<(usize, usize)>,
    s: (usize, usize),
    start: usize,
    end: usize,
    touching: Seq<(usize, usize)>,
    done_after: Set<(usize, usize)>,
    blob_after: Set<Point>,
)
    requires
        flood_ctx(g, earlier, seed),
        first ==> cell(s) == seed && rest.len() == 0 && blob == Set::<Point>::empty(),
        !first ==> blob.contains(seed),
        forall|p: Point| #[trigger] blob.contains(p) ==> connected(g, seed, p),
        forall|c: (usize, usize)| #[trigger]
            done.contains(c) <==> earlier.contains(c) || blob.contains(cell(c)) || (first && c
                == s),
        forall|i: int| 0 <= i < rest.len() ==> connected(g, seed, cell(#[trigger] rest[i])),
        forall|p: Point, q: Point|
            #![trigger blob.contains(p), adjacent(p, q)]
            blob.contains(p) && g.water(q) && adjacent(p, q) ==> blob.contains(q) || rest.contains(
                (q.x, q.y),
            ) || (q.x, q.y) == s,
        connected(g, seed, cell(s)),
        !blob.contains(cell(s)),
        start <= s.0 <= end,
        forall|p: Point| p.y == s.1 && start <= p.x <= end ==> #[trigger] g.water(p),
        start > 0 ==> !g.water(Point { x: (start - 1) as usize, y: s.1 }),
        end < usize::MAX ==> !g.water(Point { x: (end + 1) as usize, y: s.1 }),
        done_after == done.union(span_cells(s.1, start, end)),
        forall|t: (usize, usize)|
            #![trigger touching.contains(t)]
            touching.contains(t) <==> touches_span(t, s.1, start, end) && g.water(cell(t))
                && !done.contains(t),
        forall|p: Point| #[trigger]
            blob_after.contains(p) <==> blob.contains(p) || (p.y == s.1 && start <= p.x <= end),
    ensures
        flood_inv(g, earlier, seed, done_after, blob_after, rest + touching),
{
    let y = s.1;
    let queue = rest + touching;
    let from = cell(s);
    assert forall|p: Point| p.y == y && start <= p.x <= end implies connected(g, seed, p) by {
        if p.x >= s.0 {
            lemma_row_connected(g, y, s.0, p.x);
            lemma_connected_trans(g, seed, from, p);
        } else {
            lemma_row_connected(g, y, p.x, s.0);
            lemma_connected_trans(g, seed, from, p);
        }
    }
    assert forall|p: Point| #[trigger] blob_after.contains(p) implies connected(g, seed, p) by {}
    assert forall|i: int| 0 <= i < queue.len() implies connected(
        g,
        seed,
        cell(#[trigger] queue[i]),
    ) by {
        if i >= rest.len() {
            let t = touching[i - rest.len()];
            assert(touching.contains(t));
            let below = Point { x: t.0, y };
            lemma_connected_step(g, seed, below, cell(t));
        }
    }
    assert forall|p: Point, q: Point|
        #![trigger blob_after.contains(p), adjacent(p, q)]
        blob_after.contains(p) && g.water(q) && adjacent(p, q) implies blob_after.contains(q)
            || queue.contains((q.x, q.y)) by {
        let t = (q.x, q.y);
        if blob.contains(p) {
            if !blob.contains(q) && t != s {
                let k = choose|k: int| 0 <= k < rest.len() && rest[k] == t;
                assert(queue[k] == t);
            }
        } else if q.y != y {
            if done.contains(t) {
                if earlier.contains(t) {
                    assert(marked_points(earlier).contains(q));
                    assert(adjacent(q, p));
                    lemma_not_marked_earlier(g, earlier, seed, p);
                }
            } else {
                assert(touching.contains(t));
                let k = choose|k: int| 0 <= k < touching.len() && touching[k] == t;
                assert(queue[rest.len() + k] == t);
            }
        }
    }
}

/// A queued cell that is already marked belongs to the blob, so that the
/// flood goes on without it.
pub proof fn lemma_skip(
    g: Grid,
    earlier: Set<(usize, usize)>,
    seed: Point,
    done: Set<(usize, usize)>,
    blob: Set<Point>,
    queue: Seq<(usize, usize)>,
)
    requires
        flood_ctx(g, earlier, seed),
        flood_inv(g, earlier, seed, done, blob, queue),
        queue.len() > 0,
        done.contains(queue[0]),
    ensures
        flood_inv(g, earlier, seed, done, blob, queue.drop_first()),
{
    let s = queue[0];
    let rest = queue.drop_first();
    lemma_not_marked_earlier(g, earlier, seed, cell(s));
    assert forall|p: Point, q: Point|
        #![trigger blob.contains(p), adjacent(p, q)]
        blob.contains(p) && g.water(q) && adjacent(p, q) implies blob.contains(q)
            || rest.contains((q.x, q.y)) by {
        let t = (q.x, q.y);
        if !blob.contains(q) {
            let k = choose|k: int| 0 <= k < queue.len() && queue[k] == t;
            assert(rest[k - 1] == t);
        }
    }
}

/// A finished flood yields the next connected component of the pass.
pub proof fn lemma_add_part(
    g: Grid,
    parts: Map<usize, Set<Point>>,
    earlier: Set<(usize, usize)>,
    seed: Point,
    done: Set<(usize, usize)>,
    blob: Set<Point>,
    n: usize,
)
    requires
        pass_inv(g, parts, earlier),
        flood_ctx(g, earlier, seed),
        flood_inv(g, earlier, seed, done, blob, Seq::empty()),
        n == parts.dom().len(),
    ensures
        pass_inv(g, parts.insert(n, blob), done),
{
    let more = parts.insert(n, blob);
    assert forall|p: Point, k: usize| parts.dom().contains(k) && parts[k].contains(p)
        && blob.contains(p) implies false by {
        assert(covered(parts, p));
        lemma_not_marked_earlier(g, earlier, seed, p);
    }
    assert(parts_nonempty(more)) by {
        assert forall|k: usize| #[trigger] more.dom().contains(k) implies exists|p: Point| #[trigger]
            more[k].contains(p) by {
            if k == n {
                assert(more[k].contains(seed));
            } else {
                assert(parts.dom().contains(k));
            }
        }
    }
    assert(parts_connected(g, more)) by {
        assert forall|k: usize, p: Point, q: Point|
            #![trigger more[k].contains(p), more[k].contains(q)]
            more.dom().contains(k) && more[k].contains(p) && more[k].contains(q) implies connected(
            g,
            p,
            q,
        ) by {
            if k == n {
                lemma_connected_sym(g, seed, p);
                lemma_connected_trans(g, p, seed, q);
            }
        }
    }
    assert(parts_in_scan_order(more)) by {
        reveal(parts_in_scan_order);
        assert forall|j: usize, k: usize, q: Point|
            #![trigger more.dom().contains(j), more[k].contains(q)]
            more.dom().contains(j) && more.dom().contains(k) && j < k && more[k].contains(
                q,
            ) implies preceded_in(more[j], q) by {
            if k == n {
                let p = choose|p: Point| #[trigger]
                    parts[j].contains(p) && comes_before_unmarked(g, earlier, p);
                lemma_not_marked_earlier(g, earlier, seed, q);
            }
        }
    }
    assert forall|k: usize| #[trigger] more.dom().contains(k) implies leads(g, done, more[k]) by {
        if k != n {
            let p = choose|p: Point| #[trigger]
                parts[k].contains(p) && comes_before_unmarked(g, earlier, p);
        }
    }
    assert forall|p: Point| #[trigger] covered(more, p) <==> done.contains((p.x, p.y)) by {
        if covered(more, p) {
            let k = choose|k: usize| more.dom().contains(k) && #[trigger] more[k].contains(p);
            if k != n {
                assert(covered(parts, p));
            }
        }
        if done.contains((p.x, p.y)) {
            if blob.contains(p) {
                assert(more[n].contains(p));
            } else {
                assert(covered(parts, p));
                let k = choose|k: usize| parts.dom().contains(k) && #[trigger] parts[k].contains(p);
                assert(more[k].contains(p));
            }
        }
    }
}

/// Once every water cell is marked, the blobs of the pass are the
/// connected components of the grid.
pub proof fn lemma_pass_complete(g: Grid, parts: Map<usize, Set<Point>>, done: Set<(usize, usize)>)
    requires
        pass_inv(g, parts, done),
        forall|p: Point| #[trigger] g.water(p) ==> done.contains((p.x, p.y)),
    ensures
        is_component_partition(g, parts),
{
}

} // verus!
