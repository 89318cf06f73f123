//! Connectivity of water under 4-adjacency, and what it means for a family
//! of point sets to be the partition of the water into connected components.
use vstd::prelude::*;
use crate::grid::Grid;
use crate::point::Point;

verus! {

/// Two cells share an edge.
pub open spec fn adjacent(p: Point, q: Point) -> bool {
    ||| (p.x == q.x && (p.y + 1 == q.y || q.y + 1 == p.y))
    ||| (p.y == q.y && (p.x + 1 == q.x || q.x + 1 == p.x))
}

/// Two cells share a corner but no edge.
pub open spec fn diagonal(p: Point, q: Point) -> bool {
    (p.x + 1 == q.x || q.x + 1 == p.x) && (p.y + 1 == q.y || q.y + 1 == p.y)
}

/// The `i`-th cell of a path shares an edge with the next one.
pub open spec fn linked(path: Seq<Point>, i: int) -> bool {
    adjacent(path[i], path[i + 1])
}

/// A non-empty walk over water cells in which each step crosses an edge.
pub open spec fn is_water_path(g: Grid, path: Seq<Point>) -> bool {
    &&& path.len() > 0
    &&& forall|i: int| 0 <= i < path.len() ==> g.water(#[trigger] path[i])
    &&& forall|i: int| 0 <= i < path.len() - 1 ==> #[trigger] linked(path, i)
}

/// Whether a walk over water leads from `p` to `q`.
pub open spec fn connected(g: Grid, p: Point, q: Point) -> bool {
    exists|path: Seq<Point>| #[trigger]
        is_water_path(g, path) && path.first() == p && path.last() == q
}

/// Whether a walk over water leads from `p` to `q` without entering `avoid`.
pub open spec fn connected_avoiding(g: Grid, avoid: Set<Point>, p: Point, q: Point) -> bool {
    exists|path: Seq<Point>| #[trigger]
        is_water_path(g, path) && path.first() == p && path.last() == q && keeps_off(path, avoid)
}

/// Whether no cell of the path lies in `avoid`.
pub open spec fn keeps_off(path: Seq<Point>, avoid: Set<Point>) -> bool {
    forall|i: int| 0 <= i < path.len() ==> !avoid.contains(#[trigger] path[i])
}

/// Whether every water cell that shares an edge with a member is a member.
pub open spec fn closed_under_adjacency(g: Grid, s: Set<Point>) -> bool {
    forall|p: Point, q: Point|
        #![trigger s.contains(p), adjacent(p, q)]
        s.contains(p) && g.water(q) && adjacent(p, q) ==> s.contains(q)
}

/// A water cell is connected to itself.
pub proof fn lemma_connected_refl(g: Grid, p: Point)
    requires
        g.water(p),
    ensures
        connected(g, p, p),
{
    let path = seq![p];
    assert(is_water_path(g, path));
}

/// A walk can be extended by one water cell across an edge.
pub proof fn lemma_connected_step(g: Grid, p: Point, q: Point, r: Point)
    requires
        connected(g, p, q),
        g.water(r),
        adjacent(q, r),
    ensures
        connected(g, p, r),
{
    let path = choose|path: Seq<Point>| #[trigger]
        is_water_path(g, path) && path.first() == p && path.last() == q;
    let longer = path.push(r);
    assert forall|i: int| 0 <= i < longer.len() - 1 implies #[trigger] linked(longer, i) by {
        if i < path.len() - 1 {
            assert(linked(path, i));
        }
    }
    assert(is_water_path(g, longer));
}

/// What is connected to the start of a walk is connected to each cell of it.
proof fn lemma_walk_along(g: Grid, p: Point, path: Seq<Point>, i: int)
    requires
        is_water_path(g, path),
        connected(g, p, path.first()),
        0 <= i < path.len(),
    ensures
        connected(g, p, path[i]),
    decreases i,
{
    if i > 0 {
        lemma_walk_along(g, p, path, i - 1);
        assert(linked(path, i - 1));
        lemma_connected_step(g, p, path[i - 1], path[i]);
    }
}

/// Connectivity is transitive.
pub proof fn lemma_connected_trans(g: Grid, p: Point, q: Point, r: Point)
    requires
        connected(g, p, q),
        connected(g, q, r),
    ensures
        connected(g, p, r),
{
    let path = choose|path: Seq<Point>| #[trigger]
        is_water_path(g, path) && path.first() == q && path.last() == r;
    lemma_walk_along(g, p, path, path.len() - 1);
}

/// Connectivity is symmetric.
pub proof fn lemma_connected_sym(g: Grid, p: Point, q: Point)
    requires
        connected(g, p, q),
    ensures
        connected(g, q, p),
{
    let path = choose|path: Seq<Point>| #[trigger]
        is_water_path(g, path) && path.first() == p && path.last() == q;
    let n = path.len() as int;
    let back = Seq::new(path.len(), |i: int| path[n - 1 - i]);
    assert forall|i: int| 0 <= i < back.len() - 1 implies #[trigger] linked(back, i) by {
        assert(linked(path, n - 2 - i));
    }
    assert(is_water_path(g, back));
}

/// A water cell outside `avoid` is connected to itself without entering it.
pub proof fn lemma_avoiding_refl(g: Grid, avoid: Set<Point>, p: Point)
    requires
        g.water(p),
        !avoid.contains(p),
    ensures
        connected_avoiding(g, avoid, p, p),
{
    let path = seq![p];
    assert(is_water_path(g, path) && keeps_off(path, avoid));
}

/// A walk that keeps off a set keeps off every part of it, and can be
/// entered from a neighbouring water cell outside that part.
pub proof fn lemma_avoiding_prepend(
    g: Grid,
    avoid: Set<Point>,
    more: Set<Point>,
    p: Point,
    n: Point,
    q: Point,
)
    requires
        g.water(p),
        !avoid.contains(p),
        adjacent(p, n),
        avoid.subset_of(more),
        connected_avoiding(g, more, n, q),
    ensures
        connected_avoiding(g, avoid, p, q),
{
    let path = choose|path: Seq<Point>| #[trigger]
        is_water_path(g, path) && path.first() == n && path.last() == q && keeps_off(path, more);
    let longer = seq![p] + path;
    assert forall|i: int| 0 <= i < longer.len() - 1 implies #[trigger] linked(longer, i) by {
        if i > 0 {
            assert(linked(path, i - 1));
        }
    }
    assert(is_water_path(g, longer) && keeps_off(longer, avoid));
}

/// A walk that keeps off a set is a walk.
pub proof fn lemma_avoiding_connected(g: Grid, avoid: Set<Point>, p: Point, q: Point)
    requires
        connected_avoiding(g, avoid, p, q),
    ensures
        connected(g, p, q),
{
}

/// A flood that holds the start of a walk that keeps off `avoid` holds
/// each cell of the walk.
proof fn lemma_flood_along(g: Grid, avoid: Set<Point>, found: Set<Point>, path: Seq<Point>, i: int)
    requires
        is_water_path(g, path),
        keeps_off(path, avoid),
        found.contains(path.first()),
        forall|p: Point, q: Point|
            #![trigger found.contains(p), adjacent(p, q)]
            found.contains(p) && g.water(q) && adjacent(p, q) ==> found.contains(q)
                || avoid.contains(q),
        0 <= i < path.len(),
    ensures
        found.contains(path[i]),
    decreases i,
{
    if i > 0 {
        lemma_flood_along(g, avoid, found, path, i - 1);
        assert(linked(path, i - 1));
    }
}

/// What a flood from `seed` finds, given what it must keep off: a set that
/// holds the seed, holds only what a walk from the seed reaches without
/// entering `avoid`, and has no water next to it but its own and that of
/// `avoid`, is the set of all that such a walk reaches.
pub proof fn lemma_flood_exact(g: Grid, avoid: Set<Point>, seed: Point, found: Set<Point>)
    requires
        g.water(seed) && !avoid.contains(seed) ==> found.contains(seed),
        forall|p: Point| #[trigger] found.contains(p) ==> connected_avoiding(g, avoid, seed, p),
        forall|p: Point, q: Point|
            #![trigger found.contains(p), adjacent(p, q)]
            found.contains(p) && g.water(q) && adjacent(p, q) ==> found.contains(q)
                || avoid.contains(q),
    ensures
        forall|q: Point| #[trigger] found.contains(q) <==> connected_avoiding(g, avoid, seed, q),
{
    assert forall|q: Point| connected_avoiding(g, avoid, seed, q) implies #[trigger] found.contains(
        q,
    ) by {
        let path = choose|path: Seq<Point>| #[trigger]
            is_water_path(g, path) && path.first() == seed && path.last() == q && keeps_off(
                path,
                avoid,
            );
        lemma_flood_along(g, avoid, found, path, path.len() - 1);
    }
}

/// The ends of a connected pair are water.
pub proof fn lemma_connected_water(g: Grid, p: Point, q: Point)
    requires
        connected(g, p, q),
    ensures
        g.water(p),
        g.water(q),
{
}

/// A set that is closed under adjacency and holds the start of a walk
/// holds each cell of it.
proof fn lemma_closed_along(g: Grid, s: Set<Point>, path: Seq<Point>, i: int)
    requires
        closed_under_adjacency(g, s),
        is_water_path(g, path),
        s.contains(path.first()),
        0 <= i < path.len(),
    ensures
        s.contains(path[i]),
    decreases i,
{
    if i > 0 {
        lemma_closed_along(g, s, path, i - 1);
        assert(linked(path, i - 1));
    }
}

/// A set that is closed under adjacency holds everything connected to a member.
pub proof fn lemma_closed_holds_connected(g: Grid, s: Set<Point>, p: Point, q: Point)
    requires
        closed_under_adjacency(g, s),
        s.contains(p),
        connected(g, p, q),
    ensures
        s.contains(q),
{
    let path = choose|path: Seq<Point>| #[trigger]
        is_water_path(g, path) && path.first() == p && path.last() == q;
    lemma_closed_along(g, s, path, path.len() - 1);
}

/// Handles are the integers from zero up to the number of parts.
pub open spec fn handles_sequential(parts: Map<usize, Set<Point>>) -> bool {
    &&& parts.dom().finite()
    &&& forall|k: usize| #[trigger] parts.dom().contains(k) <==> k < parts.dom().len()
}

/// No part is empty.
pub open spec fn parts_nonempty(parts: Map<usize, Set<Point>>) -> bool {
    forall|k: usize| #[trigger]
        parts.dom().contains(k) ==> exists|p: Point| #[trigger] parts[k].contains(p)
}

/// No point lies in two parts.
pub open spec fn parts_disjoint(parts: Map<usize, Set<Point>>) -> bool {
    forall|j: usize, k: usize, p: Point|
        #![trigger parts[j].contains(p), parts[k].contains(p)]
        parts.dom().contains(j) && parts.dom().contains(k) && parts[j].contains(p)
            && parts[k].contains(p) ==> j == k
}

/// Whether some part holds the point.
pub open spec fn covered(parts: Map<usize, Set<Point>>, p: Point) -> bool {
    exists|k: usize| parts.dom().contains(k) && #[trigger] parts[k].contains(p)
}

/// The parts together hold exactly the water cells of the grid.
pub open spec fn parts_cover_water(g: Grid, parts: Map<usize, Set<Point>>) -> bool {
    forall|p: Point| #[trigger] covered(parts, p) <==> g.water(p)
}

/// Any two points of one part are joined by a walk over water.
pub open spec fn parts_connected(g: Grid, parts: Map<usize, Set<Point>>) -> bool {
    forall|k: usize, p: Point, q: Point|
        #![trigger parts[k].contains(p), parts[k].contains(q)]
        parts.dom().contains(k) && parts[k].contains(p) && parts[k].contains(q) ==> connected(
            g,
            p,
            q,
        )
}

/// No part can be grown: each is closed under adjacency.
pub open spec fn parts_maximal(g: Grid, parts: Map<usize, Set<Point>>) -> bool {
    forall|k: usize| #[trigger] parts.dom().contains(k) ==> closed_under_adjacency(g, parts[k])
}

/// Whether some member of the set comes before `q` in row-major order.
pub open spec fn preceded_in(s: Set<Point>, q: Point) -> bool {
    exists|p: Point| #[trigger] s.contains(p) && p.before(q)
}

/// Handles follow the order in which a row-major scan meets the parts:
/// every point of a part comes after some point of each part with a
/// smaller handle.
#[verifier::opaque]
pub open spec fn parts_in_scan_order(parts: Map<usize, Set<Point>>) -> bool {
    forall|j: usize, k: usize, q: Point|
        #![trigger parts.dom().contains(j), parts[k].contains(q)]
        parts.dom().contains(j) && parts.dom().contains(k) && j < k && parts[k].contains(q)
            ==> preceded_in(parts[j], q)
}

/// The parts are the connected components of the grid's water, each under
/// one handle, the handles counting up from zero in the order in which a
/// row-major scan meets the components.
pub open spec fn is_component_partition(g: Grid, parts: Map<usize, Set<Point>>) -> bool {
    &&& handles_sequential(parts)
    &&& parts_nonempty(parts)
    &&& parts_disjoint(parts)
    &&& parts_cover_water(g, parts)
    &&& parts_connected(g, parts)
    &&& parts_maximal(g, parts)
    &&& parts_in_scan_order(parts)
}

/// The point sets of a family, without their handles.
pub open spec fn part_sets(parts: Map<usize, Set<Point>>) -> Set<Set<Point>> {
    Set::new(|s: Set<Point>| exists|k: usize| parts.dom().contains(k) && #[trigger] parts[k] == s)
}

/// Each part of one component partition is a part of the other.
proof fn lemma_part_found_in(
    g: Grid,
    a: Map<usize, Set<Point>>,
    b: Map<usize, Set<Point>>,
    k: usize,
)
    requires
        is_component_partition(g, a),
        is_component_partition(g, b),
        a.dom().contains(k),
    ensures
        part_sets(b).contains(a[k]),
{
    let p = choose|p: Point| #[trigger] a[k].contains(p);
    assert(covered(b, p));
    let j = choose|j: usize| b.dom().contains(j) && #[trigger] b[j].contains(p);
    assert forall|q: Point| a[k].contains(q) <==> b[j].contains(q) by {
        if a[k].contains(q) {
            lemma_closed_holds_connected(g, b[j], p, q);
        }
        if b[j].contains(q) {
            lemma_closed_holds_connected(g, a[k], p, q);
        }
    }
    assert(a[k] =~= b[j]);
}

/// Whatever way the components were found, they are the same sets: two
/// component partitions of one grid differ in their handles at most.
pub proof fn lemma_component_partition_unique(
    g: Grid,
    a: Map<usize, Set<Point>>,
    b: Map<usize, Set<Point>>,
)
    requires
        is_component_partition(g, a),
        is_component_partition(g, b),
    ensures
        part_sets(a) == part_sets(b),
{
    assert forall|s: Set<Point>| part_sets(a).contains(s) <==> part_sets(b).contains(s) by {
        if part_sets(a).contains(s) {
            let k = choose|k: usize| a.dom().contains(k) && #[trigger] a[k] == s;
            lemma_part_found_in(g, a, b, k);
        }
        if part_sets(b).contains(s) {
            let k = choose|k: usize| b.dom().contains(k) && #[trigger] b[k] == s;
            lemma_part_found_in(g, b, a, k);
        }
    }
}

/// Two sets cannot both come first: not every point of the one can come
/// after a point of the other and the other way round.
proof fn lemma_not_both_first(s: Set<Point>, t: Set<Point>, p: Point)
    requires
        s.contains(p),
        forall|q: Point| #[trigger] s.contains(q) ==> preceded_in(t, q),
    ensures
        exists|q: Point| #[trigger] t.contains(q) && !preceded_in(s, q),
    decreases p.y, p.x,
{
    let q = choose|q: Point| #[trigger] t.contains(q) && q.before(p);
    if preceded_in(s, q) {
        let r = choose|r: Point| #[trigger] s.contains(r) && r.before(q);
        lemma_not_both_first(s, t, r);
    }
}

/// Parts under different handles are different sets.
proof fn lemma_handles_tell_parts(parts: Map<usize, Set<Point>>, j: usize, k: usize)
    requires
        parts_nonempty(parts),
        parts_disjoint(parts),
        parts.dom().contains(j),
        parts.dom().contains(k),
        j != k,
    ensures
        parts[j] != parts[k],
{
}

/// A part that comes later in one numbering cannot come earlier in another.
proof fn lemma_order_agrees(
    a: Map<usize, Set<Point>>,
    b: Map<usize, Set<Point>>,
    k: usize,
    i: usize,
    j: usize,
)
    requires
        parts_nonempty(a),
        parts_in_scan_order(a),
        parts_in_scan_order(b),
        a.dom().contains(k),
        a.dom().contains(i),
        b.dom().contains(k),
        b.dom().contains(j),
        k < i,
        k < j,
        a[k] == b[j],
    ensures
        a[i] != b[k],
{
    reveal(parts_in_scan_order);
    if a[i] == b[k] {
        let s = a[k];
        let t = b[k];
        let p = choose|p: Point| #[trigger] a[k].contains(p);
        lemma_not_both_first(s, t, p);
    }
}

/// Each part of one component partition is the part of the other under
/// the same handle.
proof fn lemma_same_part_same_handle(
    g: Grid,
    a: Map<usize, Set<Point>>,
    b: Map<usize, Set<Point>>,
    k: usize,
)
    requires
        is_component_partition(g, a),
        is_component_partition(g, b),
        a.dom().contains(k),
    ensures
        b.dom().contains(k),
        a[k] == b[k],
    decreases k,
{
    lemma_part_found_in(g, a, b, k);
    let j = choose|j: usize| b.dom().contains(j) && #[trigger] b[j] == a[k];
    if j < k {
        lemma_same_part_same_handle(g, a, b, j);
        lemma_handles_tell_parts(a, j, k);
    } else if j > k {
        lemma_part_found_in(g, b, a, k);
        let i = choose|i: usize| a.dom().contains(i) && #[trigger] a[i] == b[k];
        if i < k {
            lemma_same_part_same_handle(g, a, b, i);
            lemma_handles_tell_parts(b, i, k);
        } else if i == k {
            lemma_handles_tell_parts(b, j, k);
        } else {
            lemma_order_agrees(a, b, k, i, j);
        }
    }
}

/// There is one way only to part the water of a grid into its connected
/// components and to number them: two component partitions of one grid
/// are the same.
pub proof fn lemma_component_partition_same(
    g: Grid,
    a: Map<usize, Set<Point>>,
    b: Map<usize, Set<Point>>,
)
    requires
        is_component_partition(g, a),
        is_component_partition(g, b),
    ensures
        a == b,
{
    assert forall|k: usize| a.dom().contains(k) <==> b.dom().contains(k) by {
        if a.dom().contains(k) {
            lemma_same_part_same_handle(g, a, b, k);
        }
        if b.dom().contains(k) {
            lemma_same_part_same_handle(g, b, a, k);
        }
    }
    assert forall|k: usize| a.dom().contains(k) implies #[trigger] a[k] == b[k] by {
        lemma_same_part_same_handle(g, a, b, k);
    }
}

/// Two water cells that share an edge lie in the same part.
pub proof fn lemma_edge_neighbours_share_part(
    g: Grid,
    parts: Map<usize, Set<Point>>,
    k: usize,
    p: Point,
    q: Point,
)
    requires
        is_component_partition(g, parts),
        parts.dom().contains(k),
        parts[k].contains(p),
        g.water(q),
        adjacent(p, q),
    ensures
        parts[k].contains(q),
{
}

/// Two cells that touch only at a corner lie in different parts, unless a
/// walk over water joins them some other way.
pub proof fn lemma_corner_neighbours_apart(
    g: Grid,
    parts: Map<usize, Set<Point>>,
    j: usize,
    k: usize,
    p: Point,
    q: Point,
)
    requires
        is_component_partition(g, parts),
        parts.dom().contains(j),
        parts.dom().contains(k),
        parts[j].contains(p),
        parts[k].contains(q),
        diagonal(p, q),
        !connected(g, p, q),
    ensures
        j != k,
{
}

/// In a component partition the parts are pairwise disjoint and their
/// union is exactly the set of water cells.
pub proof fn lemma_partition_disjoint_and_complete(g: Grid, parts: Map<usize, Set<Point>>)
    requires
        is_component_partition(g, parts),
    ensures
        forall|j: usize, k: usize|
            parts.dom().contains(j) && parts.dom().contains(k) && j != k ==> #[trigger] parts[j].disjoint(
                #[trigger] parts[k],
            ),
        forall|p: Point| g.water(p) <==> #[trigger] covered(parts, p),
{
}

} // verus!
