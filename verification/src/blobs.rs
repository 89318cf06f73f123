//! Blobs: connected masses of water, kept as indices into the grid.
use std::collections::BTreeMap;
use std::collections::BTreeSet;
use std::collections::HashMap;
use itertools::Itertools;
use rand::rngs::StdRng;
use vstd::prelude::*;
use crate::point::Point;
use crate::random::random_index;

verus! {

/// The blobs of one detection pass, each under a handle that means nothing
/// beyond that pass.
pub type Blobs = BTreeMap<usize, Blob>;

/// The point sets of a family of blobs, handle by handle.
pub open spec fn blob_sets(blobs: Map<usize, Blob>) -> Map<usize, Set<Point>> {
    Map::new(|k: usize| blobs.dom().contains(k), |k: usize| blobs[k]@)
}

/// Whether a sequence of points ascends strictly in row-major order.
pub open spec fn strictly_sorted(s: Seq<Point>) -> bool {
    forall|i: int, j: int| 0 <= i < j < s.len() ==> (#[trigger] s[i]).before(#[trigger] s[j])
}

/// A sequence that ascends strictly holds nothing twice.
pub proof fn lemma_sorted_no_duplicates(s: Seq<Point>)
    requires
        strictly_sorted(s),
    ensures
        s.no_duplicates(),
{
}

/// A prefix that is longer by one holds what the shorter one holds and
/// the one member more.
pub proof fn lemma_take_contains(s: Seq<Point>, i: int, p: Point)
    requires
        0 <= i < s.len(),
    ensures
        s.take(i + 1).contains(p) <==> s.take(i).contains(p) || s[i] == p,
{
    let shorter = s.take(i);
    let longer = s.take(i + 1);
    if s[i] == p {
        assert(longer[i] == p);
    }
}

/// A sequence with one member appended holds what it held and that member.
pub proof fn lemma_push_contains(s: Seq<Point>, x: Point, p: Point)
    ensures
        s.push(x).contains(p) <==> s.contains(p) || x == p,
{
    let longer = s.push(x);
    if longer.contains(p) {
        let k = choose|k: int| 0 <= k < longer.len() && longer[k] == p;
        if k < s.len() {
            assert(s[k] == p);
        }
    }
    if s.contains(p) {
        let k = choose|k: int| 0 <= k < s.len() && s[k] == p;
        assert(longer[k] == p);
    }
    if x == p {
        assert(longer[s.len() as int] == p);
    }
}

/// Merges two strictly ascending sequences into one, dropping what occurs
/// in both.
fn merge_sorted(a: &Vec<Point>, b: &Vec<Point>) -> (out: Vec<Point>)
    requires
        strictly_sorted(a@),
        strictly_sorted(b@),
    ensures
        strictly_sorted(out@),
        out@.to_set() == a@.to_set().union(b@.to_set()),
{
    let mut out: Vec<Point> = Vec::new();
    let mut i: usize = 0;
    let mut j: usize = 0;
    while i < a.len() || j < b.len()
        invariant
            i <= a.len(),
            j <= b.len(),
            strictly_sorted(a@),
            strictly_sorted(b@),
            strictly_sorted(out@),
            forall|k: int|
                0 <= k < out.len() && i < a.len() ==> (#[trigger] out@[k]).before(a@[i as int]),
            forall|k: int|
                0 <= k < out.len() && j < b.len() ==> (#[trigger] out@[k]).before(b@[j as int]),
            forall|p: Point|
                out@.contains(p) <==> a@.take(i as int).contains(p) || b@.take(j as int).contains(
                    p,
                ),
        decreases a.len() - i + b.len() - j,
    {
        let ghost before = out@;
        let take_a = j == b.len() || (i < a.len() && a[i] < b[j]);
        let take_b = !take_a && (i == a.len() || b[j] < a[i]);
        if take_a {
            let x = a[i];
            out.push(x);
            proof {
                assert forall|p: Point|
                    out@.contains(p) <==> a@.take(i + 1).contains(p) || b@.take(j as int).contains(
                        p,
                    ) by {
                    lemma_push_contains(before, x, p);
                    lemma_take_contains(a@, i as int, p);
                }
            }
            i += 1;
        } else if take_b {
            let x = b[j];
            out.push(x);
            proof {
                assert forall|p: Point|
                    out@.contains(p) <==> a@.take(i as int).contains(p) || b@.take(j + 1).contains(
                        p,
                    ) by {
                    lemma_push_contains(before, x, p);
                    lemma_take_contains(b@, j as int, p);
                }
            }
            j += 1;
        } else {
            let x = a[i];
            assert(x == b@[j as int]);
            out.push(x);
            proof {
                assert forall|p: Point|
                    out@.contains(p) <==> a@.take(i + 1).contains(p) || b@.take(j + 1).contains(
                        p,
                    ) by {
                    lemma_push_contains(before, x, p);
                    lemma_take_contains(a@, i as int, p);
                    lemma_take_contains(b@, j as int, p);
                }
            }
            i += 1;
            j += 1;
        }
    }
    proof {
        assert(a@.take(i as int) =~= a@);
        assert(b@.take(j as int) =~= b@);
    }
    out
}

/// A set of points forming one mass of water. The points are kept in
/// row-major order, each once.
#[derive(Clone, Debug, PartialEq)]
pub struct Blob {
    points: Vec<Point>,
}

impl View for Blob {
    type V = Set<Point>;

    closed spec fn view(&self) -> Set<Point> {
        self.points@.to_set()
    }
}

impl Default for Blob {
    fn default() -> (b: Blob)
        ensures
            b.wf(),
            b@ == Set::<Point>::empty(),
    {
        let b = Blob { points: Vec::new() };
        b
    }
}

impl Blob {
    /// The points in the order in which they are stored.
    pub closed spec fn spec_points(&self) -> Seq<Point> {
        self.points@
    }

    /// The points ascend strictly in row-major order.
    pub open spec fn wf(&self) -> bool {
        &&& strictly_sorted(self.spec_points())
        &&& self@ == self.spec_points().to_set()
    }

    /// The blob of the given points, in whatever order they come and
    /// however often each is listed.
    pub fn new(points: Vec<Point>) -> (b: Blob)
        ensures
            b.wf(),
            b@ == points@.to_set(),
    {
        let mut b = Blob { points: Vec::new() };
        let mut i: usize = 0;
        while i < points.len()
            invariant
                i <= points.len(),
                b.wf(),
                b@ == points@.take(i as int).to_set(),
            decreases points.len() - i,
        {
            b.insert(points[i]);
            proof {
                assert forall|p: Point|
                    points@.take(i + 1).to_set().contains(p) <==> points@.take(
                        i as int,
                    ).to_set().insert(points@[i as int]).contains(p) by {
                    lemma_take_contains(points@, i as int, p);
                }
            }
            i += 1;
        }
        assert(points@.take(i as int) =~= points@);
        b
    }

    pub fn points(&self) -> (points: &Vec<Point>)
        ensures
            points@ == self.spec_points(),
    {
        &self.points
    }

    /// Hands out the stored points for editing. The blob stays well formed
    /// as long as they stay in strictly ascending row-major order.
    pub fn points_mut(&mut self) -> (points: &mut Vec<Point>)
        ensures
            points@ == old(self).spec_points(),
            final(self).spec_points() == final(points)@,
            final(self)@ == final(points)@.to_set(),
    {
        &mut self.points
    }

    pub fn len(&self) -> (n: usize)
        requires
            self.wf(),
        ensures
            n == self@.len(),
            n == self.spec_points().len(),
    {
        proof {
            lemma_sorted_no_duplicates(self.points@);
            self.points@.unique_seq_to_set();
        }
        self.points.len()
    }

    pub fn is_empty(&self) -> (empty: bool)
        ensures
            empty == (self.spec_points().len() == 0),
            empty == (self@ == Set::<Point>::empty()),
            !empty ==> self@.contains(self.spec_points()[0]),
    {
        proof {
            if self.points@.len() > 0 {
                assert(self.points@.to_set().contains(self.points@[0]));
            } else {
                assert(self@ =~= Set::<Point>::empty());
            }
        }
        self.points.len() == 0
    }

    /// Adds one point; says whether it was new.
    pub fn insert(&mut self, p: Point) -> (fresh: bool)
        requires
            old(self).wf(),
        ensures
            final(self).wf(),
            final(self)@ == old(self)@.insert(p),
            fresh == !old(self)@.contains(p),
    {
        let before = self.points.len();
        let mut single: Vec<Point> = Vec::new();
        single.push(p);
        let merged = merge_sorted(&self.points, &single);
        proof {
            assert forall|q: Point| single@.to_set().contains(q) <==> q == p by {
                lemma_push_contains(Seq::<Point>::empty(), p, q);
            }
            lemma_sorted_no_duplicates(self.points@);
            lemma_sorted_no_duplicates(merged@);
            self.points@.unique_seq_to_set();
            merged@.unique_seq_to_set();
        }
        self.points = merged;
        self.points.len() != before
    }

    /// Adds the cells of row `y` from column `start` to column `end`,
    /// both included.
    pub fn extend_span(&mut self, y: usize, start: usize, end: usize)
        requires
            old(self).wf(),
        ensures
            final(self).wf(),
            forall|p: Point|
                final(self)@.contains(p) <==> old(self)@.contains(p) || (p.y == y && start <= p.x
                    <= end),
    {
        let mut run: Vec<Point> = Vec::new();
        if start <= end {
            let mut x: usize = start;
            while x < end
                invariant
                    start <= x <= end,
                    strictly_sorted(run@),
                    forall|k: int|
                        0 <= k < run.len() ==> (#[trigger] run@[k]).y == y && start <= run@[k].x
                            < x,
                    forall|p: Point| p.y == y && start <= p.x < x ==> run@.contains(p),
                decreases end - x,
            {
                let ghost before = run@;
                run.push(Point::new(x, y));
                proof {
                    assert forall|p: Point| p.y == y && start <= p.x < x + 1 implies run@.contains(
                        p,
                    ) by {
                        lemma_push_contains(before, Point { x, y }, p);
                    }
                }
                x += 1;
            }
            let ghost before = run@;
            run.push(Point::new(end, y));
            proof {
                assert forall|p: Point| p.y == y && start <= p.x <= end implies run@.contains(
                    p,
                ) by {
                    lemma_push_contains(before, Point { x: end, y }, p);
                }
            }
        }
        let merged = merge_sorted(&self.points, &run);
        self.points = merged;
    }

    /// Starts a walk over the points of the blob.
    pub fn into_iter(&self) -> (it: PointIterator)
        requires
            self.wf(),
        ensures
            it.wf(),
            it.remaining() == self@,
    {
        PointIterator::new(&self.points)
    }

    /// Whether the blob holds the point.
    pub fn contains(&self, p: &Point) -> (found: bool)
        requires
            self.wf(),
        ensures
            found == self@.contains(*p),
    {
        let mut lo: usize = 0;
        let mut hi: usize = self.points.len();
        while lo < hi
            invariant
                lo <= hi <= self.points.len(),
                strictly_sorted(self.points@),
                forall|k: int| 0 <= k < lo ==> (#[trigger] self.points@[k]).before(*p),
                forall|k: int| hi <= k < self.points.len() ==> p.before(#[trigger] self.points@[k]),
            decreases hi - lo,
        {
            let mid = lo + (hi - lo) / 2;
            let m = self.points[mid];
            if m < *p {
                lo = mid + 1;
            } else if *p < m {
                hi = mid;
            } else {
                return true;
            }
        }
        false
    }
}

/// A set of points has one listing only in strictly ascending order.
pub proof fn lemma_sorted_listing_unique(s: Seq<Point>, t: Seq<Point>)
    requires
        strictly_sorted(s),
        strictly_sorted(t),
        s.to_set() == t.to_set(),
    ensures
        s == t,
    decreases s.len(),
{
    if s.len() == 0 {
        if t.len() > 0 {
            assert(t.to_set().contains(t[0]));
        }
    } else {
        assert(s.to_set().contains(s.last()));
        assert(t.to_set().contains(t.last()));
        let front = s.drop_last();
        let other = t.drop_last();
        assert forall|p: Point| front.to_set().contains(p) <==> other.to_set().contains(p) by {
            if front.contains(p) {
                let k = choose|k: int| 0 <= k < front.len() && front[k] == p;
                assert(s.to_set().contains(s[k]));
                let m = choose|m: int| 0 <= m < t.len() && t[m] == p;
                assert(other[m] == p);
            }
            if other.contains(p) {
                let k = choose|k: int| 0 <= k < other.len() && other[k] == p;
                assert(t.to_set().contains(t[k]));
                let m = choose|m: int| 0 <= m < s.len() && s[m] == p;
                assert(front[m] == p);
            }
        }
        assert(front.to_set() =~= other.to_set());
        lemma_sorted_listing_unique(front, other);
        assert(s =~= front.push(s.last()));
    }
}

/// Blobs that hold the same points are stored alike.
pub proof fn lemma_blob_listing_unique(a: Blob, b: Blob)
    requires
        a.wf(),
        b.wf(),
        a@ == b@,
    ensures
        a.spec_points() == b.spec_points(),
{
    lemma_sorted_listing_unique(a.spec_points(), b.spec_points());
}

/// The test that picks the points of row `y`.
pub open spec fn in_row(y: usize) -> spec_fn(Point) -> bool {
    |p: Point| p.y == y
}

/// Filtering a strictly ascending sequence keeps it strictly ascending, and
/// keeps exactly the members that pass the test.
pub proof fn lemma_filter_sorted(s: Seq<Point>, pred: spec_fn(Point) -> bool)
    requires
        strictly_sorted(s),
    ensures
        strictly_sorted(s.filter(pred)),
        forall|p: Point| #[trigger] s.filter(pred).contains(p) <==> s.contains(p) && pred(p),
    decreases s.len(),
{
    reveal(Seq::filter);
    if s.len() > 0 {
        let front = s.drop_last();
        let last = s.last();
        lemma_filter_sorted(front, pred);
        let kept = front.filter(pred);
        let out = s.filter(pred);
        assert forall|p: Point| #[trigger] out.contains(p) <==> s.contains(p) && pred(p) by {
            lemma_push_contains(front, last, p);
            lemma_push_contains(kept, last, p);
        }
        if pred(last) {
            assert forall|i: int, j: int| 0 <= i < j < out.len() implies (#[trigger] out[i]).before(
                #[trigger] out[j],
            ) by {
                if j == kept.len() {
                    assert(kept.contains(kept[i]));
                }
            }
        }
    }
}

/// What passes a filter is a member that passes the test.
pub proof fn lemma_filter_member(s: Seq<Point>, pred: spec_fn(Point) -> bool, p: Point)
    requires
        s.filter(pred).contains(p),
    ensures
        s.contains(p),
        pred(p),
    decreases s.len(),
{
    reveal(Seq::filter);
    if s.len() > 0 {
        let front = s.drop_last();
        let kept = front.filter(pred);
        if pred(s.last()) {
            lemma_push_contains(kept, s.last(), p);
        }
        if kept.contains(p) {
            lemma_filter_member(front, pred, p);
        }
    }
}

/// Calls `Itertools::into_grouping_map_by` with a point's row as the key,
/// and `GroupingMap::collect` into vectors: each row that holds a point maps
/// to the points of that row, in the order in which they were listed.
#[verifier::external_body]
fn group_by_row(points: &Vec<Point>) -> (groups: HashMap<usize, Vec<Point>>)
    ensures
        (forall|y: usize| #[trigger]
            groups@.contains_key(y) <==> (exists|i: int|
                0 <= i < points@.len() && (#[trigger] points@[i]).y == y)),
        (forall|y: usize| #[trigger]
            groups@.contains_key(y) ==> groups@[y]@ == points@.filter(in_row(y))),
{
    points.iter().copied().into_grouping_map_by(|pt| pt.y()).collect::<Vec<Point>>()
}

/// Whether `k` is the largest of the rows.
pub open spec fn is_last_row(rows: Set<usize>, k: usize) -> bool {
    rows.contains(k) && forall|j: usize| rows.contains(j) ==> j <= k
}

/// The largest of the rows, where there is one.
pub open spec fn last_row_of(rows: Set<usize>) -> usize {
    choose|k: usize| is_last_row(rows, k)
}

/// Finitely many rows, if there are any, have a largest one.
pub proof fn lemma_last_row_exists(rows: Set<usize>)
    requires
        rows.finite(),
        rows.len() > 0,
    ensures
        is_last_row(rows, last_row_of(rows)),
    decreases rows.len(),
{
    let one = rows.choose();
    let others = rows.remove(one);
    if others.len() == 0 {
        assert forall|j: usize| rows.contains(j) implies j <= one by {
            if j != one {
                assert(others.contains(j));
            }
        }
        assert(is_last_row(rows, one));
    } else {
        lemma_last_row_exists(others);
        let top = last_row_of(others);
        let k = if one > top {
            one
        } else {
            top
        };
        assert forall|j: usize| rows.contains(j) implies j <= k by {
            if j != one {
                assert(others.contains(j));
            }
        }
        assert(is_last_row(rows, k));
    }
}

/// Calls `BTreeSet::last` on the rows: the largest of them, or `None`
/// where there is none.
#[verifier::external_body]
fn last_row(rows: &BTreeSet<usize>) -> (row: Option<usize>)
    ensures
        match row {
            Some(k) => is_last_row(rows@, k),
            None => rows@ == Set::<usize>::empty(),
        },
{
    rows.last().copied()
}

/// Walks the points of a blob row by row from the bottom row up, and
/// within a row in an order that the random source decides.
#[derive(Debug)]
pub struct PointIterator {
    points: HashMap<usize, Vec<Point>>,
    keys: BTreeSet<usize>,
}

impl PointIterator {
    /// The points that are still to come.
    pub closed spec fn remaining(&self) -> Set<Point> {
        Set::new(|p: Point| self.points@.contains_key(p.y) && self.points@[p.y]@.contains(p))
    }

    /// The points of the lowest row that still has any, from left to right.
    pub closed spec fn bottom_row(&self) -> Seq<Point> {
        if self.keys@.len() == 0 {
            Seq::empty()
        } else {
            self.points@[last_row_of(self.keys@)]@
        }
    }

    /// The rows that still have points are listed, and each of them holds
    /// its points from left to right.
    pub closed spec fn wf(&self) -> bool {
        &&& self.remaining().finite()
        &&& self.keys@.finite()
        &&& forall|y: usize| #[trigger] self.points@.contains_key(y) <==> self.keys@.contains(y)
        &&& forall|y: usize| #[trigger]
            self.points@.contains_key(y) ==> {
                &&& self.points@[y]@.len() > 0
                &&& strictly_sorted(self.points@[y]@)
                &&& forall|k: int|
                    0 <= k < self.points@[y]@.len() ==> (#[trigger] self.points@[y]@[k]).y == y
            }
    }

    /// What the lowest row is: its points are still to come, nothing that
    /// is still to come lies below it, and it is empty only at the end.
    pub proof fn lemma_bottom_row(&self)
        requires
            self.wf(),
        ensures
            self.remaining().finite(),
            self.bottom_row().len() == 0 <==> self.remaining() == Set::<Point>::empty(),
            strictly_sorted(self.bottom_row()),
            forall|k: int|
                0 <= k < self.bottom_row().len() ==> self.remaining().contains(
                    #[trigger] self.bottom_row()[k],
                ),
            forall|k: int, q: Point|
                #![trigger self.bottom_row()[k], self.remaining().contains(q)]
                0 <= k < self.bottom_row().len() && self.remaining().contains(q) ==> q.y
                    <= self.bottom_row()[k].y,
            forall|k: int, q: Point|
                #![trigger self.bottom_row()[k], self.remaining().contains(q)]
                0 <= k < self.bottom_row().len() && self.remaining().contains(q) && q.y
                    == self.bottom_row()[k].y ==> self.bottom_row().contains(q),
    {
        if self.keys@.len() == 0 {
            assert forall|p: Point| !self.remaining().contains(p) by {
                if self.points@.contains_key(p.y) {
                    assert(self.keys@.contains(p.y));
                }
            }
            assert(self.remaining() =~= Set::<Point>::empty());
        } else {
            lemma_last_row_exists(self.keys@);
            let row = last_row_of(self.keys@);
            assert(self.points@.contains_key(row));
            let group = self.points@[row]@;
            assert(self.remaining().contains(group[0]));
            assert forall|k: int, q: Point|
                #![trigger group[k], self.remaining().contains(q)]
                0 <= k < group.len() && self.remaining().contains(q) implies q.y <= group[k].y by {
                assert(self.keys@.contains(q.y));
            }
        }
    }

    /// Groups the points of a blob, given in row-major order, by their row.
    pub fn new(points: &Vec<Point>) -> (it: PointIterator)
        requires
            strictly_sorted(points@),
        ensures
            it.wf(),
            it.remaining() == points@.to_set(),
    {
        let grouped_points = group_by_row(points);
        let mut keys: BTreeSet<usize> = BTreeSet::new();
        let mut i: usize = 0;
        while i < points.len()
            invariant
                i <= points.len(),
                keys@.finite(),
                forall|y: usize|
                    keys@.contains(y) <==> (exists|k: int|
                        0 <= k < i && (#[trigger] points@[k]).y == y),
            decreases points.len() - i,
        {
            let ghost before = keys@;
            keys.insert(points[i].y());
            proof {
                assert forall|z: usize|
                    keys@.contains(z) <==> (exists|k: int|
                        0 <= k < i + 1 && (#[trigger] points@[k]).y == z) by {
                    if before.contains(z) {
                        let k = choose|k: int| 0 <= k < i && (#[trigger] points@[k]).y == z;
                        assert(points@[k].y == z);
                    }
                    if exists|k: int| 0 <= k < i + 1 && (#[trigger] points@[k]).y == z {
                        let k = choose|k: int| 0 <= k < i + 1 && (#[trigger] points@[k]).y == z;
                        if k < i {
                            assert(before.contains(z));
                        }
                    }
                }
            }
            i += 1;
        }
        let it = PointIterator { keys, points: grouped_points };
        proof {
            assert forall|y: usize| #[trigger] it.points@.contains_key(y) implies {
                &&& it.points@[y]@.len() > 0
                &&& strictly_sorted(it.points@[y]@)
                &&& forall|k: int|
                    0 <= k < it.points@[y]@.len() ==> (#[trigger] it.points@[y]@[k]).y == y
            } by {
                lemma_filter_sorted(points@, in_row(y));
                let k = choose|k: int| 0 <= k < points@.len() && (#[trigger] points@[k]).y == y;
                assert(it.points@[y]@.contains(points@[k]));
            }
            assert forall|p: Point| it.remaining().contains(p) <==> points@.to_set().contains(
                p,
            ) by {
                lemma_filter_sorted(points@, in_row(p.y));
                if points@.contains(p) {
                    assert(it.points@.contains_key(p.y));
                }
            }
            assert(it.remaining() =~= points@.to_set());
            vstd::seq_lib::seq_to_set_is_finite(points@);
        }
        it
    }

    /// Takes the point at place `pick` of the lowest row out of what is
    /// still to come.
    pub fn take_from_bottom_row(&mut self, pick: usize) -> (p: Point)
        requires
            old(self).wf(),
            pick < old(self).bottom_row().len(),
        ensures
            final(self).wf(),
            p == old(self).bottom_row()[pick as int],
            final(self).remaining() == old(self).remaining().remove(p),
    {
        proof {
            lemma_last_row_exists(self.keys@);
        }
        let row = last_row(&self.keys).unwrap();
        let mut group = self.points.remove(&row).unwrap();
        let ghost old_group = group@;
        let p = group.remove(pick);
        proof {
            old_group.remove_ensures(pick as int);
            assert forall|q: Point| group@.contains(q) <==> old_group.contains(q) && q != p by {
                if old_group.contains(q) && q != p {
                    let k = choose|k: int| 0 <= k < old_group.len() && old_group[k] == q;
                    if k < pick {
                        assert(group@[k] == q);
                    } else {
                        assert(group@[k - 1] == q);
                    }
                }
            }
        }
        if group.len() > 0 {
            self.points.insert(row, group);
        } else {
            self.keys.remove(&row);
        }
        proof {
            assert(old(self).remaining().contains(p));
            assert(self.remaining() =~= old(self).remaining().remove(p));
        }
        p
    }

    /// The next point, or `None` at the end. Points come row by row from
    /// the bottom row up, each once; which point of a row comes first is
    /// drawn from `rng`.
    pub fn next(&mut self, rng: &mut StdRng) -> (next: Option<Point>)
        requires
            old(self).wf(),
        ensures
            final(self).wf(),
            match next {
                Some(p) => {
                    &&& old(self).bottom_row().contains(p)
                    &&& final(self).remaining() == old(self).remaining().remove(p)
                },
                None => {
                    &&& old(self).remaining() == Set::<Point>::empty()
                    &&& final(self).remaining() == old(self).remaining()
                },
            },
    {
        proof {
            self.lemma_bottom_row();
        }
        let row = match last_row(&self.keys) {
            Some(row) => row,
            None => {
                return None;
            },
        };
        proof {
            lemma_last_row_exists(self.keys@);
        }
        let points_in_row = match self.points.get(&row) {
            Some(group) => group.len(),
            None => 0,
        };
        let pick = random_index(rng, points_in_row);
        Some(self.take_from_bottom_row(pick))
    }
}

} // verus!
