//! Filling a polygon by scan lines: in each row of pixels the crossings of
//! the polygon's edges are sorted and the stretches between the first and
//! the second, the third and the fourth, and so on, are filled.

use vstd::prelude::*;
use vstd::relations::{sorted_by, total_ordering};
use vstd::seq_lib::lemma_sorted_unique;
use crate::fixed::{pixel_of, to_pixel, trunc_div, ONE};
use crate::framebuffer::{lemma_pixel_coords, Framebuffer};
use crate::player::Point;

verus! {

/// The largest size of a vertex coordinate: with it the products that
/// locate a crossing fit in 128 bits.
pub const VERTEX_LIMIT: i64 = 0x2000_0000_0000_0000;

/// Both coordinates of the vertex are within `VERTEX_LIMIT` of 0.
pub open spec fn drawable(p: Point) -> bool {
    &&& -VERTEX_LIMIT <= p.x <= VERTEX_LIMIT
    &&& -VERTEX_LIMIT <= p.y <= VERTEX_LIMIT
}

/// The row of pixels that holds the vertex; a pixel is one unit high.
pub open spec fn row_of(p: Point) -> int {
    pixel_of(p.y as int)
}

/// The edge from `tail` to `head` crosses row `y`: one end lies in the row or
/// above it, the other below it.
pub open spec fn crosses(tail: Point, head: Point, y: int) -> bool {
    (row_of(tail) <= y < row_of(head)) || (row_of(head) <= y < row_of(tail))
}

/// Where the line through `tail` and `head` meets the upper edge of row `y`, in
/// fixed point, the offset from `tail` rounded toward zero.
pub open spec fn crossing_x(tail: Point, head: Point, y: int) -> int {
    let rise = head.y - tail.y;
    let run = (y * ONE - tail.y) * (head.x - tail.x);
    if rise > 0 {
        tail.x + trunc_div(run, rise)
    } else {
        tail.x - trunc_div(run, -rise)
    }
}

/// The crossings of row `y` with the first `count` edges of the polygon, in
/// the order of the edges. Edge `i` runs from vertex `i` to the next, the
/// last edge back to vertex 0.
pub open spec fn crossings(points: Seq<Point>, y: int, count: int) -> Seq<i128>
    decreases count,
{
    if count <= 0 {
        Seq::empty()
    } else {
        let rest = crossings(points, y, count - 1);
        let tail = points[count - 1];
        let head = points[count % (points.len() as int)];
        if crosses(tail, head, y) {
            rest.push(crossing_x(tail, head, y) as i128)
        } else {
            rest
        }
    }
}

/// The order of numbers.
pub open spec fn leq() -> spec_fn(i128, i128) -> bool {
    |a: i128, b: i128| a <= b
}

/// The crossings of row `y` with all edges, from left to right.
pub open spec fn sorted_crossings(points: Seq<Point>, y: int) -> Seq<i128> {
    crossings(points, y, points.len() as int).sort_by(leq())
}

/// The pixel column `x` lies between crossing `2 * j` and crossing
/// `2 * j + 1` of `xs`, the pixels of both included. A crossing left of the
/// surface counts as one in column 0.
pub open spec fn pair_covers(xs: Seq<i128>, j: int, x: int) -> bool {
    &&& 0 <= j
    &&& 2 * j + 1 < xs.len()
    &&& pixel_of(xs[2 * j] as int) <= x <= pixel_of(xs[2 * j + 1] as int)
}

/// One of the first `pairs` pairs of `xs` covers the pixel column `x`.
pub open spec fn covered(xs: Seq<i128>, x: int, pairs: int) -> bool {
    exists|j: int| j < pairs && #[trigger] pair_covers(xs, j, x)
}

/// The pixel `(x, y)` belongs to the filled polygon.
pub open spec fn in_polygon(points: Seq<Point>, x: int, y: int) -> bool {
    covered(sorted_crossings(points, y), x, sorted_crossings(points, y).len() as int)
}

/// The buffer after the first `pairs` pairs of `xs` were filled in row `y`.
spec fn row_filled(
    buffer: Seq<u32>,
    width: int,
    xs: Seq<i128>,
    y: int,
    color: u32,
    pairs: int,
) -> Seq<u32> {
    Seq::new(
        buffer.len(),
        |i: int|
            if i / width == y && covered(xs, i % width, pairs) {
                color
            } else {
                buffer[i]
            },
    )
}

/// The buffer after the rows before `rows` of the polygon were filled.
spec fn polygon_filled_upto(
    buffer: Seq<u32>,
    width: int,
    points: Seq<Point>,
    color: u32,
    rows: int,
) -> Seq<u32> {
    Seq::new(
        buffer.len(),
        |i: int|
            if i / width < rows && in_polygon(points, i % width, i / width) {
                color
            } else {
                buffer[i]
            },
    )
}

/// The buffer after the polygon was filled with `color`.
pub open spec fn polygon_filled(buffer: Seq<u32>, width: int, points: Seq<Point>, color: u32) -> Seq<
    u32,
> {
    Seq::new(
        buffer.len(),
        |i: int|
            if in_polygon(points, i % width, i / width) {
                color
            } else {
                buffer[i]
            },
    )
}

/// The order of numbers is total.
pub proof fn lemma_leq_total()
    ensures
        total_ordering(leq()),
{
    let r = leq();
    assert(vstd::relations::reflexive(r));
    assert(vstd::relations::antisymmetric(r));
    assert(vstd::relations::transitive(r));
    assert(vstd::relations::strongly_connected(r));
}

/// A row that no vertex lies above, or that all vertices lie in or above,
/// has no crossings.
pub proof fn lemma_no_crossings(points: Seq<Point>, y: int, lo: int, hi: int, count: int)
    requires
        forall|i: int| 0 <= i < points.len() ==> lo <= #[trigger] row_of(points[i]) <= hi,
        y < lo || y >= hi,
        count <= points.len(),
    ensures
        crossings(points, y, count).len() == 0,
    decreases count,
{
    if count > 0 {
        lemma_no_crossings(points, y, lo, hi, count - 1);
        let n = points.len() as int;
        assert(0 <= count % n < n);
        assert(lo <= row_of(points[count - 1]) <= hi);
        assert(lo <= row_of(points[count % n]) <= hi);
    }
}

/// A sorted sequence with the crossings of a row as its elements is the
/// sorted crossings of that row.
pub proof fn lemma_sorted_crossings(points: Seq<Point>, y: int, xs: Seq<i128>)
    requires
        sorted_by(xs, leq()),
        xs.to_multiset() == crossings(points, y, points.len() as int).to_multiset(),
    ensures
        xs == sorted_crossings(points, y),
{
    lemma_leq_total();
    let all = crossings(points, y, points.len() as int);
    all.lemma_sort_by_ensures(leq());
    lemma_sorted_unique(xs, all.sort_by(leq()), leq());
}

/// A surface that polygons can be drawn on.
pub trait Polygon: Sized {
    /// The surface is in a state to be drawn on.
    spec fn ready(&self) -> bool;

    /// The surface is `before` with the polygon `points` filled in.
    spec fn filled_from(&self, before: &Self, points: Seq<Point>) -> bool;

    /// Fills the polygon with the corners `points`, in fixed-point pixel
    /// coordinates, with the drawing colour.
    fn filled_polygon(&mut self, points: &Vec<Point>)
        requires
            old(self).ready(),
            forall|i: int| 0 <= i < points@.len() ==> drawable(#[trigger] points@[i]),
        ensures
            final(self).ready(),
            final(self).filled_from(old(self), points@),
    ;
}

/// The pixel that holds the fixed-point coordinate `v`.
fn pixel(v: i128) -> (r: usize)
    ensures
        r == if pixel_of(v as int) > usize::MAX {
            usize::MAX as int
        } else {
            pixel_of(v as int)
        },
{
    if v < 0 {
        0
    } else {
        to_pixel(v / (ONE as i128))
    }
}

/// The row of pixels that holds the vertex.
fn vertex_row(p: Point) -> (row: i64)
    ensures
        row == row_of(p),
{
    if p.y < 0 {
        0
    } else {
        p.y / ONE
    }
}

/// Whether the edge from `tail` to `head` crosses row `y`.
fn edge_crosses(tail: Point, head: Point, y: usize) -> (r: bool)
    ensures
        r == crosses(tail, head, y as int),
{
    let r1: i128 = vertex_row(tail) as i128;
    let r2: i128 = vertex_row(head) as i128;
    let row: i128 = y as i128;
    (r1 <= row && row < r2) || (r2 <= row && row < r1)
}

/// Where the edge from `tail` to `head` meets the upper edge of row `y`.
fn edge_crossing(tail: Point, head: Point, y: usize) -> (x: i128)
    requires
        drawable(tail),
        drawable(head),
        crosses(tail, head, y as int),
    ensures
        x == crossing_x(tail, head, y as int),
{
    let rise: i128 = head.y as i128 - tail.y as i128;
    let top: i128 = (y as i128) * 1_000_000;
    assert(top == y * ONE);
    let t: i128 = top - tail.y as i128;
    let dx: i128 = head.x as i128 - tail.x as i128;
    assert(-0x1000_0000_0000_0000_0000_0000_0000_0000 <= t * dx
        <= 0x1000_0000_0000_0000_0000_0000_0000_0000) by (nonlinear_arith)
        requires
            -0x4000_0000_0000_0000 <= t <= 0x4000_0000_0000_0000,
            -0x4000_0000_0000_0000 <= dx <= 0x4000_0000_0000_0000,
    ;
    let run: i128 = t * dx;
    let size: i128 = if rise > 0 {
        rise
    } else {
        -rise
    };
    proof {
        let amount = if run >= 0 {
            run as int
        } else {
            -(run as int)
        };
        vstd::arithmetic::div_mod::lemma_div_pos_is_pos(amount, size as int);
        vstd::arithmetic::div_mod::lemma_div_is_ordered_by_denominator(amount, 1, size as int);
        assert(amount / 1 == amount);
    }
    let offset: i128 = run / size;
    if rise > 0 {
        tail.x as i128 + offset
    } else {
        tail.x as i128 - offset
    }
}

/// Puts `x` into the sorted `xs` at its place.
fn insert_sorted(xs: &mut Vec<i128>, x: i128)
    requires
        sorted_by(old(xs)@, leq()),
    ensures
        sorted_by(final(xs)@, leq()),
        final(xs)@.to_multiset() == old(xs)@.to_multiset().insert(x),
{
    let n: usize = xs.len();
    let mut at: usize = 0;
    while at < n && xs[at] <= x
        invariant
            at <= n,
            n == xs@.len(),
            xs@ == old(xs)@,
            forall|k: int| 0 <= k < at ==> xs@[k] <= x,
        decreases n - at,
    {
        at = at + 1;
    }
    let ghost before = xs@;
    xs.insert(at, x);
    proof {
        vstd::seq_lib::to_multiset_insert(before, at as int, x);
        assert forall|i: int, j: int| 0 <= i < j < xs@.len() implies #[trigger] leq()(
            xs@[i],
            xs@[j],
        ) by {
            if i < at && j > at {
                assert(leq()(before[i], before[j - 1]));
            } else if i < at && j < at {
                assert(leq()(before[i], before[j]));
            } else if i > at {
                assert(leq()(before[i - 1], before[j - 1]));
            } else if i == at {
                if at < n {
                    assert(leq()(before[at as int], before[j - 1]) || j - 1 == at);
                }
            }
        }
    }
}

/// The crossings of row `y` with the edges of the polygon, from left to
/// right.
fn row_crossings(points: &Vec<Point>, y: usize) -> (xs: Vec<i128>)
    requires
        forall|i: int| 0 <= i < points@.len() ==> drawable(#[trigger] points@[i]),
    ensures
        xs@ == sorted_crossings(points@, y as int),
{
    let n: usize = points.len();
    let mut xs: Vec<i128> = Vec::new();
    let mut i: usize = 0;
    while i < n
        invariant
            i <= n,
            n == points@.len(),
            forall|k: int| 0 <= k < points@.len() ==> drawable(#[trigger] points@[k]),
            sorted_by(xs@, leq()),
            xs@.to_multiset() == crossings(points@, y as int, i as int).to_multiset(),
        decreases n - i,
    {
        let tail: Point = points[i];
        let next: usize = if i + 1 == n {
            0
        } else {
            i + 1
        };
        assert(next == (i + 1) % (n as int)) by {
            if i + 1 == n {
                assert((i + 1) % (n as int) == 0) by (nonlinear_arith)
                    requires
                        i + 1 == n,
                        n > 0,
                ;
            } else {
                vstd::arithmetic::div_mod::lemma_small_mod((i + 1) as nat, n as nat);
            }
        }
        let head: Point = points[next];
        if edge_crosses(tail, head, y) {
            let x: i128 = edge_crossing(tail, head, y);
            let ghost rest = crossings(points@, y as int, i as int);
            insert_sorted(&mut xs, x);
            proof {
                vstd::seq_lib::to_multiset_build(rest, x);
            }
        }
        i = i + 1;
    }
    proof {
        lemma_sorted_crossings(points@, y as int, xs@);
    }
    xs
}

impl Framebuffer {
    /// Fills in row `y` the stretches between the crossings `xs`, taken in
    /// pairs.
    fn fill_pairs(&mut self, xs: &Vec<i128>, y: usize)
        requires
            old(self).wf(),
            y < old(self).height,
        ensures
            final(self).wf(),
            final(self).same_settings(old(self)),
            final(self).buffer@ == row_filled(
                old(self).buffer@,
                old(self).width as int,
                xs@,
                y as int,
                old(self).current_color,
                xs@.len() as int,
            ),
    {
        let ghost before = *self;
        let ghost w = self.width as int;
        let ghost h = self.height as int;
        let ghost color = self.current_color;
        let n: usize = xs.len();
        let mut j: usize = 0;
        assert(self.buffer@ =~= row_filled(before.buffer@, w, xs@, y as int, color, 0));
        while j < n / 2
            invariant
                j <= n / 2,
                n == xs@.len(),
                y < self.height,
                w == self.width,
                h == self.height,
                color == self.current_color,
                before.wf(),
                self.wf(),
                self.same_settings(&before),
                self.buffer@ == row_filled(before.buffer@, w, xs@, y as int, color, j as int),
            decreases n / 2 - j,
        {
            let ghost prev = self.buffer@;
            let x1: usize = pixel(xs[2 * j]);
            let x2: usize = pixel(xs[2 * j + 1]);
            self.fill_rect(x1, y, x2.saturating_add(1), y + 1);
            proof {
                let next = row_filled(before.buffer@, w, xs@, y as int, color, j + 1);
                assert forall|i: int| 0 <= i < prev.len() implies #[trigger] self.buffer@[i]
                    == next[i] by {
                    lemma_pixel_coords(i, w, h);
                    let px = i % w;
                    let here = pair_covers(xs@, j as int, px);
                    let earlier = covered(xs@, px, j as int);
                    let now = covered(xs@, px, j + 1);
                    if here {
                        assert(now);
                    } else if earlier {
                        let k = choose|k: int| k < j && #[trigger] pair_covers(xs@, k, px);
                        assert(now);
                    } else if now {
                        let k = choose|k: int| k < j + 1 && #[trigger] pair_covers(xs@, k, px);
                        assert(false);
                    }
                }
                assert(self.buffer@ =~= next);
            }
            j = j + 1;
        }
        proof {
            let done = row_filled(before.buffer@, w, xs@, y as int, color, n as int);
            assert forall|i: int| 0 <= i < self.buffer@.len() implies #[trigger] self.buffer@[i]
                == done[i] by {
                let px = i % w;
                if covered(xs@, px, n as int) {
                    let k = choose|k: int| k < n && #[trigger] pair_covers(xs@, k, px);
                    assert(k < n / 2);
                    assert(covered(xs@, px, (n / 2) as int));
                }
                if covered(xs@, px, (n / 2) as int) {
                    let k = choose|k: int| k < n / 2 && #[trigger] pair_covers(xs@, k, px);
                    assert(covered(xs@, px, n as int));
                }
            }
            assert(self.buffer@ =~= done);
        }
    }
}

impl Polygon for Framebuffer {
    open spec fn ready(&self) -> bool {
        self.wf()
    }

    /// Nothing but the buffer has changed, and in the buffer the pixels of
    /// the polygon have the drawing colour.
    open spec fn filled_from(&self, before: &Framebuffer, points: Seq<Point>) -> bool {
        &&& self.same_settings(before)
        &&& self.buffer@ == polygon_filled(
            before.buffer@,
            before.width as int,
            points,
            before.current_color,
        )
    }

    fn filled_polygon(&mut self, points: &Vec<Point>) {
        let ghost before = *self;
        let ghost w = self.width as int;
        let ghost h = self.height as int;
        let ghost color = self.current_color;
        let n: usize = points.len();
        let mut lo: i64 = i64::MAX;
        let mut hi: i64 = 0;
        let mut i: usize = 0;
        while i < n
            invariant
                i <= n,
                n == points@.len(),
                forall|k: int| 0 <= k < i ==> lo <= #[trigger] row_of(points@[k]) <= hi,
                0 <= hi,
                i == 0 ==> lo == i64::MAX,
                i > 0 ==> 0 <= lo <= hi,
            decreases n - i,
        {
            let row: i64 = vertex_row(points[i]);
            if row < lo {
                lo = row;
            }
            if row > hi {
                hi = row;
            }
            i = i + 1;
        }
        let height: usize = self.height;
        let mut y: usize = 0;
        proof {
            assert forall|k: int| 0 <= k < self.buffer@.len() implies #[trigger] self.buffer@[k]
                == polygon_filled_upto(before.buffer@, w, points@, color, 0)[k] by {
                lemma_pixel_coords(k, w, h);
            }
            assert(self.buffer@ =~= polygon_filled_upto(before.buffer@, w, points@, color, 0));
        }
        while y < height
            invariant
                y <= height,
                n == points@.len(),
                height == self.height,
                w == self.width,
                h == self.height,
                color == self.current_color,
                forall|k: int| 0 <= k < points@.len() ==> drawable(#[trigger] points@[k]),
                forall|k: int| 0 <= k < n ==> lo <= #[trigger] row_of(points@[k]) <= hi,
                before.wf(),
                self.wf(),
                self.same_settings(&before),
                self.buffer@ == polygon_filled_upto(
                    before.buffer@,
                    w,
                    points@,
                    color,
                    y as int,
                ),
            decreases height - y,
        {
            let ghost prev = self.buffer@;
            let row: i128 = y as i128;
            if lo as i128 <= row && row < hi as i128 {
                let xs: Vec<i128> = row_crossings(points, y);
                self.fill_pairs(&xs, y);
            } else {
                proof {
                    lemma_no_crossings(points@, y as int, lo as int, hi as int, n as int);
                    lemma_sorted_crossings(
                        points@,
                        y as int,
                        crossings(points@, y as int, n as int),
                    );
                }
            }
            proof {
                let next = polygon_filled_upto(before.buffer@, w, points@, color, y + 1);
                assert forall|k: int| 0 <= k < prev.len() implies #[trigger] self.buffer@[k]
                    == next[k] by {
                    lemma_pixel_coords(k, w, h);
                }
                assert(self.buffer@ =~= next);
            }
            y = y + 1;
        }
        proof {
            let done = polygon_filled(before.buffer@, w, points@, color);
            assert forall|k: int| 0 <= k < self.buffer@.len() implies #[trigger] self.buffer@[k]
                == done[k] by {
                lemma_pixel_coords(k, w, h);
            }
            assert(self.buffer@ =~= done);
        }
    }
}

} // verus!
