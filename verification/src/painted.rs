//! Which pixels a drawing touches: after a run, a line or a triangle was
//! painted, a pixel of the image holds the colour if the figure covers it,
//! and what it held before if not.
//!
//! A triangle holds the pixels that lie at or beyond one of its edges and
//! before another, on the scanlines from its top corner down to, but not
//! with, its bottom corner. A pixel through which an edge runs so belongs to
//! the triangle on the right of the edge, and to no other: triangles that
//! share an edge tile, without a gap and without a pixel painted twice.

use crate::draw::{line_ends, sort_by_y, winding, Point};
use crate::image::{Color, ImageView};
use crate::line::{LineStateRound, LineView};
use vstd::prelude::*;

verus! {

impl Color {
    /// The colour as a pixel of `n` bytes gives it back: the channels that
    /// the pixel has no byte for are zero.
    pub open spec fn stored(self, n: int) -> Color {
        Color::from_bytes(self.bytes(n))
    }
}

/// The point at which a line's cursor stands after `k` steps from `s`.
pub open spec fn line_point(s: LineView, steep: bool, k: int) -> Point {
    let t = s.after(k);
    if steep {
        (t.b, t.a)
    } else {
        (t.a, t.b)
    }
}

/// `p` is one of the first `count` points of the line that starts at `s`.
pub open spec fn on_points(s: LineView, steep: bool, count: int, p: Point) -> bool {
    exists|k: int| 0 <= k < count && #[trigger] line_point(s, steep, k) == p
}

/// `p` is a point of the line between `p0` and `p1`.
pub open spec fn on_line(p0: Point, p1: Point, p: Point) -> bool {
    let (steep, a0, b0, a1, b1) = line_ends(p0, p1);
    on_points(LineView::start(a0, b0, a1, b1, LineStateRound::Nearest), steep, a1 - a0 + 1, p)
}

/// A line holds the same points whichever end it is drawn from.
pub proof fn lemma_on_line_symmetric(p0: Point, p1: Point, p: Point)
    ensures
        on_line(p0, p1, p) == on_line(p1, p0, p),
{
    assert(line_ends(p0, p1) == line_ends(p1, p0));
}

/// `p` lies on the scanline that the cursors `l` and `r` paint: at or
/// beyond one of them and before the other.
pub open spec fn in_row(l: LineView, r: LineView, p: Point) -> bool {
    p.1 == r.a && ((p.0 >= l.b) != (p.0 >= r.b))
}

/// The scanline that the cursors paint after `k` steps from `l` and `r`
/// holds `p`.
pub open spec fn in_row_after(l: LineView, r: LineView, k: int, p: Point) -> bool {
    in_row(l.after(k), r.after(k), p)
}

/// One of the `count` scanlines from step `first` on holds `p`.
pub open spec fn in_rows(l: LineView, r: LineView, first: int, count: int, p: Point) -> bool {
    exists|k: int| first <= k < first + count && #[trigger] in_row_after(l, r, k, p)
}

/// One of the scanlines of the triangle with the corners `q0`, `q1`, `q2`,
/// from top to bottom, holds `p`.
pub open spec fn in_scanlines(q0: Point, q1: Point, q2: Point, p: Point) -> bool {
    let upper = LineView::start(q0.1, q0.0, q1.1, q1.0, LineStateRound::Left);
    let long = LineView::start(q0.1, q0.0, q2.1, q2.0, LineStateRound::Left);
    let lower = LineView::start(q1.1, q1.0, q2.1, q2.0, LineStateRound::Left);
    in_rows(upper, long, 0, q1.1 - q0.1, p) || in_rows(
        lower,
        long.after(q1.1 - q0.1),
        0,
        q2.1 - q1.1,
        p,
    )
}

/// On which side of the line through `t` and `b` the point `p` lies: where
/// `t` is the upper of the two, the number is zero on the line, positive to
/// the right of it and negative to the left.
pub open spec fn side(t: Point, b: Point, p: Point) -> int {
    (p.0 - t.0) * (b.1 - t.1) - (p.1 - t.1) * (b.0 - t.0)
}

/// The edge between `u` and `v` has a point on the scanline of `p`: the
/// scanlines of an edge are those from its upper end down to, but not with,
/// its lower end. A level edge has none.
pub open spec fn reaches(u: Point, v: Point, p: Point) -> bool {
    (u.1 <= p.1 < v.1) || (v.1 <= p.1 < u.1)
}

/// The edge between `u` and `v` crosses the scanline of `p` at `p` or to
/// the left of it.
pub open spec fn crosses(u: Point, v: Point, p: Point) -> bool {
    if u.1 < v.1 {
        u.1 <= p.1 < v.1 && side(u, v, p) >= 0
    } else {
        v.1 <= p.1 < u.1 && side(v, u, p) >= 0
    }
}

/// The filled triangle with corners `p0`, `p1`, `p2` holds `p`: on the
/// scanline of `p`, an odd number of its edges cross at `p` or to the left
/// of it. So a pixel through which an edge runs belongs to the triangle on
/// the right of the edge, and the lowest scanline of a triangle is the one
/// above its bottom corner.
pub open spec fn in_triangle(p0: Point, p1: Point, p2: Point, p: Point) -> bool {
    (crosses(p0, p1, p) != crosses(p1, p2, p)) != crosses(p2, p0, p)
}

/// The figure with the four corners `p0`, `p1`, `p2`, `p3` in turn holds
/// `p`, by the rule of the triangle: an odd number of its edges cross the
/// scanline of `p` at `p` or to the left of it.
pub open spec fn in_quad(p0: Point, p1: Point, p2: Point, p3: Point, p: Point) -> bool {
    ((crosses(p0, p1, p) != crosses(p1, p2, p)) != crosses(p2, p3, p)) != crosses(p3, p0, p)
}

/// `c` and `d` lie on opposite sides of the line through `a` and `b`, and
/// neither on it.
pub open spec fn opposite(a: Point, b: Point, c: Point, d: Point) -> bool {
    (side(a, b, c) > 0 && side(a, b, d) < 0) || (side(a, b, c) < 0 && side(a, b, d) > 0)
}

/// The scanlines of a triangle hold the pixels that the triangle holds.
pub proof fn lemma_scanlines(q0: Point, q1: Point, q2: Point, p: Point)
    requires
        q0.1 <= q1.1 <= q2.1,
    ensures
        in_scanlines(q0, q1, q2, p) == in_triangle(q0, q1, q2, p),
{
    let upper = LineView::start(q0.1, q0.0, q1.1, q1.0, LineStateRound::Left);
    let long = LineView::start(q0.1, q0.0, q2.1, q2.0, LineStateRound::Left);
    let lower = LineView::start(q1.1, q1.0, q2.1, q2.0, LineStateRound::Left);
    let n1 = q1.1 - q0.1;
    let n2 = q2.1 - q1.1;
    let mid = long.after(n1);
    let y = p.1;
    assert forall|k: int| 0 <= k < n1 && k != y - q0.1 implies !in_row_after(
        upper,
        long,
        k,
        p,
    ) by {}
    assert forall|k: int| 0 <= k < n2 && k != y - q1.1 implies !in_row_after(lower, mid, k, p) by {}
    if q0.1 <= y < q1.1 {
        let k = y - q0.1;
        LineView::lemma_left_cursor(q0.1, q0.0, q1.1, q1.0, k, p.0);
        LineView::lemma_left_cursor(q0.1, q0.0, q2.1, q2.0, k, p.0);
        assert(in_row_after(upper, long, k, p) == in_triangle(q0, q1, q2, p));
    } else if q1.1 <= y < q2.1 {
        let k = y - q1.1;
        LineView::lemma_left_cursor(q1.1, q1.0, q2.1, q2.0, k, p.0);
        LineView::lemma_left_cursor(q0.1, q0.0, q2.1, q2.0, n1 + k, p.0);
        long.lemma_after_after(n1, k);
        assert(in_row_after(lower, mid, k, p) == in_triangle(q0, q1, q2, p));
    }
}

/// The sum of products by which the side of a point is told from the side
/// of a corner: with `l`, `cv` and `lw` the sides of the point from the
/// shared line, of the point from the edge, and of the corner from the
/// shared line.
proof fn lemma_sides(
    tx: int,
    ty: int,
    wx: int,
    wy: int,
    dx: int,
    dy: int,
)
    requires
        0 < dy,
    ensures
        ({
            let l = tx * dy - ty * dx;
            let cv = tx * wy - ty * wx;
            let lw = wx * dy - wy * dx;
            &&& (wy > 0 && ty >= 0 && lw > 0 && cv >= 0 ==> l >= 0)
            &&& (wy > 0 && ty >= 0 && lw < 0 && cv < 0 ==> l < 0)
            &&& (wy < 0 && ty < 0 && lw > 0 && cv <= 0 ==> l >= 0)
            &&& (wy < 0 && ty < 0 && lw < 0 && cv > 0 ==> l < 0)
        }),
{
    let l = tx * dy - ty * dx;
    let cv = tx * wy - ty * wx;
    let lw = wx * dy - wy * dx;
    let left = wy * l;
    let first = dy * cv;
    let second = ty * lw;
    assert(left == first + second) by (nonlinear_arith)
        requires
            left == wy * (tx * dy - ty * dx),
            first == dy * (tx * wy - ty * wx),
            second == ty * (wx * dy - wy * dx),
    ;
    assert(cv >= 0 ==> first >= 0) by (nonlinear_arith)
        requires
            first == dy * cv,
            0 < dy,
    ;
    assert(cv <= 0 ==> first <= 0) by (nonlinear_arith)
        requires
            first == dy * cv,
            0 < dy,
    ;
    assert(cv < 0 ==> first < 0) by (nonlinear_arith)
        requires
            first == dy * cv,
            0 < dy,
    ;
    assert(cv > 0 ==> first > 0) by (nonlinear_arith)
        requires
            first == dy * cv,
            0 < dy,
    ;
    assert((ty >= 0 && lw > 0) || (ty < 0 && lw < 0) ==> second >= 0) by (nonlinear_arith)
        requires
            second == ty * lw,
    ;
    assert(ty < 0 && lw < 0 ==> second > 0) by (nonlinear_arith)
        requires
            second == ty * lw,
    ;
    assert((ty >= 0 && lw < 0) || (ty < 0 && lw > 0) ==> second <= 0) by (nonlinear_arith)
        requires
            second == ty * lw,
    ;
    assert(ty < 0 && lw > 0 ==> second < 0) by (nonlinear_arith)
        requires
            second == ty * lw,
    ;
    assert(wy > 0 && left >= 0 ==> l >= 0) by (nonlinear_arith)
        requires
            left == wy * l,
    ;
    assert(wy > 0 && left < 0 ==> l < 0) by (nonlinear_arith)
        requires
            left == wy * l,
    ;
    assert(wy < 0 && left < 0 ==> l > 0) by (nonlinear_arith)
        requires
            left == wy * l,
    ;
    assert(wy < 0 && left > 0 ==> l < 0) by (nonlinear_arith)
        requires
            left == wy * l,
    ;
}

/// An edge from an end `v` of the line through `t` and `b` to a corner `w`
/// lies on the side of the line on which `w` lies. So on a scanline of that
/// edge, a pixel at or beyond the edge is at or beyond the line if `w` lies
/// to the right, and a pixel before the edge is before the line if `w` lies
/// to the left.
proof fn lemma_edge_side(t: Point, b: Point, v: Point, w: Point, p: Point)
    requires
        t.1 < b.1,
        v == t || v == b,
        reaches(v, w, p),
    ensures
        side(t, b, w) > 0 && crosses(v, w, p) ==> side(t, b, p) >= 0,
        side(t, b, w) < 0 && !crosses(v, w, p) ==> side(t, b, p) < 0,
{
    let tx = p.0 - v.0;
    let ty = p.1 - v.1;
    let wx = w.0 - v.0;
    let wy = w.1 - v.1;
    let dx = b.0 - t.0;
    let dy = b.1 - t.1;
    lemma_sides(tx, ty, wx, wy, dx, dy);
    assert(side(t, b, p) == tx * dy - ty * dx) by (nonlinear_arith)
        requires
            v == t || (v.0 == t.0 + dx && v.1 == t.1 + dy),
            tx == p.0 - v.0,
            ty == p.1 - v.1,
            dx == b.0 - t.0,
            dy == b.1 - t.1,
    ;
    assert(side(t, b, w) == wx * dy - wy * dx) by (nonlinear_arith)
        requires
            v == t || (v.0 == t.0 + dx && v.1 == t.1 + dy),
            wx == w.0 - v.0,
            wy == w.1 - v.1,
            dx == b.0 - t.0,
            dy == b.1 - t.1,
    ;
    if v.1 < w.1 {
        assert(side(v, w, p) == tx * wy - ty * wx);
    } else {
        assert(side(w, v, p) == -(tx * wy - ty * wx)) by (nonlinear_arith)
            requires
                tx == p.0 - v.0,
                ty == p.1 - v.1,
                wx == w.0 - v.0,
                wy == w.1 - v.1,
        ;
    }
}

/// A triangle lies on the side of each of its edges on which its third
/// corner lies: the pixels of the triangle with the edge from `t` down to
/// `b` and the corner `w` are at or beyond the line of the edge if `w` lies
/// to the right of it, and before the line if `w` lies to the left.
pub proof fn lemma_triangle_side(t: Point, b: Point, w: Point, p: Point)
    requires
        t.1 < b.1,
        in_triangle(t, b, w, p),
    ensures
        side(t, b, w) > 0 ==> side(t, b, p) >= 0,
        side(t, b, w) < 0 ==> side(t, b, p) < 0,
{
    if reaches(b, w, p) {
        lemma_edge_side(t, b, b, w, p);
    }
    if reaches(t, w, p) {
        lemma_edge_side(t, b, t, w, p);
    }
}

/// Where the cursor of the short edges of a triangle stands on scanline `k`
/// below the top corner: the triangle has the corners `q0`, `q1`, `q2` from
/// top to bottom, and its short edges meet at `q1`.
pub open spec fn short_cursor(q0: Point, q1: Point, q2: Point, k: int) -> int {
    if k < q1.1 - q0.1 {
        LineView::start(q0.1, q0.0, q1.1, q1.0, LineStateRound::Left).after(k).b
    } else {
        LineView::start(q1.1, q1.0, q2.1, q2.0, LineStateRound::Left).after(
            k - (q1.1 - q0.1),
        ).b
    }
}

/// Where the cursor of the long edge of the triangle stands on scanline `k`
/// below the top corner.
pub open spec fn long_cursor(q0: Point, q2: Point, k: int) -> int {
    LineView::start(q0.1, q0.0, q2.1, q2.0, LineStateRound::Left).after(k).b
}

/// The winding of a triangle tells which of its two cursors is the left
/// one: on every scanline the cursor of the short edges stands at or before
/// the cursor of the long edge where the winding is positive, and at or
/// beyond it where the winding is negative.
pub proof fn lemma_winding(q0: Point, q1: Point, q2: Point, k: int)
    requires
        q0.1 <= q1.1 <= q2.1,
        0 <= k < q2.1 - q0.1,
    ensures
        winding(q0, q1, q2) > 0 ==> short_cursor(q0, q1, q2, k) <= long_cursor(q0, q2, k),
        winding(q0, q1, q2) < 0 ==> long_cursor(q0, q2, k) <= short_cursor(q0, q1, q2, k),
{
    let n1 = q1.1 - q0.1;
    let y = q0.1 + k;
    let short = short_cursor(q0, q1, q2, k);
    let long = long_cursor(q0, q2, k);
    let at_long: Point = (long, y);
    let at_short: Point = (short, y);
    let turn = winding(q0, q1, q2);
    assert(side(q0, q1, q2) == turn && side(q0, q2, q1) == -turn && side(q1, q2, q0) == turn)
        by (nonlinear_arith)
        requires
            turn == winding(q0, q1, q2),
    ;
    LineView::lemma_left_cursor(q0.1, q0.0, q2.1, q2.0, k, long);
    LineView::lemma_left_cursor(q0.1, q0.0, q2.1, q2.0, k, short);
    if k < n1 {
        LineView::lemma_left_cursor(q0.1, q0.0, q1.1, q1.0, k, long);
        LineView::lemma_left_cursor(q0.1, q0.0, q1.1, q1.0, k, short);
        lemma_edge_side(q0, q1, q0, q2, at_long);
        lemma_edge_side(q0, q2, q0, q1, at_short);
    } else {
        LineView::lemma_left_cursor(q1.1, q1.0, q2.1, q2.0, k - n1, long);
        LineView::lemma_left_cursor(q1.1, q1.0, q2.1, q2.0, k - n1, short);
        lemma_edge_side(q1, q2, q2, q0, at_long);
        lemma_edge_side(q0, q2, q2, q1, at_short);
    }
}

/// Two triangles on opposite sides of a common edge tile: no pixel belongs
/// to both, and together they hold the pixels of the figure that their
/// four other edges bound, so that none between them is left out. The
/// common edge runs between `a` and `b`; `c` and `d` are the third corners.
pub proof fn lemma_triangles_tile(a: Point, b: Point, c: Point, d: Point, p: Point)
    requires
        opposite(a, b, c, d),
    ensures
        !(in_triangle(a, b, c, p) && in_triangle(a, b, d, p)),
        (in_triangle(a, b, c, p) || in_triangle(a, b, d, p)) == in_quad(a, c, b, d, p),
{
    if a.1 < b.1 {
        if in_triangle(a, b, c, p) {
            lemma_triangle_side(a, b, c, p);
        }
        if in_triangle(a, b, d, p) {
            lemma_triangle_side(a, b, d, p);
        }
    } else if b.1 < a.1 {
        assert(side(b, a, c) == -side(a, b, c)) by (nonlinear_arith);
        assert(side(b, a, d) == -side(a, b, d)) by (nonlinear_arith);
        if in_triangle(b, a, c, p) {
            lemma_triangle_side(b, a, c, p);
        }
        if in_triangle(b, a, d, p) {
            lemma_triangle_side(b, a, d, p);
        }
    } else {
        let e = b.0 - a.0;
        let up = c.1 - a.1;
        let down = d.1 - a.1;
        assert(side(a, b, c) == -(up * e) && side(a, b, d) == -(down * e)) by (nonlinear_arith)
            requires
                a.1 == b.1,
                e == b.0 - a.0,
                up == c.1 - a.1,
                down == d.1 - a.1,
        ;
        assert((up < 0 && down > 0) || (up > 0 && down < 0)) by (nonlinear_arith)
            requires
                (up * e < 0 && down * e > 0) || (up * e > 0 && down * e < 0),
        ;
    }
}

impl ImageView {
    /// What pixel `p` holds once every pixel of a figure was painted with
    /// `c`: the colour if the figure `covers` it, else what it held.
    pub open spec fn painted(self, covers: bool, c: Color, p: Point) -> Color {
        if covers && self.contains(p.0, p.1) {
            c.stored(self.bpp())
        } else {
            self.get(p.0, p.1)
        }
    }

    /// A run paints its pixels and no others.
    pub proof fn lemma_span(self, x: int, count: int, y: int, c: Color, p: Point)
        requires
            self.wf(),
        ensures
            self.same_shape(self.span(x, count, y, c)),
            self.span(x, count, y, c).get(p.0, p.1) == self.painted(
                p.1 == y && x <= p.0 < x + count,
                c,
                p,
            ),
        decreases count,
    {
        if count > 0 {
            self.lemma_span(x, count - 1, y, c, p);
            self.span(x, count - 1, y, c).lemma_get_set(x + count - 1, y, c, p.0, p.1);
        }
    }

    /// A horizontal line paints the pixels between its ends and no others.
    pub proof fn lemma_horizontal_line(self, x0: int, x1: int, y: int, c: Color, p: Point)
        requires
            self.wf(),
        ensures
            self.same_shape(self.horizontal_line(x0, x1, y, c)),
            self.horizontal_line(x0, x1, y, c).get(p.0, p.1) == self.painted(
                p.1 == y && (x0 <= p.0 <= x1 || x1 <= p.0 <= x0),
                c,
                p,
            ),
    {
        if x0 > x1 {
            self.lemma_span(x1, x0 - x1 + 1, y, c, p);
        } else {
            self.lemma_span(x0, x1 - x0 + 1, y, c, p);
        }
    }

    /// The first points of a line are painted, and no other pixel.
    pub proof fn lemma_points(self, s: LineView, steep: bool, count: int, c: Color, p: Point)
        requires
            self.wf(),
        ensures
            self.same_shape(self.points(s, steep, count, c)),
            self.points(s, steep, count, c).get(p.0, p.1) == self.painted(
                on_points(s, steep, count, p),
                c,
                p,
            ),
        decreases count,
    {
        if count > 0 {
            let before = self.points(s, steep, count - 1, c);
            let last = line_point(s, steep, count - 1);
            self.lemma_points(s, steep, count - 1, c, p);
            before.lemma_get_set(last.0, last.1, c, p.0, p.1);
            if on_points(s, steep, count - 1, p) {
                let k = choose|k: int| 0 <= k < count - 1 && #[trigger] line_point(s, steep, k) == p;
                assert(line_point(s, steep, k) == p);
            }
            if on_points(s, steep, count, p) {
                let k = choose|k: int| 0 <= k < count && #[trigger] line_point(s, steep, k) == p;
                if k < count - 1 {
                    assert(line_point(s, steep, k) == p);
                }
            }
        }
    }

    /// A line paints its points and no other pixel.
    pub proof fn lemma_line(self, p0: Point, p1: Point, c: Color, p: Point)
        requires
            self.wf(),
        ensures
            self.same_shape(self.line(p0, p1, c)),
            self.line(p0, p1, c).get(p.0, p.1) == self.painted(on_line(p0, p1, p), c, p),
    {
        let (steep, a0, b0, a1, b1) = line_ends(p0, p1);
        self.lemma_points(
            LineView::start(a0, b0, a1, b1, LineStateRound::Nearest),
            steep,
            a1 - a0 + 1,
            c,
            p,
        );
    }

    /// The two ends of a line are points of it.
    pub proof fn lemma_line_ends(p0: Point, p1: Point)
        requires
            i32::MIN <= p0.0 <= i32::MAX,
            i32::MIN <= p0.1 <= i32::MAX,
            i32::MIN <= p1.0 <= i32::MAX,
            i32::MIN <= p1.1 <= i32::MAX,
        ensures
            on_line(p0, p1, p0),
            on_line(p0, p1, p1),
    {
        let (steep, a0, b0, a1, b1) = line_ends(p0, p1);
        let s = LineView::start(a0, b0, a1, b1, LineStateRound::Nearest);
        LineView::lemma_start(a0, b0, a1, b1, LineStateRound::Nearest);
        let first = line_point(s, steep, 0);
        let last = line_point(s, steep, a1 - a0);
        assert(first == p0 || first == p1);
        assert(last == p0 || last == p1);
        assert(a0 == a1 ==> p0 == p1);
    }

    /// A scanline of a triangle paints the pixels from its left cursor up
    /// to its right cursor, and no others.
    pub proof fn lemma_row(self, l: LineView, r: LineView, c: Color, p: Point)
        requires
            self.wf(),
        ensures
            self.same_shape(self.row(l, r, c)),
            self.row(l, r, c).get(p.0, p.1) == self.painted(in_row(l, r, p), c, p),
    {
        if l.b < r.b {
            self.lemma_span(l.b, r.b - l.b, r.a, c, p);
        } else {
            self.lemma_span(r.b, l.b - r.b, r.a, c, p);
        }
    }

    /// The scanlines of a triangle paint their pixels and no others.
    pub proof fn lemma_rows(
        self,
        l: LineView,
        r: LineView,
        first: int,
        count: int,
        c: Color,
        p: Point,
    )
        requires
            self.wf(),
        ensures
            self.same_shape(self.rows(l, r, first, count, c)),
            self.rows(l, r, first, count, c).get(p.0, p.1) == self.painted(
                in_rows(l, r, first, count, p),
                c,
                p,
            ),
        decreases count,
    {
        if count > 0 {
            let before = self.rows(l, r, first, count - 1, c);
            let k_last = first + count - 1;
            self.lemma_rows(l, r, first, count - 1, c, p);
            before.lemma_row(l.after(k_last), r.after(k_last), c, p);
            if in_rows(l, r, first, count - 1, p) {
                let k = choose|k: int|
                    first <= k < first + count - 1 && #[trigger] in_row_after(l, r, k, p);
                assert(in_row_after(l, r, k, p));
            }
            if in_row(l.after(k_last), r.after(k_last), p) {
                assert(in_row_after(l, r, k_last, p));
            }
            if in_rows(l, r, first, count, p) {
                let k = choose|k: int|
                    first <= k < first + count && #[trigger] in_row_after(l, r, k, p);
                if k < k_last {
                    assert(in_row_after(l, r, k, p));
                }
            }
        }
    }

    /// A triangle paints the pixels that it holds and no others.
    pub proof fn lemma_triangle(self, p0: Point, p1: Point, p2: Point, c: Color, p: Point)
        requires
            self.wf(),
        ensures
            self.same_shape(self.triangle(p0, p1, p2, c)),
            self.triangle(p0, p1, p2, c).get(p.0, p.1) == self.painted(
                in_triangle(p0, p1, p2, p),
                c,
                p,
            ),
    {
        let (q0, q1, q2) = sort_by_y(p0, p1, p2);
        let upper = LineView::start(q0.1, q0.0, q1.1, q1.0, LineStateRound::Left);
        let long = LineView::start(q0.1, q0.0, q2.1, q2.0, LineStateRound::Left);
        let lower = LineView::start(q1.1, q1.0, q2.1, q2.0, LineStateRound::Left);
        let top = self.rows(upper, long, 0, q1.1 - q0.1, c);
        self.lemma_rows(upper, long, 0, q1.1 - q0.1, c, p);
        top.lemma_rows(lower, long.after(q1.1 - q0.1), 0, q2.1 - q1.1, c, p);
        lemma_scanlines(q0, q1, q2, p);
        assert(in_triangle(q0, q1, q2, p) == in_triangle(p0, p1, p2, p));
    }

    /// Of two triangles on opposite sides of a common edge, drawn on two
    /// copies of an image, no pixel is painted on both copies, and every
    /// pixel of the image that the figure of the two holds is painted on
    /// one.
    pub proof fn lemma_tiling(
        self,
        a: Point,
        b: Point,
        c: Point,
        d: Point,
        ca: Color,
        cb: Color,
        p: Point,
    )
        requires
            self.wf(),
            opposite(a, b, c, d),
            self.contains(p.0, p.1),
        ensures
            self.triangle(a, b, c, ca).get(p.0, p.1) == self.get(p.0, p.1) || self.triangle(
                a,
                b,
                d,
                cb,
            ).get(p.0, p.1) == self.get(p.0, p.1),
            in_quad(a, c, b, d, p) ==> self.triangle(a, b, c, ca).get(p.0, p.1) == ca.stored(
                self.bpp(),
            ) || self.triangle(a, b, d, cb).get(p.0, p.1) == cb.stored(self.bpp()),
    {
        self.lemma_triangle(a, b, c, ca, p);
        self.lemma_triangle(a, b, d, cb, p);
        lemma_triangles_tile(a, b, c, d, p);
    }
}

} // verus!
