//! Drawing on an image with integers only: lines, horizontal runs, filled
//! triangles, and the test whether a point lies in a triangle.

use crate::image::{Color, Image, ImageView};
use crate::line::{magnitude, LineState, LineStateRound, LineView};
use crate::vec::{Vec2, Vec3};
use vstd::prelude::*;

verus! {

/// A point of the plane, as `(x, y)`.
pub type Point = (int, int);

/// The point that a vector of two 32-bit lanes names.
pub open spec fn point_of(v: Vec2<i32>) -> Point {
    (v.0[0] as int, v.0[1] as int)
}

/// How a line is walked: whether its major axis is `y`, and its two ends
/// `(a0, b0)`, `(a1, b1)` in major and minor coordinates, the end with the
/// smaller major coordinate first.
pub open spec fn line_ends(p0: Point, p1: Point) -> (bool, int, int, int, int) {
    let steep = magnitude(p1.1 - p0.1) > magnitude(p1.0 - p0.0);
    let (a0, b0, a1, b1) = if steep {
        (p0.1, p0.0, p1.1, p1.0)
    } else {
        (p0.0, p0.1, p1.0, p1.1)
    };
    if a0 > a1 {
        (steep, a1, b1, a0, b0)
    } else {
        (steep, a0, b0, a1, b1)
    }
}

/// The three corners ordered by `y`, as three exchanges of neighbours
/// order them: corners of equal `y` keep their order.
pub open spec fn sort_by_y(p0: Point, p1: Point, p2: Point) -> (Point, Point, Point) {
    let (a0, a1) = if p0.1 > p1.1 {
        (p1, p0)
    } else {
        (p0, p1)
    };
    let (b0, b2) = if a0.1 > p2.1 {
        (p2, a0)
    } else {
        (a0, p2)
    };
    let (c1, c2) = if a1.1 > b2.1 {
        (b2, a1)
    } else {
        (a1, b2)
    };
    (b0, c1, c2)
}

/// Twice the signed area of the triangle: its sign tells on which side of
/// the long edge the middle corner lies.
pub open spec fn winding(q0: Point, q1: Point, q2: Point) -> int {
    (q2.0 - q0.0) * (q1.1 - q0.1) - (q1.0 - q0.0) * (q2.1 - q0.1)
}

/// The weights `(l0, l1, l2)` of `p` over the corners `p0`, `p1`, `p2`, all
/// multiplied by `scale`, and `scale` itself: `scale * p` is
/// `l0 * p0 + l1 * p1 + l2 * p2`, and `l0 + l1 + l2` is `scale`.
pub open spec fn barycentric(p: Point, p0: Point, p1: Point, p2: Point) -> (int, int, int, int) {
    let l1 = (p2.0 - p0.0) * (p0.1 - p.1) - (p0.0 - p.0) * (p2.1 - p0.1);
    let l2 = (p0.0 - p.0) * (p1.1 - p0.1) - (p1.0 - p0.0) * (p0.1 - p.1);
    let scale = (p1.0 - p0.0) * (p2.1 - p0.1) - (p2.0 - p0.0) * (p1.1 - p0.1);
    (scale - l1 - l2, l1, l2, scale)
}

/// `p` lies in the triangle, its edges included: the triangle has an area
/// and no weight of `p` is negative.
pub open spec fn covers(p: Point, p0: Point, p1: Point, p2: Point) -> bool {
    let (l0, l1, l2, scale) = barycentric(p, p0, p1, p2);
    if scale > 0 {
        l0 >= 0 && l1 >= 0 && l2 >= 0
    } else {
        scale < 0 && l0 <= 0 && l1 <= 0 && l2 <= 0
    }
}

/// The weights of a corner are one for itself and zero for the others, and
/// the weights of any point add up to one.
pub proof fn lemma_barycentric_corners(p: Point, p0: Point, p1: Point, p2: Point)
    ensures
        barycentric(p0, p0, p1, p2) == (winding(p0, p2, p1), 0int, 0int, winding(p0, p2, p1)),
        barycentric(p1, p0, p1, p2) == (0int, winding(p0, p2, p1), 0int, winding(p0, p2, p1)),
        barycentric(p2, p0, p1, p2) == (0int, 0int, winding(p0, p2, p1), winding(p0, p2, p1)),
        barycentric(p, p0, p1, p2).0 + barycentric(p, p0, p1, p2).1 + barycentric(p, p0, p1, p2).2
            == barycentric(p, p0, p1, p2).3,
{
    let s = winding(p0, p2, p1);
    assert(barycentric(p0, p0, p1, p2) == (s, 0int, 0int, s)) by (nonlinear_arith)
        requires
            s == winding(p0, p2, p1),
    ;
    assert(barycentric(p1, p0, p1, p2) == (0int, s, 0int, s)) by (nonlinear_arith)
        requires
            s == winding(p0, p2, p1),
    ;
    assert(barycentric(p2, p0, p1, p2) == (0int, 0int, s, s)) by (nonlinear_arith)
        requires
            s == winding(p0, p2, p1),
    ;
}

/// A triangle that has an area holds its three corners.
pub proof fn lemma_corners_covered(p0: Point, p1: Point, p2: Point)
    requires
        winding(p0, p2, p1) != 0,
    ensures
        covers(p0, p0, p1, p2),
        covers(p1, p0, p1, p2),
        covers(p2, p0, p1, p2),
{
    lemma_barycentric_corners(p0, p0, p1, p2);
}

impl ImageView {
    /// The image after `count` pixels of row `y`, from column `x` to the
    /// right, were painted.
    pub open spec fn span(self, x: int, count: int, y: int, c: Color) -> ImageView
        decreases count,
    {
        if count <= 0 {
            self
        } else {
            self.span(x, count - 1, y, c).set(x + count - 1, y, c)
        }
    }

    /// The image after the pixels of row `y` between columns `x0` and `x1`,
    /// both included and in either order, were painted.
    pub open spec fn horizontal_line(self, x0: int, x1: int, y: int, c: Color) -> ImageView {
        if x0 > x1 {
            self.span(x1, x0 - x1 + 1, y, c)
        } else {
            self.span(x0, x1 - x0 + 1, y, c)
        }
    }

    /// The image after the point at which the cursor `s` stands was
    /// painted.
    pub open spec fn plot(self, s: LineView, steep: bool, c: Color) -> ImageView {
        if steep {
            self.set(s.b, s.a, c)
        } else {
            self.set(s.a, s.b, c)
        }
    }

    /// The image after the first `count` points of the line that starts at
    /// `s` were painted.
    pub open spec fn points(self, s: LineView, steep: bool, count: int, c: Color) -> ImageView
        decreases count,
    {
        if count <= 0 {
            self
        } else {
            self.points(s, steep, count - 1, c).plot(s.after(count - 1), steep, c)
        }
    }

    /// The image after the line between `p0` and `p1` was painted: one
    /// pixel for each unit of the longer axis, the other axis rounded to the
    /// nearest pixel.
    pub open spec fn line(self, p0: Point, p1: Point, c: Color) -> ImageView {
        let (steep, a0, b0, a1, b1) = line_ends(p0, p1);
        self.points(
            LineView::start(a0, b0, a1, b1, LineStateRound::Nearest),
            steep,
            a1 - a0 + 1,
            c,
        )
    }

    /// The image after one scanline of a triangle was painted: the run
    /// between the two cursors, from the left one of them up to the right
    /// one, which is left out. A pixel through which an edge runs so belongs
    /// to the triangle on its right.
    pub open spec fn row(self, l: LineView, r: LineView, c: Color) -> ImageView {
        if l.b < r.b {
            self.span(l.b, r.b - l.b, r.a, c)
        } else {
            self.span(r.b, l.b - r.b, r.a, c)
        }
    }

    /// The image after `count` scanlines were painted: those that the
    /// cursors reach after `first`, `first + 1`, ... steps from `l` and `r`.
    pub open spec fn rows(
        self,
        l: LineView,
        r: LineView,
        first: int,
        count: int,
        c: Color,
    ) -> ImageView
        decreases count,
    {
        if count <= 0 {
            self
        } else {
            let k = first + count - 1;
            self.rows(l, r, first, count - 1, c).row(l.after(k), r.after(k), c)
        }
    }

    /// The image after the triangle was filled, scanline by scanline from
    /// its top corner down to, but not with, its bottom corner: first
    /// between the short edge to the middle corner and the long edge, then
    /// between the short edge from the middle corner and the long edge.
    /// Every edge is walked by a cursor that stands at the first pixel on
    /// the edge or beyond it, so that an edge gives the same pixels to
    /// whichever triangle it belongs to. Which of the two cursors of a
    /// scanline is the left one is read off their positions; it is the one
    /// that the winding of the triangle tells.
    pub open spec fn triangle(self, p0: Point, p1: Point, p2: Point, c: Color) -> ImageView {
        let (q0, q1, q2) = sort_by_y(p0, p1, p2);
        let upper = LineView::start(q0.1, q0.0, q1.1, q1.0, LineStateRound::Left);
        let long = LineView::start(q0.1, q0.0, q2.1, q2.0, LineStateRound::Left);
        let lower = LineView::start(q1.1, q1.0, q2.1, q2.0, LineStateRound::Left);
        self.rows(upper, long, 0, q1.1 - q0.1, c).rows(
            lower,
            long.after(q1.1 - q0.1),
            0,
            q2.1 - q1.1,
            c,
        )
    }

    /// A line is the same whichever end it is drawn from.
    pub proof fn lemma_line_symmetric(self, p0: Point, p1: Point, c: Color)
        ensures
            self.line(p0, p1, c) == self.line(p1, p0, c),
    {
        assert(line_ends(p0, p1) == line_ends(p1, p0));
    }
}

/// The part of the range from `lo` to `hi`, both included, that lies in an
/// image of `extent` columns or rows; nothing where no part does.
pub open spec fn clipped(lo: int, hi: int, extent: int) -> Option<(int, int)> {
    let from = if lo < 0 {
        0
    } else {
        lo
    };
    let to = if hi >= extent {
        extent - 1
    } else {
        hi
    };
    if from <= to {
        Some((from, to))
    } else {
        None
    }
}

/// Cuts the range from `lo` to `hi`, both included, down to the columns or
/// rows of an image that has `extent` of them.
pub fn clip_range(lo: i32, hi: i32, extent: usize) -> (r: Option<(usize, usize)>)
    ensures
        match clipped(lo as int, hi as int, extent as int) {
            Some((from, to)) => r == Some((from as usize, to as usize)) && 0 <= from <= to < extent,
            None => r is None,
        },
{
    if hi < 0 || extent == 0 {
        return None;
    }
    let from: usize = if lo < 0 {
        0
    } else {
        lo as usize
    };
    let to: usize = if hi as usize >= extent {
        extent - 1
    } else {
        hi as usize
    };
    if from <= to {
        Some((from, to))
    } else {
        None
    }
}

/// The distance between two 32-bit numbers.
fn distance(u: i32, v: i32) -> (d: i64)
    ensures
        d == magnitude(v - u),
{
    let span: i64 = v as i64 - u as i64;
    if span < 0 {
        -span
    } else {
        span
    }
}

impl Image {
    /// Paints the line between `p0` and `p1`. Points outside the image are
    /// left out.
    pub fn line(&mut self, p0: &Vec2<i32>, p1: &Vec2<i32>, color: &Color)
        requires
            old(self)@.wf(),
        ensures
            final(self)@ == old(self)@.line(point_of(*p0), point_of(*p1), *color),
            old(self)@.same_shape(final(self)@),
    {
        let (x0, y0) = p0.as_tuple();
        let (x1, y1) = p1.as_tuple();
        let steep = distance(y0, y1) > distance(x0, x1);
        let (u0, v0, u1, v1) = if steep {
            (y0, x0, y1, x1)
        } else {
            (x0, y0, x1, y1)
        };
        let (a0, b0, a1, b1) = if u0 > u1 {
            (u1, v1, u0, v0)
        } else {
            (u0, v0, u1, v1)
        };
        let mut s = LineState::new(a0, b0, a1, b1, LineStateRound::Nearest);
        let ghost orig = self@;
        let ghost start = s@;
        let ghost k: int = 0;
        loop
            invariant_except_break
                start.wf(),
                start.a == a0,
                start.a_final == a1,
                0 <= k <= a1 - a0,
                s@ == start.after(k),
                s@.wf(),
                self@ == orig.points(start, steep, k, *color),
                orig.same_shape(self@),
            ensures
                self@ == orig.points(start, steep, a1 - a0 + 1, *color),
                orig.same_shape(self@),
            decreases a1 - a0 - k,
        {
            if s.a >= 0 && s.b >= 0 {
                if steep {
                    self.set(s.b as usize, s.a as usize, color);
                } else {
                    self.set(s.a as usize, s.b as usize, color);
                }
            }
            assert(self@ == orig.points(start, steep, k + 1, *color));
            if !s.step() {
                break ;
            }
            proof {
                start.lemma_after_after(k, 1);
                k = k + 1;
            }
        }
    }

    /// Paints the pixels of row `y` between columns `x0` and `x1`, both
    /// included and in either order. Pixels outside the image are left out.
    pub fn horizontal_line(&mut self, x0: i32, x1: i32, y: i32, color: &Color)
        requires
            old(self)@.wf(),
        ensures
            final(self)@ == old(self)@.horizontal_line(x0 as int, x1 as int, y as int, *color),
            old(self)@.same_shape(final(self)@),
    {
        let (lo, hi) = if x0 > x1 {
            (x1, x0)
        } else {
            (x0, x1)
        };
        let ghost orig = self@;
        let mut x: i32 = lo;
        loop
            invariant_except_break
                lo <= x <= hi,
                self@ == orig.span(lo as int, x - lo, y as int, *color),
                orig.same_shape(self@),
            ensures
                self@ == orig.span(lo as int, hi - lo + 1, y as int, *color),
                orig.same_shape(self@),
            decreases hi - x,
        {
            if x >= 0 && y >= 0 {
                self.set(x as usize, y as usize, color);
            }
            assert(self@ == orig.span(lo as int, x - lo + 1, y as int, *color));
            if x == hi {
                break ;
            }
            x += 1;
        }
    }

    /// Paints one scanline of a triangle: the run from the left one of the
    /// cursors `l` and `r` up to the right one, which is left out.
    fn fill_row(&mut self, l: &LineState, r: &LineState, color: &Color)
        requires
            old(self)@.wf(),
        ensures
            final(self)@ == old(self)@.row(l@, r@, *color),
            old(self)@.same_shape(final(self)@),
    {
        if l.b < r.b {
            self.horizontal_line(l.b, r.b - 1, r.a, color);
        } else if r.b < l.b {
            self.horizontal_line(r.b, l.b - 1, r.a, color);
        }
    }

    /// Paints the scanlines of one part of a triangle: the one on which the
    /// cursors stand and one more after each step of `l`, but for the
    /// scanline on which `l` ends. `r` steps along with `l`.
    fn fill_part(&mut self, l: LineState, r: &mut LineState, color: &Color)
        requires
            old(self)@.wf(),
            l@.wf(),
            old(r)@.wf(),
            l@.a == old(r)@.a,
            l@.a_final <= old(r)@.a_final,
        ensures
            final(self)@ == old(self)@.rows(l@, old(r)@, 0, l@.remaining(), *color),
            old(self)@.same_shape(final(self)@),
            final(r)@ == old(r)@.after(l@.remaining()),
            final(r)@.wf(),
    {
        let ghost orig = self@;
        let ghost first = l@;
        let ghost second = r@;
        let ghost n = l@.remaining();
        let ghost k: int = 0;
        let mut l = l;
        while l.a != l.a_final
            invariant
                first.wf(),
                second.wf(),
                first.a == second.a,
                first.a_final <= second.a_final,
                n == first.remaining(),
                0 <= k <= n,
                l@ == first.after(k),
                r@ == second.after(k),
                l@.wf(),
                r@.wf(),
                l@.a_final == first.a_final,
                l@.a == first.a + k,
                self@ == orig.rows(first, second, 0, k, *color),
                orig.same_shape(self@),
            decreases n - k,
        {
            self.fill_row(&l, r, color);
            assert(self@ == orig.rows(first, second, 0, k + 1, *color));
            l.step();
            r.step();
            proof {
                first.lemma_after_after(k, 1);
                second.lemma_after_after(k, 1);
                k = k + 1;
            }
        }
    }

    /// Fills the triangle with corners `p0`, `p1`, `p2`. Pixels outside the
    /// image are left out. Of two triangles that share an edge, each pixel
    /// on the edge is painted by one only.
    pub fn triangle(&mut self, p0: Vec2<i32>, p1: Vec2<i32>, p2: Vec2<i32>, color: &Color)
        requires
            old(self)@.wf(),
        ensures
            final(self)@ == old(self)@.triangle(point_of(p0), point_of(p1), point_of(p2), *color),
            old(self)@.same_shape(final(self)@),
    {
        let (a0, a1) = if p0.0[1] > p1.0[1] {
            (p1, p0)
        } else {
            (p0, p1)
        };
        let (q0, b2) = if a0.0[1] > p2.0[1] {
            (p2, a0)
        } else {
            (a0, p2)
        };
        let (q1, q2) = if a1.0[1] > b2.0[1] {
            (b2, a1)
        } else {
            (a1, b2)
        };
        assert((point_of(q0), point_of(q1), point_of(q2)) == sort_by_y(
            point_of(p0),
            point_of(p1),
            point_of(p2),
        ));
        let upper = LineState::new(q0.0[1], q0.0[0], q1.0[1], q1.0[0], LineStateRound::Left);
        let mut long = LineState::new(q0.0[1], q0.0[0], q2.0[1], q2.0[0], LineStateRound::Left);
        self.fill_part(upper, &mut long, color);
        let lower = LineState::new(q1.0[1], q1.0[0], q2.0[1], q2.0[0], LineStateRound::Left);
        self.fill_part(lower, &mut long, color);
    }

    /// Whether `p` lies in the triangle with corners `p0`, `p1`, `p2`, its
    /// edges included. A triangle without area holds no point.
    pub fn inside(&self, p: &Vec2<i32>, p0: &Vec2<i32>, p1: &Vec2<i32>, p2: &Vec2<i32>) -> (r: bool)
        ensures
            r == covers(point_of(*p), point_of(*p0), point_of(*p1), point_of(*p2)),
    {
        let v1 = Vec3::<i128>::new(
            p1.0[0] as i128 - p0.0[0] as i128,
            p2.0[0] as i128 - p0.0[0] as i128,
            p0.0[0] as i128 - p.0[0] as i128,
        );
        let v2 = Vec3::<i128>::new(
            p1.0[1] as i128 - p0.0[1] as i128,
            p2.0[1] as i128 - p0.0[1] as i128,
            p0.0[1] as i128 - p.0[1] as i128,
        );
        proof {
            lemma_products_fit(v1.0[1] as int, v2.0[2] as int);
            lemma_products_fit(v1.0[2] as int, v2.0[1] as int);
            lemma_products_fit(v1.0[2] as int, v2.0[0] as int);
            lemma_products_fit(v1.0[0] as int, v2.0[2] as int);
            lemma_products_fit(v1.0[0] as int, v2.0[1] as int);
            lemma_products_fit(v1.0[1] as int, v2.0[0] as int);
        }
        let (l1, l2, scale) = v1.cross(&v2).as_tuple();
        if scale == 0 {
            return false;
        }
        let l0: i128 = scale - l1 - l2;
        if scale > 0 {
            l0 >= 0 && l1 >= 0 && l2 >= 0
        } else {
            l0 <= 0 && l1 <= 0 && l2 <= 0
        }
    }
}

/// The product of two differences of 32-bit numbers is far from the limits
/// of a 128-bit number.
proof fn lemma_products_fit(u: int, v: int)
    requires
        -0x1_0000_0000 <= u <= 0x1_0000_0000,
        -0x1_0000_0000 <= v <= 0x1_0000_0000,
    ensures
        -0x1_0000_0000_0000_0000 <= u * v <= 0x1_0000_0000_0000_0000,
{
    assert(-0x1_0000_0000_0000_0000 <= u * v <= 0x1_0000_0000_0000_0000) by (nonlinear_arith)
        requires
            -0x1_0000_0000 <= u <= 0x1_0000_0000,
            -0x1_0000_0000 <= v <= 0x1_0000_0000,
    ;
}

} // verus!
