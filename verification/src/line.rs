//! Stepping along a line one unit of its major axis at a time, with the
//! minor axis kept as an exact fraction.

use vstd::arithmetic::div_mod::{
    lemma_div_is_ordered, lemma_div_pos_is_pos, lemma_fundamental_div_mod,
    lemma_fundamental_div_mod_converse, lemma_mod_bound,
};
use vstd::prelude::*;

verus! {

/// Where the minor axis starts inside its first unit: at the edge of the
/// start point, in the middle, or at the edge of the end point.
#[derive(Clone, Copy, Debug, PartialEq, Eq, Structural)]
pub enum LineStateRound {
    Left,
    Nearest,
    Right,
}

/// The absolute value of `x`.
pub open spec fn magnitude(x: int) -> int {
    if x < 0 {
        -x
    } else {
        x
    }
}

/// The mathematical content of a [`LineState`]. The minor position is
/// `b + dir * b_frac / da`; each step of `a` adds `db / da` to it.
pub struct LineView {
    pub a: int,
    pub a_final: int,
    pub b: int,
    pub b_frac: int,
    pub da: int,
    pub db: int,
    pub dir: int,
}

impl LineView {
    /// The state at `(a0, b0)` of the line that ends at `(a1, b1)`. Both
    /// deltas are doubled, so that a half is a whole number.
    pub open spec fn start(a0: int, b0: int, a1: int, b1: int, round: LineStateRound) -> LineView {
        let da = 2 * magnitude(a1 - a0);
        let db = 2 * magnitude(b1 - b0);
        let up = b1 > b0;
        LineView {
            a: a0,
            a_final: a1,
            b: b0,
            b_frac: match round {
                LineStateRound::Left => if up {
                    da - 1
                } else {
                    1
                },
                LineStateRound::Nearest => da / 2,
                LineStateRound::Right => if up {
                    1
                } else {
                    da - 1
                },
            },
            da,
            db,
            dir: if up {
                1
            } else {
                -1
            },
        }
    }

    /// How many steps are left.
    pub open spec fn remaining(self) -> int {
        self.a_final - self.a
    }

    /// The state `k` steps further along the line.
    pub open spec fn after(self, k: int) -> LineView {
        if k <= 0 {
            self
        } else {
            LineView {
                a: self.a + k,
                b: self.b + self.dir * ((self.b_frac + k * self.db) / self.da),
                b_frac: (self.b_frac + k * self.db) % self.da,
                ..self
            }
        }
    }

    /// The state is one that stepping can start from: the fraction is a
    /// proper one while steps are left, and every position up to the end is
    /// a 32-bit number.
    pub open spec fn wf(self) -> bool {
        &&& i32::MIN <= self.a <= self.a_final <= i32::MAX
        &&& i32::MIN <= self.b <= i32::MAX
        &&& 0 <= self.da <= 0x2_0000_0000
        &&& 0 <= self.db <= 0x2_0000_0000
        &&& (self.dir == 1 || self.dir == -1)
        &&& (self.a < self.a_final ==> 0 <= self.b_frac < self.da && i32::MIN <= self.after(
            self.remaining(),
        ).b <= i32::MAX)
    }
}

/// Adding `y` to `x` moves the quotient by `d` as far as the remainder of
/// `x` and `y` together reach.
pub proof fn lemma_div_mod_add(x: int, y: int, d: int)
    requires
        0 < d,
    ensures
        (x + y) / d == x / d + (x % d + y) / d,
        (x + y) % d == (x % d + y) % d,
{
    let z = x % d + y;
    lemma_fundamental_div_mod(x, d);
    lemma_fundamental_div_mod(z, d);
    lemma_mod_bound(z, d);
    assert(x + y == (x / d + z / d) * d + z % d) by (nonlinear_arith)
        requires
            x == d * (x / d) + x % d,
            z == d * (z / d) + z % d,
            z == x % d + y,
    ;
    lemma_fundamental_div_mod_converse(x + y, d, x / d + z / d, z % d);
}

impl LineView {
    /// Stepping `j` times and then `k` times is stepping `j + k` times.
    pub proof fn lemma_after_after(self, j: int, k: int)
        requires
            0 <= j,
            0 <= k,
            0 < self.da,
        ensures
            self.after(j).after(k) == self.after(j + k),
    {
        if j > 0 && k > 0 {
            let x = self.b_frac + j * self.db;
            let y = k * self.db;
            lemma_div_mod_add(x, y, self.da);
            assert(x + y == self.b_frac + (j + k) * self.db) by (nonlinear_arith)
                requires
                    x == self.b_frac + j * self.db,
                    y == k * self.db,
            ;
            let q1 = x / self.da;
            let q2 = (x % self.da + y) / self.da;
            assert(self.dir * q1 + self.dir * q2 == self.dir * (q1 + q2)) by (nonlinear_arith);
        }
    }

    /// The minor axis moves towards its end and never past it: after `k`
    /// of `n` steps it lies between where it is now and where it is after
    /// all `n`.
    pub proof fn lemma_after_between(self, k: int, n: int)
        requires
            0 <= k <= n,
            0 < self.da,
            0 <= self.db,
            0 <= self.b_frac,
            self.dir == 1 || self.dir == -1,
        ensures
            self.dir == 1 ==> self.b <= self.after(k).b <= self.after(n).b,
            self.dir == -1 ==> self.b >= self.after(k).b >= self.after(n).b,
    {
        let xk = self.b_frac + k * self.db;
        let xn = self.b_frac + n * self.db;
        assert(0 <= xk <= xn) by (nonlinear_arith)
            requires
                xk == self.b_frac + k * self.db,
                xn == self.b_frac + n * self.db,
                0 <= k <= n,
                0 <= self.db,
                0 <= self.b_frac,
        ;
        lemma_div_pos_is_pos(xk, self.da);
        lemma_div_is_ordered(xk, xn, self.da);
        let qk = xk / self.da;
        let qn = xn / self.da;
        assert(self.dir * qk == if self.dir == 1 {
            qk
        } else {
            -qk
        }) by (nonlinear_arith)
            requires
                self.dir == 1 || self.dir == -1,
        ;
        assert(self.dir * qn == if self.dir == 1 {
            qn
        } else {
            -qn
        }) by (nonlinear_arith)
            requires
                self.dir == 1 || self.dir == -1,
        ;
    }

    /// A line from `(a0, b0)` to `(a1, b1)` can be stepped along, and its
    /// last step lands on `(a1, b1)`.
    pub proof fn lemma_start(a0: int, b0: int, a1: int, b1: int, round: LineStateRound)
        requires
            i32::MIN <= a0 <= a1 <= i32::MAX,
            i32::MIN <= b0 <= i32::MAX,
            i32::MIN <= b1 <= i32::MAX,
        ensures
            LineView::start(a0, b0, a1, b1, round).wf(),
            LineView::start(a0, b0, a1, b1, round).after(a1 - a0).a == a1,
            a0 < a1 ==> LineView::start(a0, b0, a1, b1, round).after(a1 - a0).b == b1,
    {
        let s = LineView::start(a0, b0, a1, b1, round);
        let n = a1 - a0;
        let m = magnitude(b1 - b0);
        if n > 0 {
            assert(s.b_frac + n * s.db == m * s.da + s.b_frac) by (nonlinear_arith)
                requires
                    s.db == 2 * m,
                    s.da == 2 * n,
            ;
            lemma_fundamental_div_mod_converse(s.b_frac + n * s.db, s.da, m, s.b_frac);
            assert(s.dir * m == b1 - b0) by (nonlinear_arith)
                requires
                    m == magnitude(b1 - b0),
                    s.dir == (if b1 > b0 {
                        1int
                    } else {
                        -1int
                    }),
            ;
        }
    }

    /// A state that can be stepped from leads, one step on, to a state that
    /// can be stepped from.
    pub proof fn lemma_step_wf(self)
        requires
            self.wf(),
            self.a < self.a_final,
        ensures
            self.after(1).wf(),
    {
        let n = self.remaining();
        lemma_mod_bound(self.b_frac + 1 * self.db, self.da);
        self.lemma_after_between(1, n);
        self.lemma_after_after(1, n - 1);
    }
}

/// Whole numbers `x` at or above the quotient of `2t + 2n - 1` by `2n` are
/// those with `x * n >= t`: the quotient is `t / n` rounded up.
proof fn lemma_rounded_up(x: int, q: int, r: int, n: int, t: int, nq: int, nx: int)
    requires
        0 < n,
        0 <= r < 2 * n,
        2 * n - 1 + 2 * t == 2 * nq + r,
        nq == n * q,
        nx == n * x,
    ensures
        x >= q <==> nx >= t,
{
    if x >= q {
        assert(n * x >= n * q) by (nonlinear_arith)
            requires
                x >= q,
                0 < n,
        ;
    } else {
        assert(n * x <= n * q - n) by (nonlinear_arith)
            requires
                x <= q - 1,
                0 < n,
        ;
    }
}

/// Whole numbers `y` at or below the quotient of `2t + 1` by `2n` are those
/// with `y * n <= t`: the quotient is `t / n` rounded down.
proof fn lemma_rounded_down(y: int, q: int, r: int, n: int, t: int, nq: int, ny: int)
    requires
        0 < n,
        0 <= r < 2 * n,
        1 + 2 * t == 2 * nq + r,
        nq == n * q,
        ny == n * y,
    ensures
        y <= q <==> ny <= t,
{
    if y <= q {
        assert(n * y <= n * q) by (nonlinear_arith)
            requires
                y <= q,
                0 < n,
        ;
    } else {
        assert(n * y >= n * q + n) by (nonlinear_arith)
            requires
                y >= q + 1,
                0 < n,
        ;
    }
}

impl LineView {
    /// Where a cursor with the `Left` seed stands: after `k` steps from
    /// `(a0, b0)` towards `(a1, b1)` it is at the first pixel that lies on
    /// the line or beyond it. So the pixels `x` at or beyond the cursor are
    /// those at or beyond the line itself, whose minor position after `k`
    /// steps is `b0 + k * (b1 - b0) / (a1 - a0)`.
    pub proof fn lemma_left_cursor(a0: int, b0: int, a1: int, b1: int, k: int, x: int)
        requires
            a0 < a1,
            0 <= k,
        ensures
            x >= LineView::start(a0, b0, a1, b1, LineStateRound::Left).after(k).b <==> (x - b0) * (
            a1 - a0) >= k * (b1 - b0),
    {
        let s = LineView::start(a0, b0, a1, b1, LineStateRound::Left);
        let n = a1 - a0;
        assert(s.da == 2 * n);
        if k == 0 {
            assert(((x - b0) * n >= 0) <==> x >= b0) by (nonlinear_arith)
                requires
                    0 < n,
            ;
            assert(k * (b1 - b0) == 0) by (nonlinear_arith)
                requires
                    k == 0,
            ;
        } else if b1 > b0 {
            let m = b1 - b0;
            let t = k * m;
            let num = s.b_frac + k * s.db;
            assert(num == 2 * n - 1 + 2 * t) by (nonlinear_arith)
                requires
                    num == 2 * n - 1 + k * (2 * m),
                    t == k * m,
            ;
            let q = num / s.da;
            let r = num % s.da;
            lemma_fundamental_div_mod(num, s.da);
            lemma_mod_bound(num, s.da);
            assert(s.da * q == 2 * (n * q)) by (nonlinear_arith)
                requires
                    s.da == 2 * n,
            ;
            assert(s.dir * q == q) by (nonlinear_arith)
                requires
                    s.dir == 1,
            ;
            assert((x - b0) * n == n * (x - b0)) by (nonlinear_arith);
            lemma_rounded_up(x - b0, q, r, n, t, n * q, n * (x - b0));
        } else {
            let m = b0 - b1;
            let t = k * m;
            let num = s.b_frac + k * s.db;
            assert(num == 1 + 2 * t) by (nonlinear_arith)
                requires
                    num == 1 + k * (2 * m),
                    t == k * m,
            ;
            let q = num / s.da;
            let r = num % s.da;
            lemma_fundamental_div_mod(num, s.da);
            lemma_mod_bound(num, s.da);
            assert(s.da * q == 2 * (n * q)) by (nonlinear_arith)
                requires
                    s.da == 2 * n,
            ;
            assert(s.dir * q == -q) by (nonlinear_arith)
                requires
                    s.dir == -1,
            ;
            assert((x - b0) * n == -(n * (b0 - x))) by (nonlinear_arith);
            assert(k * (b1 - b0) == -t) by (nonlinear_arith)
                requires
                    t == k * (b0 - b1),
            ;
            lemma_rounded_down(b0 - x, q, r, n, t, n * q, n * (b0 - x));
        }
    }
}

/// A cursor on a line: `a` advances by one per step, `b` follows by the
/// line's slope.
#[derive(Clone, Copy, Debug)]
pub struct LineState {
    pub a: i32,
    pub a_final: i32,
    pub b: i32,
    pub b_frac: i64,
    pub da: i64,
    pub db: i64,
    pub dir: i32,
}

impl View for LineState {
    type V = LineView;

    open spec fn view(&self) -> LineView {
        LineView {
            a: self.a as int,
            a_final: self.a_final as int,
            b: self.b as int,
            b_frac: self.b_frac as int,
            da: self.da as int,
            db: self.db as int,
            dir: self.dir as int,
        }
    }
}

impl LineState {
    /// A cursor at `(a0, b0)` on the line to `(a1, b1)`.
    pub fn new(a0: i32, b0: i32, a1: i32, b1: i32, round: LineStateRound) -> (s: LineState)
        requires
            a0 <= a1,
        ensures
            s@ == LineView::start(a0 as int, b0 as int, a1 as int, b1 as int, round),
            s@.wf(),
    {
        let span_a: i64 = a1 as i64 - a0 as i64;
        let span_b: i64 = b1 as i64 - b0 as i64;
        let da: i64 = (if span_a < 0 {
            -span_a
        } else {
            span_a
        }) * 2;
        let db: i64 = (if span_b < 0 {
            -span_b
        } else {
            span_b
        }) * 2;
        let up = b1 > b0;
        let b_frac: i64 = match round {
            LineStateRound::Left => if up {
                da - 1
            } else {
                1
            },
            LineStateRound::Nearest => da / 2,
            LineStateRound::Right => if up {
                1
            } else {
                da - 1
            },
        };
        let dir: i32 = if up {
            1
        } else {
            -1
        };
        proof {
            LineView::lemma_start(a0 as int, b0 as int, a1 as int, b1 as int, round);
        }
        LineState { a: a0, a_final: a1, b: b0, b_frac, da, db, dir }
    }

    /// Moves one unit along the major axis, and the minor axis by the
    /// slope. Returns `false`, and moves nothing, at the end of the line.
    pub fn step(&mut self) -> (more: bool)
        requires
            old(self)@.wf(),
        ensures
            more == (old(self)@.a != old(self)@.a_final),
            final(self)@ == (if more {
                old(self)@.after(1)
            } else {
                old(self)@
            }),
            final(self)@.wf(),
    {
        if self.a == self.a_final {
            return false;
        }
        let ghost from = self@;
        let ghost total = from.b_frac + from.db;
        let ghost q: int = 0;
        proof {
            from.lemma_step_wf();
            from.lemma_after_between(1, from.remaining());
            lemma_fundamental_div_mod(total, from.da);
            lemma_mod_bound(total, from.da);
            lemma_div_pos_is_pos(total, from.da);
        }
        self.a += 1;
        self.b_frac += self.db;
        while self.b_frac >= self.da
            invariant
                self@.a == from.a + 1,
                self@.a_final == from.a_final,
                self@.da == from.da,
                self@.db == from.db,
                self@.dir == from.dir,
                from.wf(),
                from.a < from.a_final,
                total == from.b_frac + from.db,
                0 <= q <= total / from.da,
                0 <= self@.b_frac,
                total == q * from.da + self@.b_frac,
                self@.b == from.b + from.dir * q,
                from.dir == 1 ==> from.b <= from.after(1).b <= i32::MAX,
                from.dir == -1 ==> from.b >= from.after(1).b >= i32::MIN,
                from.after(1).b == from.b + from.dir * (total / from.da),
            decreases self.b_frac,
        {
            proof {
                let d = from.da;
                let rest = self@.b_frac - d;
                assert(total == (q + 1) * d + rest) by (nonlinear_arith)
                    requires
                        total == q * d + self@.b_frac,
                        rest == self@.b_frac - d,
                ;
                lemma_div_mod_add((q + 1) * d, rest, d);
                lemma_fundamental_div_mod_converse((q + 1) * d, d, q + 1, 0);
                lemma_div_pos_is_pos(rest, d);
                assert(q + 1 <= total / d);
                assert(from.dir * (q + 1) == from.dir * q + from.dir) by (nonlinear_arith);
                assert(from.dir == 1 ==> from.dir * q + 1 <= from.dir * (total / d))
                    by (nonlinear_arith)
                    requires
                        q + 1 <= total / d,
                ;
                assert(from.dir == -1 ==> from.dir * q - 1 >= from.dir * (total / d))
                    by (nonlinear_arith)
                    requires
                        q + 1 <= total / d,
                ;
                q = q + 1;
            }
            self.b_frac -= self.da;
            self.b += self.dir;
        }
        proof {
            lemma_fundamental_div_mod_converse(total, from.da, q, self@.b_frac);
        }
        true
    }
}

} // verus!
