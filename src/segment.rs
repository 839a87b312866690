use vstd::prelude::*;

use crate::fraction::Fraction;
use crate::knots::{IncomeTaxKnot, IncomeTaxPoint, AMOUNT_BOUND};
use crate::marginal_schedule::RATE_SCALE;

verus! {

/// The straight piece of a curve between two knots.
#[derive(Clone, Copy, Debug, PartialEq, Eq, Structural)]
pub struct LinearPiecewiseSegment {
    pub left_point: IncomeTaxKnot,
    pub right_point: IncomeTaxKnot,
}

/// `(n, d)` written with a positive denominator (for `d != 0`).
pub open spec fn positive_denom(n: int, d: int) -> (int, int) {
    if d < 0 {
        (-n, -d)
    } else {
        (n, d)
    }
}

/// The value at income `x` of the line through knots `l` and `r`, in minor
/// units (the knots' amounts are in ten-thousandths of one).
pub open spec fn line_value(l: IncomeTaxKnot, r: IncomeTaxKnot, x: int) -> (int, int) {
    let dx = r.income_limit - l.income_limit;
    let dy = r.income_tax_amount_bp - l.income_tax_amount_bp;
    positive_denom(l.income_tax_amount_bp * dx + dy * (x - l.income_limit), dx * RATE_SCALE)
}

pub open spec fn min_limit(s: LinearPiecewiseSegment) -> int {
    if s.left_point.income_limit <= s.right_point.income_limit {
        s.left_point.income_limit as int
    } else {
        s.right_point.income_limit as int
    }
}

pub open spec fn max_limit(s: LinearPiecewiseSegment) -> int {
    if s.left_point.income_limit <= s.right_point.income_limit {
        s.right_point.income_limit as int
    } else {
        s.left_point.income_limit as int
    }
}

/// Where segment `s` meets segment `o`, solved exactly by Cramer's rule.
///
/// Writing `s(t1) = s.left + t1 * (s.right - s.left)` and likewise `o(t2)`,
/// the crossing solves `t1 * (s.right - s.left) + t2 * (o.left - o.right)
/// = o.left - s.left`. With `det` the determinant of that system and
/// `n1`, `n2` the numerators of `t1`, `t2` (all with `det > 0`), the point is
/// `s(n1 / det)` when `det != 0` and both parameters lie in `[0, 1]`; a zero
/// determinant (parallel or coincident segments) gives no point.
pub open spec fn crossing(s: LinearPiecewiseSegment, o: LinearPiecewiseSegment) -> Option<
    (int, int, int),
> {
    let x1 = s.left_point.income_limit as int;
    let y1 = s.left_point.income_tax_amount_bp as int;
    let dx1 = s.right_point.income_limit - x1;
    let dy1 = s.right_point.income_tax_amount_bp - y1;
    let dx2 = o.right_point.income_limit - o.left_point.income_limit;
    let dy2 = o.right_point.income_tax_amount_bp - o.left_point.income_tax_amount_bp;
    let c0 = o.left_point.income_limit - x1;
    let c1 = o.left_point.income_tax_amount_bp - y1;
    let det0 = dx2 * dy1 - dx1 * dy2;
    let m1 = dx2 * c1 - dy2 * c0;
    let m2 = dx1 * c1 - dy1 * c0;
    let (det, n1, n2) = if det0 < 0 {
        (-det0, -m1, -m2)
    } else {
        (det0, m1, m2)
    };
    if det0 != 0 && 0 <= n1 <= det && 0 <= n2 <= det {
        Some((x1 * det + n1 * dx1, y1 * det + n1 * dy1, det))
    } else {
        None
    }
}

/// Point `p = (x, y, d)` (for `(x / d, y / d)`) lies on segment `s`: it is
/// `s.left + t * (s.right - s.left)` for some `t = n / d` in `[0, 1]`.
pub open spec fn on_segment(p: (int, int, int), s: LinearPiecewiseSegment) -> bool {
    exists|n: int| 0 <= n <= p.2 && #[trigger] segment_point(s, p.2, n) == (p.0, p.1)
}

/// `d` times the point `s.left + (n / d) * (s.right - s.left)`.
pub open spec fn segment_point(s: LinearPiecewiseSegment, d: int, n: int) -> (int, int) {
    (
        s.left_point.income_limit * d + n * (s.right_point.income_limit - s.left_point.income_limit),
        s.left_point.income_tax_amount_bp * d + n * (s.right_point.income_tax_amount_bp
            - s.left_point.income_tax_amount_bp),
    )
}

/// A crossing lies on both segments.
pub proof fn lemma_crossing_on_both_segments(s: LinearPiecewiseSegment, o: LinearPiecewiseSegment)
    ensures
        crossing(s, o) matches Some(p) ==> p.2 > 0 && on_segment(p, s) && on_segment(p, o),
{
    if let Some(p) = crossing(s, o) {
        let x1 = s.left_point.income_limit as int;
        let y1 = s.left_point.income_tax_amount_bp as int;
        let dx1 = s.right_point.income_limit - x1;
        let dy1 = s.right_point.income_tax_amount_bp - y1;
        let q1 = o.left_point.income_limit as int;
        let r1 = o.left_point.income_tax_amount_bp as int;
        let dx2 = o.right_point.income_limit - q1;
        let dy2 = o.right_point.income_tax_amount_bp - r1;
        let c0 = q1 - x1;
        let c1 = r1 - y1;
        let det0 = dx2 * dy1 - dx1 * dy2;
        let m1 = dx2 * c1 - dy2 * c0;
        let m2 = dx1 * c1 - dy1 * c0;
        assert(m1 * dx1 - m2 * dx2 == c0 * det0) by (nonlinear_arith)
            requires
                det0 == dx2 * dy1 - dx1 * dy2,
                m1 == dx2 * c1 - dy2 * c0,
                m2 == dx1 * c1 - dy1 * c0,
        ;
        assert(m1 * dy1 - m2 * dy2 == c1 * det0) by (nonlinear_arith)
            requires
                det0 == dx2 * dy1 - dx1 * dy2,
                m1 == dx2 * c1 - dy2 * c0,
                m2 == dx1 * c1 - dy1 * c0,
        ;
        let (det, n1, n2) = if det0 < 0 {
            (-det0, -m1, -m2)
        } else {
            (det0, m1, m2)
        };
        assert(n1 * dx1 - n2 * dx2 == c0 * det) by (nonlinear_arith)
            requires
                m1 * dx1 - m2 * dx2 == c0 * det0,
                (det == -det0 && n1 == -m1 && n2 == -m2) || (det == det0 && n1 == m1 && n2 == m2),
        ;
        assert(n1 * dy1 - n2 * dy2 == c1 * det) by (nonlinear_arith)
            requires
                m1 * dy1 - m2 * dy2 == c1 * det0,
                (det == -det0 && n1 == -m1 && n2 == -m2) || (det == det0 && n1 == m1 && n2 == m2),
        ;
        assert(p == (x1 * det + n1 * dx1, y1 * det + n1 * dy1, det));
        assert(x1 * det + n1 * dx1 == q1 * det + n2 * dx2) by (nonlinear_arith)
            requires
                n1 * dx1 - n2 * dx2 == c0 * det,
                c0 == q1 - x1,
        ;
        assert(y1 * det + n1 * dy1 == r1 * det + n2 * dy2) by (nonlinear_arith)
            requires
                n1 * dy1 - n2 * dy2 == c1 * det,
                c1 == r1 - y1,
        ;
        assert(segment_point(s, det, n1) == (p.0, p.1));
        assert(segment_point(o, det, n2) == (p.0, p.1));
        assert(on_segment(p, s));
        assert(on_segment(p, o));
    }
}

impl LinearPiecewiseSegment {
    /// The value of the segment's line at `income`.
    pub open spec fn value_spec(&self, income: i32) -> (int, int) {
        line_value(self.left_point, self.right_point, income as int)
    }

    /// Value of the segment's line at `income`, or `None` outside the
    /// segment's income range.
    pub fn linear_interpolation(&self, income: i32) -> (r: Option<Fraction>)
        requires
            self.left_point.income_limit != self.right_point.income_limit,
            self.left_point.bounded(),
            self.right_point.bounded(),
        ensures
            r is Some <==> min_limit(*self) <= income <= max_limit(*self),
            r matches Some(v) ==> v@ == line_value(self.left_point, self.right_point, income as int)
                && v.valid(),
    {
        let lx = self.left_point.income_limit;
        let rx = self.right_point.income_limit;
        let (lo, hi) = if lx <= rx {
            (lx, rx)
        } else {
            (rx, lx)
        };
        if income < lo || income > hi {
            return None;
        }
        let dx: i128 = rx as i128 - lx as i128;
        let y: i128 = self.left_point.income_tax_amount_bp as i128;
        let dy: i128 = self.right_point.income_tax_amount_bp as i128 - y;
        let off: i128 = income as i128 - lx as i128;
        proof {
            lemma_mul_bound(y as int, dx as int, 0x2000_0000_0000, 0x1_0000_0000);
            lemma_mul_bound(dy as int, off as int, 0x4000_0000_0000, 0x1_0000_0000);
            lemma_mul_bound(dx as int, RATE_SCALE as int, 0x1_0000_0000, 0x4000);
        }
        let numer: i128 = y * dx + dy * off;
        let denom: i128 = dx * RATE_SCALE as i128;
        if dx < 0 {
            Some(Fraction { numer: -numer, denom: -denom })
        } else {
            Some(Fraction { numer, denom })
        }
    }

    /// Value of the segment's line at an income inside its range.
    pub fn value_within(&self, income: i32) -> (r: Fraction)
        requires
            self.left_point.income_limit < self.right_point.income_limit,
            self.left_point.income_limit <= income <= self.right_point.income_limit,
            self.left_point.bounded(),
            self.right_point.bounded(),
        ensures
            r@ == line_value(self.left_point, self.right_point, income as int),
            r.valid(),
    {
        match self.linear_interpolation(income) {
            Some(v) => v,
            None => Fraction { numer: 0, denom: 1 },
        }
    }

    /// Where this segment crosses `segment_to_intersect`, if at a single point
    /// that lies on both segments (see `crossing`).
    pub fn compute_intersection(&self, segment_to_intersect: &LinearPiecewiseSegment) -> (r:
        Option<IncomeTaxPoint>)
        requires
            self.left_point.bounded(),
            self.right_point.bounded(),
            segment_to_intersect.left_point.bounded(),
            segment_to_intersect.right_point.bounded(),
        ensures
            r matches Some(p) ==> crossing(*self, *segment_to_intersect) == Some(p@),
            r is None ==> crossing(*self, *segment_to_intersect) is None,
            r matches Some(p) ==> p.bounded(),
    {
        let x1: i128 = self.left_point.income_limit as i128;
        let y1: i128 = self.left_point.income_tax_amount_bp as i128;
        let dx1: i128 = self.right_point.income_limit as i128 - x1;
        let dy1: i128 = self.right_point.income_tax_amount_bp as i128 - y1;
        let q1: i128 = segment_to_intersect.left_point.income_limit as i128;
        let r1: i128 = segment_to_intersect.left_point.income_tax_amount_bp as i128;
        let dx2: i128 = segment_to_intersect.right_point.income_limit as i128 - q1;
        let dy2: i128 = segment_to_intersect.right_point.income_tax_amount_bp as i128 - r1;
        let c0: i128 = q1 - x1;
        let c1: i128 = r1 - y1;
        proof {
            lemma_mul_bound(dx2 as int, dy1 as int, 0x1_0000_0000, 0x4000_0000_0000);
            lemma_mul_bound(dx1 as int, dy2 as int, 0x1_0000_0000, 0x4000_0000_0000);
            lemma_mul_bound(dx2 as int, c1 as int, 0x1_0000_0000, 0x4000_0000_0000);
            lemma_mul_bound(dy2 as int, c0 as int, 0x4000_0000_0000, 0x1_0000_0000);
            lemma_mul_bound(dx1 as int, c1 as int, 0x1_0000_0000, 0x4000_0000_0000);
            lemma_mul_bound(dy1 as int, c0 as int, 0x4000_0000_0000, 0x1_0000_0000);
        }
        let det0: i128 = dx2 * dy1 - dx1 * dy2;
        let m1: i128 = dx2 * c1 - dy2 * c0;
        let m2: i128 = dx1 * c1 - dy1 * c0;
        if det0 == 0 {
            return None;
        }
        let (det, n1, n2) = if det0 < 0 {
            (-det0, -m1, -m2)
        } else {
            (det0, m1, m2)
        };
        if !(0 <= n1 && n1 <= det && 0 <= n2 && n2 <= det) {
            return None;
        }
        proof {
            lemma_mul_bound(x1 as int, det as int, 0x8000_0001, 0x8000_0000_0000_0000_0000);
            lemma_mul_bound(n1 as int, dx1 as int, 0x8000_0000_0000_0000_0001, 0x1_0000_0000);
            lemma_mul_bound(y1 as int, det as int, 0x2000_0000_0000, 0x8000_0000_0000_0000_0000);
            lemma_mul_bound(n1 as int, dy1 as int, 0x8000_0000_0000_0000_0001, 0x4000_0000_0000);
        }
        Some(
            IncomeTaxPoint {
                income_numer: x1 * det + n1 * dx1,
                income_tax_amount_numer: y1 * det + n1 * dy1,
                denom: det,
            },
        )
    }
}

/// A product of two factors bounded in size is bounded by the product of
/// the bounds.
pub proof fn lemma_mul_bound(a: int, b: int, x: int, y: int)
    requires
        -x < a < x,
        -y < b < y,
    ensures
        -(x * y) < a * b < x * y,
{
    assert(-(x * y) < a * b < x * y) by (nonlinear_arith)
        requires
            -x < a < x,
            -y < b < y,
    ;
}

} // verus!
