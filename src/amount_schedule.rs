use vstd::prelude::*;

use crate::errors::TaxError;
use crate::fraction::{same_value, value_le, Fraction};
use crate::knots::{IncomeTaxKnot, IncomeTaxPoint};
use crate::marginal_schedule::RATE_SCALE;
use crate::parallel::par_map;
use crate::segment::{
    crossing,
    lemma_crossing_on_both_segments,
    lemma_mul_bound,
    line_value,
    on_segment,
    segment_point,
    LinearPiecewiseSegment,
};
use crate::utils::{
    generate_range,
    range_count,
    group_incomes_by_segment,
    group_members,
    grouped_incomes,
    in_group,
    segment_of,
    sorted,
};

verus! {

/// Income limits rise strictly from knot to knot.
pub open spec fn increasing_limits(k: Seq<IncomeTaxKnot>) -> bool {
    forall|i: int, j: int| 0 <= i < j < k.len() ==> k[i].income_limit < k[j].income_limit
}

/// A cumulative tax curve: at least two knots, starting at `(0, 0)`, with
/// strictly rising income limits. The last limit is the largest income the
/// curve covers.
pub open spec fn valid_amount_knots(k: Seq<IncomeTaxKnot>) -> bool {
    &&& k.len() >= 2
    &&& k[0].income_limit == 0
    &&& k[0].income_tax_amount_bp == 0
    &&& increasing_limits(k)
    &&& knots_bounded(k)
}

/// Every knot's amount fits the curves' arithmetic (see `IncomeTaxKnot::bounded`).
pub open spec fn knots_bounded(k: Seq<IncomeTaxKnot>) -> bool {
    forall|i: int| 0 <= i < k.len() ==> (#[trigger] k[i]).bounded()
}

/// Tax amounts never fall from one knot to a later one.
pub open spec fn nondecreasing_amounts(k: Seq<IncomeTaxKnot>) -> bool {
    forall|i: int, j: int| 0 <= i < j < k.len() ==> k[i].income_tax_amount_bp <= k[j].income_tax_amount_bp
}

/// Where the search for `x`'s segment, started at segment `i`, ends: a
/// segment from `i` on, whose right knot is at or above `x` unless it is the
/// last segment, and whose left knot is below `x` unless it is segment `i`.
pub proof fn lemma_segment_index_bounds(k: Seq<IncomeTaxKnot>, x: int, i: int)
    requires
        0 <= i <= k.len() - 2,
    ensures
        i <= segment_index_from(k, x, i) <= k.len() - 2,
        segment_index_from(k, x, i) == i || x > k[segment_index_from(k, x, i)].income_limit,
        segment_index_from(k, x, i) == k.len() - 2 || x <= k[segment_index_from(k, x, i)
            + 1].income_limit,
    decreases k.len() - i,
{
    if !(i + 2 >= k.len() || x <= k[i + 1].income_limit) {
        lemma_segment_index_bounds(k, x, i + 1);
    }
}

/// On a curve whose knot amounts never fall, the tax owed never falls as
/// income rises, anywhere on the curve's range.
pub proof fn lemma_curve_monotone(k: Seq<IncomeTaxKnot>, x: int, y: int)
    requires
        valid_amount_knots(k),
        nondecreasing_amounts(k),
        0 <= x <= y <= k.last().income_limit,
    ensures
        value_le(curve_value(k, x), curve_value(k, y)),
{
    let n = k.len() as int;
    let g = segment_index_from(k, x, 0);
    let h = segment_index_from(k, y, 0);
    lemma_segment_index_bounds(k, x, 0);
    lemma_segment_index_bounds(k, y, 0);
    assert(k[n - 1].income_limit >= k[g + 1].income_limit);
    if h < g {
        assert(k[h + 1].income_limit <= k[g].income_limit);
        assert(y <= k[h + 1].income_limit);
        assert(false);
    }
    let xg = k[g].income_limit as int;
    let d = k[g + 1].income_limit - xg;
    let yg = k[g].income_tax_amount_bp as int;
    let yg1 = k[g + 1].income_tax_amount_bp as int;
    let xh = k[h].income_limit as int;
    let e = k[h + 1].income_limit - xh;
    let yh = k[h].income_tax_amount_bp as int;
    let yh1 = k[h + 1].income_tax_amount_bp as int;
    assert(xg <= x <= xg + d);
    assert(xh <= y <= xh + e);
    assert(d > 0 && e > 0);
    assert(yg <= yg1 && yh <= yh1);
    let nx = yg * d + (yg1 - yg) * (x - xg);
    let ny = yh * e + (yh1 - yh) * (y - xh);
    assert(curve_value(k, x) == (nx, d * RATE_SCALE));
    assert(curve_value(k, y) == (ny, e * RATE_SCALE));
    if g == h {
        assert(nx * e <= ny * d) by (nonlinear_arith)
            requires
                d == e,
                d > 0,
                xg == xh,
                yg == yh,
                yg1 == yh1,
                yg <= yg1,
                x <= y,
                nx == yg * d + (yg1 - yg) * (x - xg),
                ny == yh * e + (yh1 - yh) * (y - xh),
        ;
    } else {
        assert(yg1 <= yh);
        assert(nx <= yg1 * d) by (nonlinear_arith)
            requires
                nx == yg * d + (yg1 - yg) * (x - xg),
                x - xg <= d,
                yg <= yg1,
        ;
        assert(yh * e <= ny) by (nonlinear_arith)
            requires
                ny == yh * e + (yh1 - yh) * (y - xh),
                0 <= y - xh,
                yh <= yh1,
        ;
        assert(nx * e <= ny * d) by (nonlinear_arith)
            requires
                nx <= yg1 * d,
                yh * e <= ny,
                yg1 <= yh,
                d > 0,
                e > 0,
        ;
    }
    assert(nx * (e * RATE_SCALE) <= ny * (d * RATE_SCALE)) by (nonlinear_arith)
        requires
            nx * e <= ny * d,
    ;
}

/// Index of the first segment, from segment `i` on, whose right knot is at
/// or above `x` (the last segment if there is none).
pub open spec fn segment_index_from(k: Seq<IncomeTaxKnot>, x: int, i: int) -> int
    decreases k.len() - i,
{
    if i < 0 || i + 2 >= k.len() {
        i
    } else if x <= k[i + 1].income_limit {
        i
    } else {
        segment_index_from(k, x, i + 1)
    }
}

/// The tax owed at income `x` on the piecewise-linear curve through the
/// knots `k`, as a (numerator, positive denominator) pair.
pub open spec fn curve_value(k: Seq<IncomeTaxKnot>, x: int) -> (int, int) {
    let g = segment_index_from(k, x, 0);
    line_value(k[g], k[g + 1], x)
}

/// The break-even points met by the sweep from segment `i` of `a` and
/// segment `j` of `b` on. Where the two current segments' income ranges
/// overlap, their crossing (if any, and unless it is the origin) is taken;
/// then the segment that ends first is left behind (on a tie, `b`'s).
pub open spec fn sweep_points(a: Seq<IncomeTaxKnot>, b: Seq<IncomeTaxKnot>, i: int, j: int) -> Seq<
    (int, int, int),
>
    decreases a.len() - i + b.len() - j,
{
    if 0 <= i && 0 <= j && i + 1 < a.len() && j + 1 < b.len() {
        let overlap = a[i + 1].income_limit >= b[j].income_limit && b[j + 1].income_limit
            >= a[i].income_limit;
        let here = if overlap {
            match crossing(segment_of(a, i), segment_of(b, j)) {
                Some(p) => if p.0 == 0 && p.1 == 0 {
                    Seq::empty()
                } else {
                    seq![p]
                },
                None => Seq::empty(),
            }
        } else {
            Seq::empty()
        };
        let rest = if a[i + 1].income_limit < b[j + 1].income_limit {
            sweep_points(a, b, i + 1, j)
        } else {
            sweep_points(a, b, i, j + 1)
        };
        here + rest
    } else {
        Seq::empty()
    }
}

/// Point `p` lies on one of the segments of the curve through `k`.
pub open spec fn on_curve(p: (int, int, int), k: Seq<IncomeTaxKnot>) -> bool {
    exists|s: int| 0 <= s < k.len() - 1 && #[trigger] on_segment(p, segment_of(k, s))
}

/// Every point the sweep reports lies on both curves, has a positive
/// denominator and is not the origin.
pub proof fn lemma_sweep_points_on_both_curves(
    a: Seq<IncomeTaxKnot>,
    b: Seq<IncomeTaxKnot>,
    i: int,
    j: int,
)
    ensures
        forall|t: int|
            0 <= t < sweep_points(a, b, i, j).len() ==> {
                let p = #[trigger] sweep_points(a, b, i, j)[t];
                &&& p.2 > 0
                &&& !(p.0 == 0 && p.1 == 0)
                &&& on_curve(p, a)
                &&& on_curve(p, b)
            },
    decreases a.len() - i + b.len() - j,
{
    if 0 <= i && 0 <= j && i + 1 < a.len() && j + 1 < b.len() {
        let next = if a[i + 1].income_limit < b[j + 1].income_limit {
            (i + 1, j)
        } else {
            (i, j + 1)
        };
        lemma_sweep_points_on_both_curves(a, b, next.0, next.1);
        lemma_crossing_on_both_segments(segment_of(a, i), segment_of(b, j));
        let all = sweep_points(a, b, i, j);
        let rest = sweep_points(a, b, next.0, next.1);
        let here_len = all.len() - rest.len();
        assert forall|t: int| 0 <= t < all.len() implies {
            let p = #[trigger] all[t];
            &&& p.2 > 0
            &&& !(p.0 == 0 && p.1 == 0)
            &&& on_curve(p, a)
            &&& on_curve(p, b)
        } by {
            if t < here_len {
                let p = all[t];
                assert(on_segment(p, segment_of(a, i)));
                assert(on_segment(p, segment_of(b, j)));
            } else {
                assert(all[t] == rest[t - here_len]);
            }
        }
    }
}

/// A point on a segment whose limits rise lies between them in income:
/// `left * d <= x <= right * d` for the point `(x / d, ..)`.
proof fn lemma_on_segment_income(p: (int, int, int), seg: LinearPiecewiseSegment)
    requires
        on_segment(p, seg),
        p.2 > 0,
        seg.left_point.income_limit <= seg.right_point.income_limit,
    ensures
        seg.left_point.income_limit * p.2 <= p.0 <= seg.right_point.income_limit * p.2,
{
    let n = choose|n: int| 0 <= n <= p.2 && #[trigger] segment_point(seg, p.2, n) == (p.0, p.1);
    let l = seg.left_point.income_limit as int;
    let r = seg.right_point.income_limit as int;
    assert(p.0 == l * p.2 + n * (r - l));
    assert(l * p.2 <= l * p.2 + n * (r - l) <= r * p.2) by (nonlinear_arith)
        requires
            0 <= n <= p.2,
            l <= r,
    ;
}

/// Every point the sweep from `(i, j)` reports lies at or above both
/// current segments' left limits.
proof fn lemma_sweep_points_lower_bound(a: Seq<IncomeTaxKnot>, b: Seq<IncomeTaxKnot>, i: int, j: int)
    requires
        increasing_limits(a),
        increasing_limits(b),
    ensures
        forall|t: int|
            0 <= t < sweep_points(a, b, i, j).len() ==> {
                let p = #[trigger] sweep_points(a, b, i, j)[t];
                &&& p.2 > 0
                &&& a[i].income_limit * p.2 <= p.0
                &&& b[j].income_limit * p.2 <= p.0
            },
    decreases a.len() - i + b.len() - j,
{
    if 0 <= i && 0 <= j && i + 1 < a.len() && j + 1 < b.len() {
        let next = if a[i + 1].income_limit < b[j + 1].income_limit {
            (i + 1, j)
        } else {
            (i, j + 1)
        };
        lemma_sweep_points_lower_bound(a, b, next.0, next.1);
        lemma_crossing_on_both_segments(segment_of(a, i), segment_of(b, j));
        let all = sweep_points(a, b, i, j);
        let rest = sweep_points(a, b, next.0, next.1);
        let here_len = all.len() - rest.len();
        assert forall|t: int| 0 <= t < all.len() implies {
            let p = #[trigger] all[t];
            &&& p.2 > 0
            &&& a[i].income_limit * p.2 <= p.0
            &&& b[j].income_limit * p.2 <= p.0
        } by {
            let p = all[t];
            if t < here_len {
                lemma_on_segment_income(p, segment_of(a, i));
                lemma_on_segment_income(p, segment_of(b, j));
            } else {
                assert(p == rest[t - here_len]);
                assert(a[i].income_limit <= a[next.0].income_limit);
                assert(b[j].income_limit <= b[next.1].income_limit);
                assert(a[i].income_limit * p.2 <= a[next.0].income_limit * p.2) by (nonlinear_arith)
                    requires
                        a[i].income_limit <= a[next.0].income_limit,
                        p.2 > 0,
                ;
                assert(b[j].income_limit * p.2 <= b[next.1].income_limit * p.2) by (nonlinear_arith)
                    requires
                        b[j].income_limit <= b[next.1].income_limit,
                        p.2 > 0,
                ;
            }
        }
    }
}

/// The points come in order of income: on two curves whose limits rise, the
/// sweep from `(i, j)` never reports a point at a lower income than one
/// before it.
pub proof fn lemma_sweep_points_in_income_order(
    a: Seq<IncomeTaxKnot>,
    b: Seq<IncomeTaxKnot>,
    i: int,
    j: int,
)
    requires
        increasing_limits(a),
        increasing_limits(b),
    ensures
        forall|s: int, t: int|
            0 <= s < t < sweep_points(a, b, i, j).len() ==> (#[trigger] sweep_points(a, b, i, j)[s]).0
                * sweep_points(a, b, i, j)[t].2 <= (#[trigger] sweep_points(a, b, i, j)[t]).0
                * sweep_points(a, b, i, j)[s].2,
    decreases a.len() - i + b.len() - j,
{
    if 0 <= i && 0 <= j && i + 1 < a.len() && j + 1 < b.len() {
        let next = if a[i + 1].income_limit < b[j + 1].income_limit {
            (i + 1, j)
        } else {
            (i, j + 1)
        };
        lemma_sweep_points_in_income_order(a, b, next.0, next.1);
        lemma_sweep_points_lower_bound(a, b, next.0, next.1);
        lemma_crossing_on_both_segments(segment_of(a, i), segment_of(b, j));
        let all = sweep_points(a, b, i, j);
        let rest = sweep_points(a, b, next.0, next.1);
        let here_len = all.len() - rest.len();
        assert(here_len <= 1);
        assert forall|s: int, t: int| 0 <= s < t < all.len() implies (#[trigger] all[s]).0 * all[t].2
            <= (#[trigger] all[t]).0 * all[s].2 by {
            if s < here_len {
                let p = all[s];
                let q = all[t];
                assert(q == rest[t - here_len]);
                lemma_on_segment_income(p, segment_of(a, i));
                lemma_on_segment_income(p, segment_of(b, j));
                let m = if next.0 == i + 1 {
                    a[i + 1].income_limit as int
                } else {
                    b[j + 1].income_limit as int
                };
                assert(p.0 <= m * p.2);
                assert(m * q.2 <= q.0);
                assert(p.0 * q.2 <= q.0 * p.2) by (nonlinear_arith)
                    requires
                        p.0 <= m * p.2,
                        m * q.2 <= q.0,
                        p.2 > 0,
                        q.2 > 0,
                ;
            } else {
                assert(all[s] == rest[s - here_len]);
                assert(all[t] == rest[t - here_len]);
            }
        }
    }
}

pub open spec fn points_view(s: Seq<IncomeTaxPoint>) -> Seq<(int, int, int)> {
    s.map_values(|p: IncomeTaxPoint| p@)
}

/// On rising limits, an income that belongs to segment `g` (see `in_group`)
/// is valued on segment `g`.
pub proof fn lemma_segment_index(k: Seq<IncomeTaxKnot>, x: int, g: int, i: int)
    requires
        increasing_limits(k),
        0 <= i <= g,
        g + 1 < k.len(),
        in_group(k, g, x),
    ensures
        segment_index_from(k, x, i) == g,
    decreases g - i,
{
    if i < g {
        assert(k[i + 1].income_limit <= k[g].income_limit);
        lemma_segment_index(k, x, g, i + 1);
    }
}

/// Any segment whose range holds `x` values `x` as the curve does: at a
/// shared knot the two neighbouring segments agree.
pub proof fn lemma_curve_value_on_segment(k: Seq<IncomeTaxKnot>, x: int, i: int)
    requires
        increasing_limits(k),
        0 <= i,
        i + 1 < k.len(),
        k[i].income_limit <= x <= k[i + 1].income_limit,
    ensures
        same_value(curve_value(k, x), line_value(k[i], k[i + 1], x)),
{
    if i == 0 || x > k[i].income_limit {
        lemma_segment_index(k, x, i, 0);
    } else {
        lemma_segment_index(k, x, i - 1, 0);
        let y = k[i].income_tax_amount_bp as int;
        let d1 = k[i].income_limit - k[i - 1].income_limit;
        let d2 = k[i + 1].income_limit - k[i].income_limit;
        assert(k[i - 1].income_tax_amount_bp * d1 + (y - k[i - 1].income_tax_amount_bp) * d1 == y * d1)
            by (nonlinear_arith);
        assert((y * d1) * (d2 * RATE_SCALE) == (y * d2) * (d1 * RATE_SCALE)) by (nonlinear_arith);
    }
}

/// At a knot's own income the curve's value is that knot's amount.
pub proof fn lemma_curve_value_at_knot(k: Seq<IncomeTaxKnot>, i: int)
    requires
        increasing_limits(k),
        0 <= i < k.len(),
        k.len() >= 2,
    ensures
        same_value(
            curve_value(k, k[i].income_limit as int),
            (k[i].income_tax_amount_bp as int, RATE_SCALE as int),
        ),
{
    let x = k[i].income_limit as int;
    let j = if i + 1 < k.len() {
        i
    } else {
        i - 1
    };
    assert(k[j].income_limit <= x <= k[j + 1].income_limit);
    lemma_curve_value_on_segment(k, x, j);
    let d = k[j + 1].income_limit - k[j].income_limit;
    let yj = k[j].income_tax_amount_bp as int;
    let yj1 = k[j + 1].income_tax_amount_bp as int;
    if j == i {
        assert(yj * d + (yj1 - yj) * (x - k[j].income_limit) == yj * d) by (nonlinear_arith)
            requires
                x == k[j].income_limit,
        ;
        assert(yj * d * 1 == yj * d);
    } else {
        assert(yj * d + (yj1 - yj) * (x - k[j].income_limit) == yj1 * d) by (nonlinear_arith)
            requires
                x == k[j + 1].income_limit,
                d == k[j + 1].income_limit - k[j].income_limit,
        ;
    }
    let c = curve_value(k, x);
    let w = if j == i {
        yj
    } else {
        yj1
    };
    assert(line_value(k[j], k[j + 1], x) == (w * d, d * RATE_SCALE));
    assert(c.0 * (d * RATE_SCALE) == (w * d) * c.1);
    assert((c.0 * RATE_SCALE - w * c.1) * d == 0) by (nonlinear_arith)
        requires
            c.0 * (d * RATE_SCALE) == (w * d) * c.1,
    ;
    assert(c.0 * RATE_SCALE - w * c.1 == 0) by (nonlinear_arith)
        requires
            (c.0 * RATE_SCALE - w * c.1) * d == 0,
            d > 0,
    ;
    assert(k[i].income_tax_amount_bp == w);
}

/// The value of a line through two knots at an `i32` income has a
/// denominator below 2^46 and a numerator below 2^79 in size.
pub proof fn lemma_line_value_bounded(l: IncomeTaxKnot, r: IncomeTaxKnot, x: int)
    requires
        i32::MIN <= x <= i32::MAX,
        l.income_limit != r.income_limit,
        l.bounded(),
        r.bounded(),
    ensures
        0 < line_value(l, r, x).1 < 0x4000_0000_0000,
        -0x8000_0000_0000_0000_0000 < line_value(l, r, x).0 < 0x8000_0000_0000_0000_0000,
{
    let dx = r.income_limit - l.income_limit;
    let dy = r.income_tax_amount_bp - l.income_tax_amount_bp;
    let y = l.income_tax_amount_bp as int;
    let o = x - l.income_limit;
    lemma_mul_bound(y, dx, 0x2000_0000_0000, 0x1_0000_0000);
    lemma_mul_bound(dy, o, 0x4000_0000_0000, 0x1_0000_0000);
    lemma_mul_bound(dx, RATE_SCALE as int, 0x1_0000_0000, 0x4000);
}

proof fn lemma_grouped_split(groups: Seq<(LinearPiecewiseSegment, Vec<i32>)>, g: int)
    requires
        0 <= g <= groups.len(),
    ensures
        grouped_incomes(groups) == grouped_incomes(groups.subrange(0, g)) + grouped_incomes(
            groups.subrange(g, groups.len() as int),
        ),
{
    assert(group_members(groups) =~= group_members(groups.subrange(0, g)) + group_members(
        groups.subrange(g, groups.len() as int),
    ));
    vstd::seq_lib::lemma_flatten_concat(
        group_members(groups.subrange(0, g)),
        group_members(groups.subrange(g, groups.len() as int)),
    );
}

/// A cumulative tax curve: for each income limit, the total tax owed on an
/// income of exactly that amount. Tax between knots is interpolated linearly.
#[derive(Clone, Debug, PartialEq, Eq)]
pub struct IncomeTaxAmountSchedule {
    schedule: Vec<IncomeTaxKnot>,
}

impl View for IncomeTaxAmountSchedule {
    type V = Seq<IncomeTaxKnot>;

    closed spec fn view(&self) -> Seq<IncomeTaxKnot> {
        self.schedule@
    }
}

impl IncomeTaxAmountSchedule {
    pub fn new(income_tax_knots: Vec<IncomeTaxKnot>) -> (r: IncomeTaxAmountSchedule)
        ensures
            r@ == income_tax_knots@,
    {
        IncomeTaxAmountSchedule { schedule: income_tax_knots }
    }

    pub fn schedule(&self) -> (r: &Vec<IncomeTaxKnot>)
        ensures
            r@ == self@,
    {
        &self.schedule
    }

    /// The tax owed at each of the ascending `incomes`, in order.
    ///
    /// Fails with `IncomeOutOfBounds` when an income lies beyond the last
    /// knot, and otherwise with `NegativeIncome` (carrying the smallest
    /// income) when one is below zero.
    pub fn compute_income_taxes(&self, incomes: &[i32]) -> (r: Result<Vec<Fraction>, TaxError>)
        requires
            valid_amount_knots(self@),
            sorted(incomes@),
        ensures
            (exists|k: int| 0 <= k < incomes@.len() && #[trigger] incomes@[k] > self@.last().income_limit)
                ==> r == Err::<Vec<Fraction>, TaxError>(TaxError::IncomeOutOfBounds),
            (forall|k: int| 0 <= k < incomes@.len() ==> #[trigger] incomes@[k] <= self@.last().income_limit)
                && (exists|k: int| 0 <= k < incomes@.len() && #[trigger] incomes@[k] < 0) ==> r
                == Err::<Vec<Fraction>, TaxError>(TaxError::NegativeIncome(incomes@[0])),
            (forall|k: int|
                0 <= k < incomes@.len() ==> 0 <= #[trigger] incomes@[k] <= self@.last().income_limit)
                ==> (r matches Ok(v) && v@.len() == incomes@.len() && forall|k: int|
                0 <= k < incomes@.len() ==> (#[trigger] v@[k])@ == curve_value(self@, incomes@[k] as int)
                && v@[k].valid() && v@[k].bounded()),
    {
        let n = incomes.len();
        let last = self.schedule.len() - 1;
        if n > 0 && incomes[n - 1] > self.schedule[last].income_limit {
            return Err(TaxError::IncomeOutOfBounds);
        }
        if n > 0 && incomes[0] < 0 {
            return Err(TaxError::NegativeIncome(incomes[0]));
        }
        proof {
            assert forall|k: int| 0 <= k < incomes@.len() implies 0 <= #[trigger] incomes@[k]
                <= self@.last().income_limit by {
                assert(incomes@[0] <= incomes@[k] <= incomes@[n - 1]);
            }
        }
        let groups = group_incomes_by_segment(incomes, self.schedule.as_slice());
        let ghost all = grouped_incomes(groups@);
        assert(all == incomes@);
        let mut out: Vec<Fraction> = Vec::new();
        let mut g: usize = 0;
        proof {
            assert(groups@.subrange(0, 0) =~= Seq::<(LinearPiecewiseSegment, Vec<i32>)>::empty());
            assert(group_members(groups@.subrange(0, 0)) =~= Seq::<Seq<i32>>::empty());
        }
        while g < groups.len()
            invariant
                valid_amount_knots(self@),
                g <= groups@.len(),
                groups@.len() == 0 || groups@.len() + 1 <= self@.len(),
                forall|h: int| 0 <= h < groups@.len() ==> (#[trigger] groups@[h]).0 == segment_of(self@, h),
                forall|h: int, m: int|
                    0 <= h < groups@.len() && 0 <= m < groups@[h].1@.len() ==> in_group(
                        self@,
                        h,
                        #[trigger] groups@[h].1@[m] as int,
                    ),
                grouped_incomes(groups@) == incomes@,
                forall|k: int| 0 <= k < incomes@.len() ==> 0 <= #[trigger] incomes@[k],
                out@.len() == grouped_incomes(groups@.subrange(0, g as int)).len(),
                forall|k: int|
                    0 <= k < out@.len() ==> (#[trigger] out@[k])@ == curve_value(self@, incomes@[k] as int)
                        && out@[k].valid() && out@[k].bounded(),
            decreases groups@.len() - g,
        {
            let ghost off = out@.len() as int;
            let members = &groups[g].1;
            proof {
                lemma_grouped_split(groups@, g + 1);
                assert(groups@.subrange(0, g + 1) =~= groups@.subrange(0, g as int).push(groups@[g as int]));
                assert(group_members(groups@.subrange(0, g + 1)) =~= group_members(
                    groups@.subrange(0, g as int),
                ).push(members@));
                group_members(groups@.subrange(0, g as int)).lemma_flatten_push(members@);
                assert forall|m: int| 0 <= m < members@.len() implies #[trigger] members@[m]
                    == incomes@[off + m] by {
                    assert(incomes@[off + m] == grouped_incomes(groups@.subrange(0, g + 1))[off + m]);
                }
                assert forall|m: int| 0 <= m < members@.len() implies self@[g as int].income_limit
                    <= #[trigger] members@[m] <= self@[g + 1].income_limit by {
                    assert(in_group(self@, g as int, members@[m] as int));
                    assert(0 <= incomes@[off + m]);
                }
            }
            let segment = &groups[g].0;
            let mut values = par_map(
                members.as_slice(),
                |income: &i32| -> (v: Fraction)
                    requires
                        segment.left_point.income_limit < segment.right_point.income_limit,
                        segment.left_point.income_limit <= *income
                            <= segment.right_point.income_limit,
                    ensures
                        v@ == segment.value_spec(*income),
                        v.valid()
                {
                    segment.value_within(*income)
                },
            );
            proof {
                assert forall|m: int| 0 <= m < members@.len() implies curve_value(
                    self@,
                    #[trigger] members@[m] as int,
                ) == line_value(self@[g as int], self@[g + 1], members@[m] as int) by {
                    lemma_segment_index(self@, members@[m] as int, g as int, 0);
                }
                assert forall|m: int| 0 <= m < members@.len() implies (#[trigger] values@[m]).bounded() by {
                    lemma_line_value_bounded(self@[g as int], self@[g + 1], members@[m] as int);
                }
            }
            out.append(&mut values);
            g += 1;
        }
        proof {
            assert(groups@.subrange(0, g as int) =~= groups@);
        }
        Ok(out)
    }
    /// The tax owed at one `income`, found by binary search for the segment
    /// that holds it. A knot's own income gives its stored amount as is.
    /// `None` when the income is negative or beyond the last knot.
    pub fn compute_specific_income_tax(&self, income: i32) -> (r: Option<Fraction>)
        requires
            valid_amount_knots(self@),
        ensures
            r is Some <==> 0 <= income <= self@.last().income_limit,
            r matches Some(v) ==> v.valid() && same_value(v@, curve_value(self@, income as int))
                && v.bounded(),
            forall|i: int|
                0 <= i < self@.len() && #[trigger] self@[i].income_limit == income ==> r == Some(
                    Fraction { numer: self@[i].income_tax_amount_bp as i128, denom: RATE_SCALE as i128 },
                ),
    {
        let knots = &self.schedule;
        let mut lo: usize = 0;
        let mut hi: usize = knots.len() - 1;
        if income < knots[lo].income_limit || income > knots[hi].income_limit {
            return None;
        }
        while hi - lo > 1
            invariant
                valid_amount_knots(self@),
                knots@ == self@,
                lo < hi < self@.len(),
                self@[lo as int].income_limit <= income <= self@[hi as int].income_limit,
            decreases hi - lo,
        {
            let mid = lo + (hi - lo) / 2;
            if knots[mid].income_limit == income {
                proof {
                    lemma_curve_value_at_knot(self@, mid as int);
                }
                return Some(Fraction { numer: knots[mid].income_tax_amount_bp as i128, denom: RATE_SCALE as i128 });
            }
            if knots[mid].income_limit < income {
                lo = mid;
            } else {
                hi = mid;
            }
        }
        assert(hi == lo + 1);
        if knots[lo].income_limit == income {
            proof {
                lemma_curve_value_at_knot(self@, lo as int);
            }
            return Some(Fraction { numer: knots[lo].income_tax_amount_bp as i128, denom: RATE_SCALE as i128 });
        }
        if knots[hi].income_limit == income {
            proof {
                lemma_curve_value_at_knot(self@, hi as int);
            }
            return Some(Fraction { numer: knots[hi].income_tax_amount_bp as i128, denom: RATE_SCALE as i128 });
        }
        proof {
            lemma_curve_value_on_segment(self@, income as int, lo as int);
        }
        let segment = LinearPiecewiseSegment { left_point: knots[lo], right_point: knots[hi] };
        let v = segment.value_within(income);
        proof {
            lemma_line_value_bounded(knots@[lo as int], knots@[hi as int], income as int);
        }
        Some(v)
    }
    /// Every point at which this curve and `other_schedule` break even, as
    /// found by sweeping both curves' segments from left to right (see
    /// `sweep_points`). Parallel or coincident segments give no point, and
    /// the origin is left out.
    pub fn compute_breakeven_taxes(&self, other_schedule: &Self) -> (r: Vec<IncomeTaxPoint>)
        requires
            knots_bounded(self@),
            knots_bounded(other_schedule@),
        ensures
            points_view(r@) == sweep_points(self@, other_schedule@, 0, 0),
            forall|k: int| 0 <= k < r@.len() ==> (#[trigger] r@[k]).bounded(),
            forall|k: int|
                0 <= k < r@.len() ==> on_curve((#[trigger] r@[k])@, self@) && on_curve(
                    r@[k]@,
                    other_schedule@,
                ) && !(r@[k].income_numer == 0 && r@[k].income_tax_amount_numer == 0),
            increasing_limits(self@) && increasing_limits(other_schedule@) ==> forall|s: int, t: int|
                0 <= s < t < r@.len() ==> (#[trigger] r@[s]).income_numer * r@[t].denom
                    <= (#[trigger] r@[t]).income_numer * r@[s].denom,
    {
        let a = &self.schedule;
        let b = &other_schedule.schedule;
        let mut i: usize = 0;
        let mut j: usize = 0;
        let mut breakeven_points: Vec<IncomeTaxPoint> = Vec::new();
        while i + 1 < a.len() && j + 1 < b.len()
            invariant
                a@ == self@,
                b@ == other_schedule@,
                knots_bounded(a@),
                knots_bounded(b@),
                i < usize::MAX,
                j < usize::MAX,
                points_view(breakeven_points@) + sweep_points(a@, b@, i as int, j as int)
                    == sweep_points(a@, b@, 0, 0),
                forall|k: int|
                    0 <= k < breakeven_points@.len() ==> (#[trigger] breakeven_points@[k]).bounded(),
            decreases a@.len() - i + b@.len() - j,
        {
            let l1 = a[i].income_limit;
            let r1 = a[i + 1].income_limit;
            let l2 = b[j].income_limit;
            let r2 = b[j + 1].income_limit;
            let ghost before = breakeven_points@;
            if r1 >= l2 && r2 >= l1 {
                let own = LinearPiecewiseSegment { left_point: a[i], right_point: a[i + 1] };
                let candidate = LinearPiecewiseSegment { left_point: b[j], right_point: b[j + 1] };
                match own.compute_intersection(&candidate) {
                    Some(p) => {
                        if !(p.income_numer == 0 && p.income_tax_amount_numer == 0) {
                            breakeven_points.push(p);
                        }
                    },
                    None => {},
                }
            }
            proof {
                let rest = if r1 < r2 {
                    sweep_points(a@, b@, i + 1, j as int)
                } else {
                    sweep_points(a@, b@, i as int, j + 1)
                };
                assert(points_view(breakeven_points@) + rest =~= points_view(before) + sweep_points(
                    a@,
                    b@,
                    i as int,
                    j as int,
                ));
            }
            if r1 < r2 {
                i += 1;
            } else {
                j += 1;
            }
        }
        proof {
            lemma_sweep_points_on_both_curves(a@, b@, 0, 0);
            if increasing_limits(a@) && increasing_limits(b@) {
                lemma_sweep_points_in_income_order(a@, b@, 0, 0);
            }
            assert forall|k: int| 0 <= k < breakeven_points@.len() implies (
            #[trigger] breakeven_points@[k])@ == sweep_points(a@, b@, 0, 0)[k] by {
                assert(points_view(breakeven_points@)[k] == breakeven_points@[k]@);
            }
            assert(points_view(breakeven_points@) =~= points_view(breakeven_points@) + sweep_points(
                a@,
                b@,
                i as int,
                j as int,
            ));
        }
        breakeven_points
    }
    /// The tax owed at each income `start, start + step, ...` up to `stop`,
    /// failing as `compute_income_taxes` does.
    pub fn compute_income_taxes_in_range(&self, income_start: i32, income_stop: i32, income_step: i32) -> (r: Result<Vec<Fraction>, TaxError>)
        requires
            valid_amount_knots(self@),
            income_step > 0,
        ensures
            ({
                let n = range_count(income_start as int, income_stop as int, income_step as int);
                &&& n > 0 && income_start + (n - 1) * income_step > self@.last().income_limit ==> r
                    == Err::<Vec<Fraction>, TaxError>(TaxError::IncomeOutOfBounds)
                &&& n > 0 && income_start + (n - 1) * income_step <= self@.last().income_limit
                    && income_start < 0 ==> r == Err::<Vec<Fraction>, TaxError>(
                    TaxError::NegativeIncome(income_start),
                )
                &&& n == 0 || (income_start >= 0 && income_start + (n - 1) * income_step
                    <= self@.last().income_limit) ==> (r matches Ok(v) && v@.len() == n
                    && forall|k: int|
                    0 <= k < n ==> (#[trigger] v@[k])@ == curve_value(
                        self@,
                        income_start + k * income_step,
                    ) && v@[k].valid())
            }),
    {
        let incomes_to_compute = generate_range(income_start, income_stop, income_step);
        proof {
            let n = incomes_to_compute@.len() as int;
            assert(sorted(incomes_to_compute@)) by {
                assert forall|i: int, j: int| 0 <= i <= j < n implies incomes_to_compute@[i]
                    <= incomes_to_compute@[j] by {
                    assert(incomes_to_compute@[i] == income_start + i * income_step);
                    assert(incomes_to_compute@[j] == income_start + j * income_step);
                    assert(i * income_step <= j * income_step) by (nonlinear_arith)
                        requires
                            i <= j,
                            income_step > 0,
                    ;
                }
            }
            if n > 0 {
                assert(incomes_to_compute@[0] == income_start);
                assert(incomes_to_compute@[n - 1] == income_start + (n - 1) * income_step);
            }
        }
        self.compute_income_taxes(incomes_to_compute.as_slice())
    }
}

} // verus!
