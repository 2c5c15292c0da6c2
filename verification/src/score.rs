//! Per-request satisfaction score, modelled as an exact rational number.
//!
//! The score of a rectangle `r` answering a request with target area `t` is
//! `0` when `r` does not contain the request's point, and otherwise
//! `1 - (1 - min(a,t)/max(a,t))^2` where `a` is the rectangle's area: a value
//! in `(0, 1]` that is `1` exactly when the areas match and decays
//! super-linearly as they diverge. Writing `m = min(a,t)`, `M = max(a,t)`,
//! the score equals the rational `m*(2*M - m) / M^2`, which this module keeps
//! as an exact numerator/denominator pair; comparisons cross-multiply, so no
//! rounding ever enters the model.

use vstd::prelude::*;
use crate::geom::Rect;
use crate::geom::Request;

verus! {

/// The smaller of the answering rectangle's area and the requested area.
pub open spec fn area_lo(req: Request, r: Rect) -> int {
    if r.spec_area() <= req.area { r.spec_area() } else { req.area as int }
}

/// The larger of the answering rectangle's area and the requested area.
pub open spec fn area_hi(req: Request, r: Rect) -> int {
    if r.spec_area() <= req.area { req.area as int } else { r.spec_area() }
}

/// Numerator of the exact score `m*(2*M - m) / M^2`; zero exactly when the
/// rectangle misses the request's point.
pub open spec fn score_num(req: Request, r: Rect) -> int {
    if r.spec_contains(req.row, req.col) {
        area_lo(req, r) * (2 * area_hi(req, r) - area_lo(req, r))
    } else {
        0
    }
}

/// Denominator of the exact score: `M^2`, always positive.
pub open spec fn score_den(req: Request, r: Rect) -> int {
    area_hi(req, r) * area_hi(req, r)
}

/// `x` scores strictly less than `y` on request `req`.
pub open spec fn score_lt(req: Request, x: Rect, y: Rect) -> bool {
    score_num(req, x) * score_den(req, y) < score_num(req, y) * score_den(req, x)
}

/// Exact score numerator as a machine integer; products of two areas always
/// fit in `u128`.
pub fn score_num_exec(req: &Request, r: &Rect) -> (n: u128)
    requires
        req.valid(),
        r.wf(),
    ensures
        n == score_num(*req, *r),
{
    if !r.contains(req.row, req.col) {
        return 0;
    }
    let a = r.area();
    let t = req.area;
    let m: u128 = if a <= t { a as u128 } else { t as u128 };
    let hi: u128 = if a <= t { t as u128 } else { a as u128 };
    proof {
        let mi = area_lo(*req, *r);
        let ma = area_hi(*req, *r);
        assert(mi * (2 * ma - mi) <= ma * ma && 1 <= mi * (2 * ma - mi)) by (nonlinear_arith)
            requires
                1 <= mi <= ma,
        ;
        assert(ma * ma < 0x100000000000000000000000000000000) by (nonlinear_arith)
            requires
                0 < ma < 0x10000000000000000,
        ;
    }
    m * (2 * hi - m)
}

/// Exact score denominator as a machine integer.
pub fn score_den_exec(req: &Request, r: &Rect) -> (d: u128)
    requires
        req.valid(),
        r.wf(),
    ensures
        d == score_den(*req, *r),
{
    let a = r.area();
    let t = req.area;
    let hi: u128 = if a <= t { t as u128 } else { a as u128 };
    proof {
        let ma = area_hi(*req, *r);
        assert(ma * ma < 0x100000000000000000000000000000000) by (nonlinear_arith)
            requires
                0 < ma < 0x10000000000000000,
        ;
    }
    hi * hi
}

/// A rectangle that misses the request's point scores exactly zero, and a
/// rectangle that contains it scores strictly more than zero.
pub proof fn lemma_score_zero_iff_miss(req: Request, r: Rect)
    requires
        req.valid(),
        r.wf(),
    ensures
        score_num(req, r) == 0 <==> !r.spec_contains(req.row, req.col),
        score_den(req, r) > 0,
{
    let mi = area_lo(req, r);
    let ma = area_hi(req, r);
    crate::geom::lemma_area_bounds(r);
    assert(1 <= mi <= ma);
    assert(1 <= mi * (2 * ma - mi) && 0 < ma * ma) by (nonlinear_arith)
        requires
            1 <= mi <= ma,
    ;
}

/// A rectangle that contains the request's point and matches the requested
/// area exactly earns the full score of one: numerator equals denominator.
pub proof fn lemma_score_exact_match(req: Request, r: Rect)
    requires
        req.valid(),
        r.wf(),
        r.spec_contains(req.row, req.col),
        r.spec_area() == req.area,
    ensures
        score_num(req, r) == score_den(req, r),
{
}

/// Every score lies in `[0, 1]`: the numerator never exceeds the denominator.
pub proof fn lemma_score_at_most_one(req: Request, r: Rect)
    requires
        req.valid(),
        r.wf(),
    ensures
        0 <= score_num(req, r) <= score_den(req, r),
{
    let mi = area_lo(req, r);
    let ma = area_hi(req, r);
    crate::geom::lemma_area_bounds(r);
    assert(0 <= mi * (2 * ma - mi) <= ma * ma) by (nonlinear_arith)
        requires
            1 <= mi <= ma,
    ;
}

/// With containment fixed, the score never rises as the answering area moves
/// farther from the target on the shrink side: among two areas that are both
/// at most the target, the smaller one scores no more than the larger.
pub proof fn lemma_score_monotonic_shrink_side(req: Request, x: Rect, y: Rect)
    requires
        req.valid(),
        x.wf(),
        y.wf(),
        x.spec_contains(req.row, req.col),
        y.spec_contains(req.row, req.col),
        x.spec_area() <= y.spec_area() <= req.area,
    ensures
        !score_lt(req, y, x),
{
    crate::geom::lemma_area_bounds(x);
    crate::geom::lemma_area_bounds(y);
    let ax = x.spec_area();
    let ay = y.spec_area();
    let t = req.area as int;
    assert(ax * (2 * t - ax) * (t * t) <= ay * (2 * t - ay) * (t * t)) by (nonlinear_arith)
        requires
            1 <= ax <= ay <= t,
    ;
}

/// With containment fixed, the score never rises as the answering area moves
/// farther from the target on the grow side: among two areas that are both at
/// least the target, the larger one scores no more than the smaller.
pub proof fn lemma_score_monotonic_grow_side(req: Request, x: Rect, y: Rect)
    requires
        req.valid(),
        x.wf(),
        y.wf(),
        x.spec_contains(req.row, req.col),
        y.spec_contains(req.row, req.col),
        req.area <= y.spec_area() <= x.spec_area(),
    ensures
        !score_lt(req, y, x),
{
    crate::geom::lemma_area_bounds(x);
    crate::geom::lemma_area_bounds(y);
    let ax = x.spec_area();
    let ay = y.spec_area();
    let t = req.area as int;
    assert(t * (2 * ax - t) * (ay * ay) <= t * (2 * ay - t) * (ax * ax)) by (nonlinear_arith)
        requires
            1 <= t <= ay <= ax,
    ;
}

/// Between two rectangles that both contain the request's point, score order
/// is decided by the ratio `m/M` alone: cross-multiplying the ratios decides
/// the cross-multiplied scores. This is what lets the search compare scores
/// without ever forming the quadratic numerators.
pub proof fn lemma_ratio_orders_score(req: Request, x: Rect, y: Rect)
    requires
        req.valid(),
        x.wf(),
        y.wf(),
        x.spec_contains(req.row, req.col),
        y.spec_contains(req.row, req.col),
    ensures
        score_lt(req, x, y) <==> area_lo(req, x) * area_hi(req, y) < area_lo(req, y) * area_hi(req, x),
{
    crate::geom::lemma_area_bounds(x);
    crate::geom::lemma_area_bounds(y);
    let mx = area_lo(req, x);
    let hx = area_hi(req, x);
    let my = area_lo(req, y);
    let hy = area_hi(req, y);
    // Write a = mx*hy and b = my*hx over the common c = hx*hy: both scores
    // become the same increasing map s |-> s*(2c - s) of [1, c].
    let a = mx * hy;
    let b = my * hx;
    let c = hx * hy;
    assert(1 <= a <= c && 1 <= b <= c) by (nonlinear_arith)
        requires
            a == mx * hy && b == my * hx && c == hx * hy && 1 <= mx <= hx && 1 <= my <= hy,
    ;
    assert(mx * (2 * hx - mx) * (hy * hy) == a * (2 * c - a)) by (nonlinear_arith)
        requires
            a == mx * hy && c == hx * hy,
    ;
    assert(my * (2 * hy - my) * (hx * hx) == b * (2 * c - b)) by (nonlinear_arith)
        requires
            b == my * hx && c == hx * hy,
    ;
    assert(a * (2 * c - a) < b * (2 * c - b) <==> a < b) by (nonlinear_arith)
        requires
            1 <= a <= c && 1 <= b <= c,
    ;
}

} // verus!
