//! The simulated-annealing search over rectangle placements.
//!
//! The optimizer keeps one rectangle per request, pairwise disjoint at all
//! times. Each iteration draws a rectangle index, perturbs one boundary of
//! that rectangle by a single unit, rejects candidates that leave the grid or
//! overlap another rectangle, and otherwise commits the candidate with the
//! Metropolis probability `exp(delta / temperature)` (one whenever the score
//! does not drop), provided the candidate still covers its request's point
//! and does not exceed the requested area. The temperature decays
//! geometrically every iteration.
//!
//! All state is held in machine integers. Scores are compared through the
//! exact rational model of `crate::score`; the acceptance probability and the
//! temperature are kept in Q32 fixed point (the value scaled by `2^32`), and
//! `exp` is approximated by a truncated series for the fractional part times
//! a repeated factor of `1/e` for the integer part. Every step is a pure
//! function of the state, stated by `spec_step`, so runs are reproducible.

use vstd::prelude::*;
use vstd::arithmetic::div_mod::lemma_fundamental_div_mod;
use vstd::arithmetic::div_mod::lemma_mod_bound;
use crate::geom::MAP_SIZE;
use crate::geom::Rect;
use crate::geom::Request;
use crate::geom::lemma_intersects_symmetric;
use crate::score::area_hi;
use crate::score::area_lo;
use crate::score::score_lt;
use crate::score::lemma_ratio_orders_score;
use crate::rng::Rng;
use crate::rng::spec_rng_next;

verus! {

/// One, in Q32 fixed point.
pub const Q32_ONE: u64 = 0x1_0000_0000;

/// One, in Q64 fixed point.
pub const Q64_ONE: u128 = 0x1_0000_0000_0000_0000;

/// Initial temperature (100.0) in Q32 fixed point.
pub const TEMP_INIT_Q32: u64 = 100 * 0x1_0000_0000;

/// Geometric cooling rate 0.99 as the fraction 99/100.
pub const COOLING_NUM: u64 = 99;

/// See `COOLING_NUM`.
pub const COOLING_DEN: u64 = 100;

/// `1/e` in Q32 fixed point, rounded to the nearest integer.
pub const INV_E_Q32: u128 = 1580030169;

/// Once `-delta / temperature` reaches this many whole units, the acceptance
/// probability (below `e^-46`, under one part in `2^66`) is taken as zero.
pub const METROPOLIS_CUTOFF: u128 = 46;

/// The squared score gap of a rectangle against its request, in Q64 fixed
/// point. The score is `1 - gap^2` with `gap = (M - m)/M` over the paired
/// areas `m <= M`, so a smaller squared gap means a better score; a rectangle
/// that misses the request's point counts as the full gap of one.
pub open spec fn gap_sq_q64(req: Request, r: Rect) -> int {
    if r.spec_contains(req.row, req.col) {
        let g = ((area_hi(req, r) - area_lo(req, r)) * (Q32_ONE as int)) / area_hi(req, r);
        g * g
    } else {
        Q64_ONE as int
    }
}

/// Computes `gap_sq_q64` exactly in machine integers.
pub fn gap_sq(req: &Request, r: &Rect) -> (g2: u128)
    requires
        req.valid(),
        r.wf(),
    ensures
        g2 == gap_sq_q64(*req, *r),
        g2 <= Q64_ONE,
{
    if !r.contains(req.row, req.col) {
        return Q64_ONE;
    }
    let a = r.area();
    let t = req.area;
    let lo: u128 = if a <= t { a as u128 } else { t as u128 };
    let hi: u128 = if a <= t { t as u128 } else { a as u128 };
    proof {
        assert(lo == area_lo(*req, *r) && hi == area_hi(*req, *r));
        assert(((hi - lo) * (Q32_ONE as int)) / (hi as int) < Q32_ONE) by (nonlinear_arith)
            requires
                1 <= lo <= hi,
        ;
    }
    let g: u128 = ((hi - lo) * (Q32_ONE as u128)) / hi;
    proof {
        assert(g * g <= Q64_ONE) by (nonlinear_arith)
            requires
                0 <= g < Q32_ONE,
        ;
    }
    g * g
}

/// `k` applications of the Q32 factor `1/e` to `p`, rounding down each time.
pub open spec fn spec_pow_inv_e(p: int, k: int) -> int
    decreases k,
{
    if k <= 0 {
        p
    } else {
        spec_pow_inv_e((p * (INV_E_Q32 as int)) / (Q32_ONE as int), k - 1)
    }
}

/// The Metropolis acceptance probability in Q32 fixed point, as a function
/// of the current and candidate squared score gaps and the temperature.
/// When the candidate's gap is no larger (its score no smaller), the
/// probability is one; otherwise it approximates
/// `exp(-(gap_new^2 - gap_cur^2) / temperature)` by a truncated series on the
/// fractional part and `1/e` factors for the integer part.
pub open spec fn spec_accept_p(gc_sq: int, gn_sq: int, temp: u64) -> int {
    if gn_sq <= gc_sq {
        Q32_ONE as int
    } else {
        let y = (gn_sq - gc_sq) / (temp as int);
        let k = y / (Q32_ONE as int);
        if k >= METROPOLIS_CUTOFF as int {
            0
        } else {
            let f = y % (Q32_ONE as int);
            let t2 = (f * f) / (2 * (Q32_ONE as int));
            let t3 = ((f * f) * f) / (6 * (Q64_ONE as int));
            let denom = (Q32_ONE as int) + f + t2 + t3;
            spec_pow_inv_e((Q64_ONE as int) / denom, k)
        }
    }
}

/// Computes `spec_accept_p` exactly in machine integers.
pub fn accept_p(gc_sq: u128, gn_sq: u128, temp: u64) -> (p: u64)
    requires
        gc_sq <= Q64_ONE,
        gn_sq <= Q64_ONE,
        1 <= temp,
    ensures
        p as int == spec_accept_p(gc_sq as int, gn_sq as int, temp),
        p <= Q32_ONE,
{
    if gn_sq <= gc_sq {
        return Q32_ONE;
    }
    let d: u128 = gn_sq - gc_sq;
    let y: u128 = d / (temp as u128);
    let k: u128 = y / (Q32_ONE as u128);
    if k >= METROPOLIS_CUTOFF {
        return 0;
    }
    let f: u128 = y % (Q32_ONE as u128);
    proof {
        lemma_mod_bound(y as int, Q32_ONE as int);
        assert(f * f < Q64_ONE && (f * f) * f < Q64_ONE * (Q32_ONE as int)) by (nonlinear_arith)
            requires
                0 <= f < Q32_ONE,
        ;
    }
    let t2: u128 = (f * f) / (2 * (Q32_ONE as u128));
    let t3: u128 = ((f * f) * f) / (6 * Q64_ONE);
    let denom: u128 = (Q32_ONE as u128) + f + t2 + t3;
    let mut p: u128 = Q64_ONE / denom;
    proof {
        lemma_div_is_ordered_by_denominator_pos(Q64_ONE as int, Q32_ONE as int, denom as int);
        assert(p <= Q32_ONE);
    }
    let ghost p0 = p;
    let mut i: u128 = 0;
    while i < k
        invariant
            i <= k < METROPOLIS_CUTOFF,
            p <= Q32_ONE,
            spec_pow_inv_e(p as int, (k - i) as int) == spec_pow_inv_e(p0 as int, k as int),
        decreases k - i,
    {
        proof {
            assert((p * INV_E_Q32) / (Q32_ONE as int) <= p) by (nonlinear_arith)
                requires
                    p >= 0,
            ;
        }
        p = (p * INV_E_Q32) / (Q32_ONE as u128);
        i = i + 1;
    }
    p as u64
}

/// `x/z <= x/y` for positive denominators `y <= z` and `x >= 0`.
proof fn lemma_div_is_ordered_by_denominator_pos(x: int, y: int, z: int)
    requires
        0 <= x,
        0 < y <= z,
    ensures
        x / z <= x / y,
{
    lemma_fundamental_div_mod(x, y);
    lemma_mod_bound(x, y);
    lemma_fundamental_div_mod(x, z);
    lemma_mod_bound(x, z);
    let qy = x / y;
    let qz = x / z;
    if qz > qy {
        assert(false) by (nonlinear_arith)
            requires
                0 <= x,
                0 < y <= z,
                x == y * qy + x % y,
                0 <= x % y < y,
                x == z * qz + x % z,
                0 <= x % z < z,
                qz >= qy + 1,
        ;
    }
}

/// Geometric cooling with a floor of one Q32 unit, so the temperature stays
/// strictly positive and the acceptance rule never divides by zero.
pub open spec fn spec_cool(temp: u64) -> u64 {
    let t = (((temp * COOLING_NUM) / (COOLING_DEN as int)) as u64);
    if t >= 1 {
        t
    } else {
        1u64
    }
}

/// Computes `spec_cool` exactly in machine integers.
pub fn cool(temp: u64) -> (t: u64)
    requires
        temp <= TEMP_INIT_Q32,
    ensures
        t == spec_cool(temp),
        1 <= t,
        temp >= 1 ==> t <= temp,
{
    let t = (temp * COOLING_NUM) / COOLING_DEN;
    if t >= 1 {
        t
    } else {
        1
    }
}

/// The iteration counter saturates instead of wrapping; it is diagnostic
/// output only.
pub open spec fn spec_bump(i: u64) -> u64 {
    if i == u64::MAX {
        i
    } else {
        (i + 1) as u64
    }
}

/// The minimal one-by-one rectangle anchored at a request's point: the
/// initial answer to every request.
pub open spec fn seed_rect(q: Request) -> Rect {
    Rect { row0: q.row, col0: q.col, row1: (q.row + 1) as u64, col1: (q.col + 1) as u64 }
}

/// No two distinct rectangles of the sequence overlap.
pub open spec fn pairwise_disjoint(rects: Seq<Rect>) -> bool {
    forall|i: int, j: int|
        0 <= i < rects.len() && 0 <= j < rects.len() && i != j
            ==> !(#[trigger] rects[i]).spec_intersects(#[trigger] rects[j])
}

/// The grid point a request asks to be covered.
pub open spec fn point_of(q: Request) -> (u64, u64) {
    (q.row, q.col)
}

/// No two requests ask for the same point; this is what makes the initial
/// one-by-one rectangles disjoint.
pub open spec fn distinct_points(reqs: Seq<Request>) -> bool {
    forall|i: int, j: int|
        0 <= i < reqs.len() && 0 <= j < reqs.len() && i != j
            ==> point_of(#[trigger] reqs[i]) != point_of(#[trigger] reqs[j])
}

/// The mathematical state of the search: the view of `Annealer`.
#[verifier::ext_equal]
pub ghost struct Model {
    pub requests: Seq<Request>,
    pub rects: Seq<Rect>,
    pub rng: u64,
    pub temp: u64,
    pub iterations: u64,
}

impl Model {
    /// The search invariant: one well-formed rectangle per request, each
    /// covering its request's point, none larger than its requested area,
    /// pairwise disjoint, with a live temperature.
    pub open spec fn wf(self) -> bool {
        &&& self.requests.len() <= usize::MAX
        &&& self.rects.len() == self.requests.len()
        &&& forall|i: int| 0 <= i < self.requests.len() ==> (#[trigger] self.requests[i]).valid()
        &&& forall|i: int| 0 <= i < self.rects.len() ==> (#[trigger] self.rects[i]).wf()
        &&& forall|i: int|
            0 <= i < self.rects.len() ==> (#[trigger] self.rects[i]).spec_contains(
                self.requests[i].row,
                self.requests[i].col,
            )
        &&& forall|i: int|
            0 <= i < self.rects.len() ==> (#[trigger] self.rects[i]).spec_area()
                <= self.requests[i].area
        &&& pairwise_disjoint(self.rects)
        &&& 1 <= self.temp <= TEMP_INIT_Q32
    }
}

/// One single-unit boundary perturbation of `r`, one of eight equally likely
/// kinds: growing one of the four edges outward, or shifting the whole box by
/// one unit in one of the four directions. `None` stands for a perturbation
/// that would leave the coordinate range (the guard an unsigned wrap-around
/// would otherwise trip downstream).
pub open spec fn spec_perturb(r: Rect, dir: u64) -> Option<Rect> {
    if dir == 0 {
        if r.row0 == 0 {
            None
        } else {
            Some(Rect { row0: (r.row0 - 1) as u64, ..r })
        }
    } else if dir == 1 {
        if r.col0 == 0 {
            None
        } else {
            Some(Rect { col0: (r.col0 - 1) as u64, ..r })
        }
    } else if dir == 2 {
        Some(Rect { row1: (r.row1 + 1) as u64, ..r })
    } else if dir == 3 {
        Some(Rect { col1: (r.col1 + 1) as u64, ..r })
    } else if dir == 4 {
        if r.row0 == 0 {
            None
        } else {
            Some(Rect { row0: (r.row0 - 1) as u64, row1: (r.row1 - 1) as u64, ..r })
        }
    } else if dir == 5 {
        if r.col0 == 0 {
            None
        } else {
            Some(Rect { col0: (r.col0 - 1) as u64, col1: (r.col1 - 1) as u64, ..r })
        }
    } else if dir == 6 {
        Some(Rect { row0: (r.row0 + 1) as u64, row1: (r.row1 + 1) as u64, ..r })
    } else {
        Some(Rect { col0: (r.col0 + 1) as u64, col1: (r.col1 + 1) as u64, ..r })
    }
}

/// A candidate may only be considered when every coordinate stays strictly
/// below `MAP_SIZE` and both projections remain non-empty.
pub open spec fn strictly_inside(r: Rect) -> bool {
    r.row0 < r.row1 < MAP_SIZE && r.col0 < r.col1 < MAP_SIZE
}

/// The mutation generator: the perturbation of `r` in direction `dir`,
/// discarded (`None`) when any resulting coordinate would fall outside
/// `[0, MAP_SIZE)` or the box would become empty.
pub open spec fn spec_propose(r: Rect, dir: u64) -> Option<Rect> {
    match spec_perturb(r, dir) {
        Some(c) => if strictly_inside(c) {
            Some(c)
        } else {
            None
        },
        None => None,
    }
}

/// Computes `spec_propose` on a well-formed rectangle.
pub fn propose(r: &Rect, dir: u64) -> (c: Option<Rect>)
    requires
        r.wf(),
        dir < 8,
    ensures
        c == spec_propose(*r, dir),
{
    let cand: Option<Rect> = if dir == 0 {
        if r.row0 == 0 {
            None
        } else {
            Some(Rect { row0: r.row0 - 1, ..*r })
        }
    } else if dir == 1 {
        if r.col0 == 0 {
            None
        } else {
            Some(Rect { col0: r.col0 - 1, ..*r })
        }
    } else if dir == 2 {
        Some(Rect { row1: r.row1 + 1, ..*r })
    } else if dir == 3 {
        Some(Rect { col1: r.col1 + 1, ..*r })
    } else if dir == 4 {
        if r.row0 == 0 {
            None
        } else {
            Some(Rect { row0: r.row0 - 1, row1: r.row1 - 1, ..*r })
        }
    } else if dir == 5 {
        if r.col0 == 0 {
            None
        } else {
            Some(Rect { col0: r.col0 - 1, col1: r.col1 - 1, ..*r })
        }
    } else if dir == 6 {
        Some(Rect { row0: r.row0 + 1, row1: r.row1 + 1, ..*r })
    } else {
        Some(Rect { col0: r.col0 + 1, col1: r.col1 + 1, ..*r })
    };
    match cand {
        None => None,
        Some(c) => {
            if c.row0 < c.row1 && c.row1 < MAP_SIZE && c.col0 < c.col1 && c.col1 < MAP_SIZE {
                Some(c)
            } else {
                None
            }
        },
    }
}

/// A proposed mutation never reaches `MAP_SIZE` with any coordinate: any
/// perturbation that would reach it is discarded instead.
pub proof fn lemma_propose_in_bounds(r: Rect, dir: u64)
    ensures
        spec_propose(r, dir) is Some ==> strictly_inside(spec_propose(r, dir)->Some_0),
        spec_propose(r, dir) is Some ==> spec_propose(r, dir)->Some_0.wf(),
{
}

/// The rectangle index a step works on: the first draw of the iteration,
/// reduced to the number of requests.
pub open spec fn spec_drawn_idx(m: Model) -> int {
    (spec_rng_next(m.rng) % (m.requests.len() as u64)) as int
}

/// The mutation kind a step tries: the second draw of the iteration, reduced
/// to the eight perturbations.
pub open spec fn spec_drawn_dir(m: Model) -> u64 {
    spec_rng_next(spec_rng_next(m.rng)) % 8
}

/// One full iteration of the acceptance engine on the abstract state: draw an
/// index, draw a mutation, reject out-of-range or overlapping candidates,
/// otherwise draw the Metropolis trial and commit when it succeeds and the
/// candidate both covers the request's point and stays within its requested
/// area. The temperature cools and the iteration counter advances whatever
/// the outcome.
pub open spec fn spec_step(m: Model) -> Model {
    if m.requests.len() == 0 {
        Model { temp: spec_cool(m.temp), iterations: spec_bump(m.iterations), ..m }
    } else {
        let r1 = spec_rng_next(m.rng);
        let idx = spec_drawn_idx(m);
        let r2 = spec_rng_next(r1);
        let dir = spec_drawn_dir(m);
        match spec_propose(m.rects[idx], dir) {
            None => Model {
                rng: r2,
                temp: spec_cool(m.temp),
                iterations: spec_bump(m.iterations),
                ..m
            },
            Some(cand) => {
                if exists|j: int|
                    0 <= j < m.rects.len() && j != idx && cand.spec_intersects(#[trigger] m.rects[j]) {
                    Model {
                        rng: r2,
                        temp: spec_cool(m.temp),
                        iterations: spec_bump(m.iterations),
                        ..m
                    }
                } else {
                    let r3 = spec_rng_next(r2);
                    let u = r3 >> 32;
                    let p = spec_accept_p(
                        gap_sq_q64(m.requests[idx], m.rects[idx]),
                        gap_sq_q64(m.requests[idx], cand),
                        m.temp,
                    );
                    let commit = (u as int) < p && cand.spec_area() <= m.requests[idx].area
                        && cand.spec_contains(m.requests[idx].row, m.requests[idx].col);
                    Model {
                        rects: if commit {
                            m.rects.update(idx, cand)
                        } else {
                            m.rects
                        },
                        rng: r3,
                        temp: spec_cool(m.temp),
                        iterations: spec_bump(m.iterations),
                        ..m
                    }
                }
            },
        }
    }
}

/// `k` iterations of `spec_step`.
pub open spec fn spec_run(m: Model, k: int) -> Model
    decreases k,
{
    if k <= 0 {
        m
    } else {
        spec_run(spec_step(m), k - 1)
    }
}

/// The search is a pure function of its state: equal states step to equal
/// states, so two runs from the same seed and input make the same sequence
/// of accept and reject decisions.
pub proof fn lemma_run_deterministic(a: Model, b: Model, k: int)
    requires
        a == b,
    ensures
        spec_run(a, k) == spec_run(b, k),
{
}

/// The annealing optimizer. The caller constructs it from the parsed
/// requests and drives it by running iterations until its own time budget
/// runs out; the final rectangles are read back from `rects`.
pub struct Annealer {
    pub requests: Vec<Request>,
    pub rects: Vec<Rect>,
    pub rng: Rng,
    pub temp: u64,
    pub iterations: u64,
}

impl View for Annealer {
    type V = Model;

    open spec fn view(&self) -> Model {
        Model {
            requests: self.requests@,
            rects: self.rects@,
            rng: self.rng.state,
            temp: self.temp,
            iterations: self.iterations,
        }
    }
}

impl Annealer {
    /// Builds the initial solution: for every request the minimal one-by-one
    /// rectangle anchored at its point, which always covers the point and
    /// never exceeds the requested area; distinct points make the seeds
    /// disjoint.
    pub fn new(requests: Vec<Request>, seed: u64) -> (a: Annealer)
        requires
            forall|i: int| 0 <= i < requests@.len() ==> (#[trigger] requests@[i]).valid(),
            distinct_points(requests@),
        ensures
            a@.wf(),
            a@.requests == requests@,
            a@.rng == seed,
            a@.temp == TEMP_INIT_Q32,
            a@.iterations == 0,
            a@.rects.len() == requests@.len(),
            forall|i: int| 0 <= i < requests@.len() ==> a@.rects[i] == seed_rect(requests@[i]),
            forall|i: int|
                0 <= i < requests@.len() ==> (#[trigger] a@.rects[i]).spec_contains(
                    requests@[i].row,
                    requests@[i].col,
                ),
    {
        let n = requests.len();
        let mut rects: Vec<Rect> = Vec::new();
        let mut i: usize = 0;
        while i < n
            invariant
                i <= n,
                n == requests@.len(),
                rects@.len() == i,
                forall|k: int| 0 <= k < requests@.len() ==> (#[trigger] requests@[k]).valid(),
                forall|k: int| 0 <= k < i ==> rects@[k] == seed_rect(requests@[k]),
            decreases n - i,
        {
            let q = requests[i];
            rects.push(Rect { row0: q.row, col0: q.col, row1: q.row + 1, col1: q.col + 1 });
            i = i + 1;
        }
        let a = Annealer {
            requests,
            rects,
            rng: Rng::new(seed),
            temp: TEMP_INIT_Q32,
            iterations: 0,
        };
        proof {
            let m = a@;
            assert forall|x: int| 0 <= x < m.rects.len() implies (#[trigger] m.rects[x]).wf()
                && m.rects[x].spec_contains(m.requests[x].row, m.requests[x].col)
                && m.rects[x].spec_area() <= m.requests[x].area by {
                assert(m.requests[x].valid());
                assert(m.rects[x] == seed_rect(m.requests[x]));
                assert(m.rects[x].spec_height() == 1 && m.rects[x].spec_width() == 1);
                assert(m.rects[x].spec_area() == 1) by (nonlinear_arith)
                    requires
                        m.rects[x].spec_height() == 1 && m.rects[x].spec_width() == 1
                            && m.rects[x].spec_area() == m.rects[x].spec_height()
                            * m.rects[x].spec_width(),
                ;
            }
            assert forall|x: int, y: int|
                0 <= x < m.rects.len() && 0 <= y < m.rects.len() && x != y implies !(
            #[trigger] m.rects[x]).spec_intersects(#[trigger] m.rects[y]) by {
                assert(point_of(m.requests[x]) != point_of(m.requests[y]));
                assert(m.rects[x] == seed_rect(m.requests[x]));
                assert(m.rects[y] == seed_rect(m.requests[y]));
            }
        }
        a
    }

    /// The number of requests, which is also the number of rectangles.
    pub fn len(&self) -> (n: usize)
        requires
            self@.wf(),
        ensures
            n == self@.requests.len(),
    {
        self.requests.len()
    }

    /// One iteration of the acceptance engine. The new state is the pure
    /// function `spec_step` of the old one, and the search invariant is
    /// preserved: in particular the rectangles stay pairwise disjoint, each
    /// keeps covering its request's point, and none exceeds its requested
    /// area.
    pub fn step(&mut self)
        requires
            old(self)@.wf(),
        ensures
            final(self)@ == spec_step(old(self)@),
            final(self)@.wf(),
            final(self)@.requests == old(self)@.requests,
            final(self)@.rects.len() == old(self)@.rects.len(),
            pairwise_disjoint(final(self)@.rects),
    {
        let ghost m0 = self@;
        let n = self.requests.len();
        if n == 0 {
            self.temp = cool(self.temp);
            self.iterations = bump(self.iterations);
            proof {
                assert(self@ =~= spec_step(m0));
            }
            return;
        }
        let r1 = self.rng.next();
        let idx = (r1 % (n as u64)) as usize;
        proof {
            assert(r1 % (n as u64) < n as u64);
            assert(idx as int == (r1 % (m0.requests.len() as u64)) as int);
        }
        let r2 = self.rng.next();
        let dir = r2 % 8;
        let cur = self.rects[idx];
        let cand_opt = propose(&cur, dir);
        let cand = match cand_opt {
            None => {
                self.temp = cool(self.temp);
                self.iterations = bump(self.iterations);
                proof {
                    assert(self@ =~= spec_step(m0));
                }
                return;
            },
            Some(c) => c,
        };
        // The candidate is rejected when it overlaps any other rectangle of
        // the current solution.
        let mut j: usize = 0;
        let mut overlap = false;
        while j < n
            invariant
                j <= n,
                n == self.rects@.len(),
                idx < n,
                cand == (match spec_propose(self.rects@[idx as int], dir) {
                    Some(c) => c,
                    None => cand,
                }),
                overlap == exists|t: int|
                    0 <= t < j && t != idx as int && cand.spec_intersects(#[trigger] self.rects@[t]),
            decreases n - j,
        {
            if j != idx {
                if cand.intersects(&self.rects[j]) {
                    overlap = true;
                }
            }
            j = j + 1;
        }
        if overlap {
            self.temp = cool(self.temp);
            self.iterations = bump(self.iterations);
            proof {
                assert(self@ =~= spec_step(m0));
            }
            return;
        }
        let r3 = self.rng.next();
        let u = r3 >> 32;
        let req = self.requests[idx];
        let gc = gap_sq(&req, &cur);
        let gn = gap_sq(&req, &cand);
        let p = accept_p(gc, gn, self.temp);
        proof {
            assert(u < Q32_ONE) by (bit_vector)
                requires
                    u == r3 >> 32u64,
            ;
        }
        let commit = u < p && cand.area() <= req.area && cand.contains(req.row, req.col);
        if commit {
            self.rects[idx] = cand;
        }
        self.temp = cool(self.temp);
        self.iterations = bump(self.iterations);
        proof {
            let m1 = self@;
            assert(m1.rects.len() == m0.rects.len());
            // The replaced rectangle keeps every conjunct of the invariant;
            // disjointness against the others is exactly what the scan above
            // established, in both orientations.
            assert forall|x: int, y: int|
                0 <= x < m1.rects.len() && 0 <= y < m1.rects.len() && x != y implies !(
            #[trigger] m1.rects[x]).spec_intersects(#[trigger] m1.rects[y]) by {
                if commit {
                    if x == idx as int {
                        assert(!cand.spec_intersects(m0.rects[y]));
                    } else if y == idx as int {
                        assert(!cand.spec_intersects(m0.rects[x]));
                        lemma_intersects_symmetric(m1.rects[x], cand);
                    } else {
                        assert(!m0.rects[x].spec_intersects(m0.rects[y]));
                    }
                } else {
                    assert(!m0.rects[x].spec_intersects(m0.rects[y]));
                }
            }
            assert(m1.wf());
            assert(self@ =~= spec_step(m0));
        }
    }

    /// Runs `iters` iterations: the state becomes `spec_run` of the old one,
    /// so the whole pass is as reproducible as a single step, and the search
    /// invariant holds at every iteration boundary.
    pub fn run(&mut self, iters: u64)
        requires
            old(self)@.wf(),
        ensures
            final(self)@ == spec_run(old(self)@, iters as int),
            final(self)@.wf(),
            final(self)@.requests == old(self)@.requests,
            final(self)@.rects.len() == old(self)@.rects.len(),
    {
        let ghost m0 = self@;
        let mut i: u64 = 0;
        while i < iters
            invariant
                i <= iters,
                self@.wf(),
                self@.requests == m0.requests,
                self@.rects.len() == m0.rects.len(),
                spec_run(self@, (iters - i) as int) == spec_run(m0, iters as int),
            decreases iters - i,
        {
            proof {
                assert(spec_run(self@, (iters - i) as int) == spec_run(
                    spec_step(self@),
                    (iters - i - 1) as int,
                ));
            }
            self.step();
            i = i + 1;
        }
    }
}

/// Saturating increment of the iteration counter.
fn bump(i: u64) -> (r: u64)
    ensures
        r == spec_bump(i),
{
    if i == u64::MAX {
        i
    } else {
        i + 1
    }
}

/// The Metropolis rule never rejects a candidate whose score is at least the
/// current one: when the candidate's exact score does not drop, the
/// acceptance probability is the full one. The proof connects the exact
/// rational score order to the fixed-point gap order the engine computes
/// with: a score at least as high means a ratio gap no larger, and the
/// floored Q32 gaps preserve that order.
pub proof fn lemma_non_worsening_always_accepted(req: Request, cur: Rect, cand: Rect, temp: u64)
    requires
        req.valid(),
        cur.wf(),
        cand.wf(),
        !score_lt(req, cand, cur),
    ensures
        spec_accept_p(gap_sq_q64(req, cur), gap_sq_q64(req, cand), temp) == Q32_ONE,
{
    let gc = gap_sq_q64(req, cur);
    let gn = gap_sq_q64(req, cand);
    if !cand.spec_contains(req.row, req.col) {
        if cur.spec_contains(req.row, req.col) {
            // A containing rectangle scores strictly above a missing one,
            // contradicting the hypothesis.
            crate::score::lemma_score_zero_iff_miss(req, cur);
            crate::score::lemma_score_zero_iff_miss(req, cand);
            let nc = crate::score::score_num(req, cur);
            let dc = crate::score::score_den(req, cur);
            let dn = crate::score::score_den(req, cand);
            assert(0 * dc < nc * dn) by (nonlinear_arith)
                requires
                    nc > 0 && dn > 0 && dc > 0,
            ;
            assert(false);
        } else {
            assert(gn == gc);
        }
    } else {
        if !cur.spec_contains(req.row, req.col) {
            // The candidate's gap is at most one, the full gap of a miss.
            let mn = area_lo(req, cand);
            let hn = area_hi(req, cand);
            crate::geom::lemma_area_bounds(cand);
            lemma_gap_below_one(mn, hn);
            assert(gn <= gc);
        } else {
            // Both contain the point: a score at least as high means a cross-
            // multiplied ratio at least as high, hence a rational gap no
            // larger, hence a floored Q32 gap no larger.
            lemma_ratio_orders_score(req, cand, cur);
            let mc = area_lo(req, cur);
            let hc = area_hi(req, cur);
            let mn = area_lo(req, cand);
            let hn = area_hi(req, cand);
            crate::geom::lemma_area_bounds(cur);
            crate::geom::lemma_area_bounds(cand);
            assert(mc * hn <= mn * hc);
            assert((hn - mn) * hc <= (hc - mc) * hn) by (nonlinear_arith)
                requires
                    mc * hn <= mn * hc,
            ;
            assert((hn - mn) * (Q32_ONE as int) * hc <= (hc - mc) * (Q32_ONE as int) * hn)
                by (nonlinear_arith)
                requires
                    (hn - mn) * hc <= (hc - mc) * hn,
            ;
            lemma_div_cross_ordered(
                (hn - mn) * (Q32_ONE as int),
                hn,
                (hc - mc) * (Q32_ONE as int),
                hc,
            );
            let a = ((hn - mn) * (Q32_ONE as int)) / hn;
            let b = ((hc - mc) * (Q32_ONE as int)) / hc;
            assert(a * a <= b * b) by (nonlinear_arith)
                requires
                    0 <= a <= b,
            ;
            assert(gn <= gc);
        }
    }
}

/// At the level of one whole step: when the drawn mutation yields a
/// candidate that overlaps no other rectangle, covers its request's point,
/// stays within the requested area, and does not lower the exact score, the
/// step always commits it — the Metropolis trial cannot fail, whatever the
/// temperature and whatever the third draw returns.
pub proof fn lemma_step_commits_non_worsening(m: Model, cand: Rect)
    requires
        m.wf(),
        m.requests.len() > 0,
        spec_propose(m.rects[spec_drawn_idx(m)], spec_drawn_dir(m)) == Some(cand),
        forall|j: int|
            0 <= j < m.rects.len() && j != spec_drawn_idx(m)
                ==> !cand.spec_intersects(#[trigger] m.rects[j]),
        cand.spec_contains(m.requests[spec_drawn_idx(m)].row, m.requests[spec_drawn_idx(m)].col),
        cand.spec_area() <= m.requests[spec_drawn_idx(m)].area,
        !score_lt(m.requests[spec_drawn_idx(m)], cand, m.rects[spec_drawn_idx(m)]),
    ensures
        spec_step(m).rects == m.rects.update(spec_drawn_idx(m), cand),
{
    let idx = spec_drawn_idx(m);
    let req = m.requests[idx];
    let cur = m.rects[idx];
    assert(0 < m.requests.len() as u64);
    assert(0 <= idx < m.rects.len());
    lemma_propose_in_bounds(cur, spec_drawn_dir(m));
    lemma_non_worsening_always_accepted(req, cur, cand, m.temp);
    let r3 = spec_rng_next(spec_rng_next(spec_rng_next(m.rng)));
    let u = r3 >> 32;
    assert(u < Q32_ONE) by (bit_vector)
        requires
            u == r3 >> 32u64,
    ;
    assert(!(exists|j: int|
        0 <= j < m.rects.len() && j != idx && cand.spec_intersects(#[trigger] m.rects[j])));
}

/// The rational gap `(h - m)/h` of a containing rectangle stays below one in
/// Q32 fixed point.
proof fn lemma_gap_below_one(m: int, h: int)
    requires
        1 <= m <= h,
    ensures
        0 <= ((h - m) * (Q32_ONE as int)) / h,
        (((h - m) * (Q32_ONE as int)) / h) * (((h - m) * (Q32_ONE as int)) / h) <= Q64_ONE as int,
{
    assert(0 <= ((h - m) * (Q32_ONE as int)) / h < Q32_ONE as int) by (nonlinear_arith)
        requires
            1 <= m <= h,
    ;
    let g = ((h - m) * (Q32_ONE as int)) / h;
    assert(g * g <= Q64_ONE as int) by (nonlinear_arith)
        requires
            0 <= g < Q32_ONE as int,
    ;
}

/// Cross-multiplied order of two non-negative fractions carries over to
/// their floored quotients: if `a*d <= c*b` then `a/b <= c/d`.
proof fn lemma_div_cross_ordered(a: int, b: int, c: int, d: int)
    requires
        0 <= a,
        0 <= c,
        0 < b,
        0 < d,
        a * d <= c * b,
    ensures
        a / b <= c / d,
{
    lemma_fundamental_div_mod(a, b);
    lemma_mod_bound(a, b);
    lemma_fundamental_div_mod(c, d);
    lemma_mod_bound(c, d);
    let qa = a / b;
    let qc = c / d;
    if qa > qc {
        assert(false) by (nonlinear_arith)
            requires
                0 <= a,
                0 <= c,
                0 < b,
                0 < d,
                a * d <= c * b,
                a == b * qa + a % b,
                0 <= a % b < b,
                c == d * qc + c % d,
                0 <= c % d < d,
                qc + 1 <= qa,
        ;
    }
}

} // verus!
