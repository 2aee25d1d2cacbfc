//! Integer plane geometry: snapped points, distances, polyline operations.
//!
//! Coordinates are fixed-point integers (one unit is a centimetre). Points
//! compare by exact equality, which makes them usable as graph keys, in
//! contrast to a floating approximate comparison.

use vstd::prelude::*;

verus! {

/// A snapped 2D coordinate with exact-equality identity.
#[derive(Clone, Copy, Debug, PartialEq, Eq, Structural)]
pub struct Pt {
    pub x: i64,
    pub y: i64,
}

/// Largest coordinate magnitude accepted in raw input geometry.
pub const MAX_INPUT_COORD: i64 = 1_000_000_000;

/// Largest coordinate magnitude that derived geometry may reach: raw input
/// shifted laterally at most twice, each time by at most `MAX_WIDTH`.
pub const MAX_COORD: i64 = 1_020_000_000;

/// Largest lane width accepted.
pub const MAX_WIDTH: i64 = 1_000_000;

/// Upper bound on the distance between two points within `MAX_COORD`.
pub const MAX_SEG_DIST: i64 = 2_900_000_000;

pub open spec fn pt_ok(p: Pt) -> bool {
    &&& -MAX_COORD <= p.x <= MAX_COORD
    &&& -MAX_COORD <= p.y <= MAX_COORD
}

pub open spec fn pt_input_ok(p: Pt) -> bool {
    &&& -MAX_INPUT_COORD <= p.x <= MAX_INPUT_COORD
    &&& -MAX_INPUT_COORD <= p.y <= MAX_INPUT_COORD
}

pub open spec fn pts_ok(s: Seq<Pt>) -> bool {
    forall|i: int| 0 <= i < s.len() ==> pt_ok(#[trigger] s[i])
}

pub open spec fn pts_input_ok(s: Seq<Pt>) -> bool {
    forall|i: int| 0 <= i < s.len() ==> pt_input_ok(#[trigger] s[i])
}

// ------------------------------------------------------------------
// Integer square root
// ------------------------------------------------------------------

pub open spec fn is_sqrt_floor(n: int, r: int) -> bool {
    &&& 0 <= r
    &&& r * r <= n
    &&& n < (r + 1) * (r + 1)
}

/// The floor of the square root of `n` (meaningful for `n >= 0`).
pub open spec fn sqrt_floor(n: int) -> int {
    choose|r: int| is_sqrt_floor(n, r)
}

pub proof fn lemma_sqrt_floor_exists(n: nat)
    ensures
        is_sqrt_floor(n as int, sqrt_floor(n as int)),
    decreases n,
{
    if n == 0 {
        assert(is_sqrt_floor(0, 0));
    } else {
        lemma_sqrt_floor_exists((n - 1) as nat);
        let r = sqrt_floor(n - 1);
        if (r + 1) * (r + 1) <= n {
            assert(is_sqrt_floor(n as int, r + 1)) by (nonlinear_arith)
                requires
                    is_sqrt_floor(n - 1, r),
                    (r + 1) * (r + 1) <= n,
            ;
        } else {
            assert(is_sqrt_floor(n as int, r));
        }
    }
    assert(exists|r: int| is_sqrt_floor(n as int, r));
}

pub proof fn lemma_sqrt_floor_unique(n: int, r: int)
    requires
        is_sqrt_floor(n, r),
    ensures
        r == sqrt_floor(n),
{
    let r2 = sqrt_floor(n);
    assert(is_sqrt_floor(n, r2));
    assert(r == r2) by (nonlinear_arith)
        requires
            is_sqrt_floor(n, r),
            is_sqrt_floor(n, r2),
    ;
}

/// The root is at least as large as each component under the radical.
pub proof fn lemma_sqrt_ge_component(a: int, b: int)
    requires
        0 <= a,
        0 <= b,
    ensures
        a <= sqrt_floor(a * a + b),
{
    lemma_sqrt_floor_exists((a * a + b) as nat);
    let r = sqrt_floor(a * a + b);
    assert(a <= r) by (nonlinear_arith)
        requires
            is_sqrt_floor(a * a + b, r),
            0 <= a,
            0 <= b,
    ;
}

/// Binary search for the integer square root.
pub fn isqrt(n: u64) -> (r: u64)
    requires
        n <= 9_000_000_000_000_000_000,
    ensures
        is_sqrt_floor(n as int, r as int),
        r as int == sqrt_floor(n as int),
        r <= 3_000_000_000,
{
    let mut lo: u64 = 0;
    let mut hi: u64 = 3_000_000_001;
    // Invariant: lo * lo <= n < hi * hi.
    while lo + 1 < hi
        invariant
            lo < hi <= 3_000_000_001,
            (lo * lo) as int <= n as int,
            (n as int) < (hi as int) * (hi as int),
        decreases hi - lo,
    {
        let mid: u64 = lo + (hi - lo) / 2;
        proof {
            assert(mid as int * mid as int <= 9_000_000_006_000_000_001) by (nonlinear_arith)
                requires
                    0 <= mid <= 3_000_000_001,
            ;
        }
        if mid * mid <= n {
            lo = mid;
        } else {
            hi = mid;
        }
    }
    proof {
        lemma_sqrt_floor_unique(n as int, lo as int);
    }
    lo
}

// ------------------------------------------------------------------
// Truncating signed division
// ------------------------------------------------------------------

/// Division rounding toward zero, as machine division does (meaningful for
/// `b > 0`; spec-level `/` on `int` rounds toward negative infinity instead).
pub open spec fn div_trunc(a: int, b: int) -> int {
    if a >= 0 {
        a / b
    } else {
        -((-a) / b)
    }
}

/// Divides a signed value by a positive divisor, rounding toward zero.
pub fn div_i64(a: i64, b: i64) -> (q: i64)
    requires
        b > 0,
        -9_223_372_036_854_775_807 <= a,
    ensures
        q as int == div_trunc(a as int, b as int),
{
    if a >= 0 {
        let q = (a as u64) / (b as u64);
        proof {
            assert(a as int / b as int <= a as int && 0 <= a as int / b as int)
                by (nonlinear_arith)
                requires
                    0 <= a,
                    b > 0,
            ;
        }
        q as i64
    } else {
        let neg = -a;
        let q = (neg as u64) / (b as u64);
        proof {
            assert(neg as int / b as int <= neg as int && 0 <= neg as int / b as int)
                by (nonlinear_arith)
                requires
                    0 <= neg,
                    b > 0,
            ;
        }
        -(q as i64)
    }
}

/// Divides a wide signed value by a positive divisor, rounding toward zero.
pub fn div_i128(a: i128, b: i128) -> (q: i128)
    requires
        b > 0,
        -170_141_183_460_469_231_731_687_303_715_884_105_727 <= a,
    ensures
        q as int == div_trunc(a as int, b as int),
{
    if a >= 0 {
        let q = (a as u128) / (b as u128);
        proof {
            assert(a as int / b as int <= a as int && 0 <= a as int / b as int)
                by (nonlinear_arith)
                requires
                    0 <= a,
                    b > 0,
            ;
        }
        q as i128
    } else {
        let neg = -a;
        let q = (neg as u128) / (b as u128);
        proof {
            assert(neg as int / b as int <= neg as int && 0 <= neg as int / b as int)
                by (nonlinear_arith)
                requires
                    0 <= neg,
                    b > 0,
            ;
        }
        -(q as i128)
    }
}

/// The magnitude of a truncating quotient never exceeds the magnitude bound
/// of the numerator divided exactly.
pub proof fn lemma_div_trunc_bound(a: int, b: int, m: int)
    requires
        b > 0,
        -(m * b) <= a <= m * b,
        0 <= m,
    ensures
        -m <= div_trunc(a, b) <= m,
{
    if a >= 0 {
        assert(a / b <= m) by (nonlinear_arith)
            requires
                b > 0,
                a <= m * b,
                0 <= a,
        ;
        assert(0 <= a / b) by (nonlinear_arith)
            requires
                b > 0,
                0 <= a,
        ;
    } else {
        assert((-a) / b <= m) by (nonlinear_arith)
            requires
                b > 0,
                -a <= m * b,
                0 <= -a,
        ;
        assert(0 <= (-a) / b) by (nonlinear_arith)
            requires
                b > 0,
                0 <= -a,
        ;
    }
}

// ------------------------------------------------------------------
// Distance
// ------------------------------------------------------------------

/// Euclidean distance between two points, rounded down to an integer.
pub open spec fn dist(a: Pt, b: Pt) -> int {
    sqrt_floor((b.x - a.x) * (b.x - a.x) + (b.y - a.y) * (b.y - a.y))
}

pub proof fn lemma_dist_symmetric(a: Pt, b: Pt)
    ensures
        dist(a, b) == dist(b, a),
{
    assert((b.x - a.x) * (b.x - a.x) + (b.y - a.y) * (b.y - a.y) == (a.x - b.x) * (a.x - b.x) + (
    a.y - b.y) * (a.y - b.y)) by (nonlinear_arith);
}

pub proof fn lemma_dist_bounds(a: Pt, b: Pt)
    requires
        pt_ok(a),
        pt_ok(b),
    ensures
        0 <= dist(a, b) <= MAX_SEG_DIST,
        a == b ==> dist(a, b) == 0,
        a != b ==> dist(a, b) >= 1,
{
    let dx = b.x - a.x;
    let dy = b.y - a.y;
    let sq = dx * dx + dy * dy;
    assert(0 <= sq <= 8_323_200_000_000_000_000) by (nonlinear_arith)
        requires
            -2_040_000_000 <= dx <= 2_040_000_000,
            -2_040_000_000 <= dy <= 2_040_000_000,
            sq == dx * dx + dy * dy,
    ;
    lemma_sqrt_floor_exists(sq as nat);
    let r = sqrt_floor(sq);
    assert(0 <= r <= MAX_SEG_DIST) by (nonlinear_arith)
        requires
            is_sqrt_floor(sq, r),
            sq <= 8_323_200_000_000_000_000,
    ;
    if a == b {
        assert(sq == 0) by (nonlinear_arith)
            requires
                dx == 0,
                dy == 0,
                sq == dx * dx + dy * dy,
        ;
        assert(is_sqrt_floor(0, 0)) by (nonlinear_arith);
        lemma_sqrt_floor_unique(0, 0);
    }
    if a != b {
        assert(sq >= 1) by (nonlinear_arith)
            requires
                dx != 0 || dy != 0,
                sq == dx * dx + dy * dy,
        ;
        assert(r >= 1) by (nonlinear_arith)
            requires
                is_sqrt_floor(sq, r),
                sq >= 1,
        ;
    }
}

/// Euclidean distance between two in-range points.
pub fn pt_dist(a: Pt, b: Pt) -> (d: i64)
    requires
        pt_ok(a),
        pt_ok(b),
    ensures
        d as int == dist(a, b),
        0 <= d <= MAX_SEG_DIST,
{
    let dx: i64 = b.x - a.x;
    let dy: i64 = b.y - a.y;
    proof {
        assert(dx * dx + dy * dy <= 8_323_200_000_000_000_000 && dx * dx >= 0 && dy * dy >= 0)
            by (nonlinear_arith)
            requires
                pt_ok(a),
                pt_ok(b),
                dx == b.x - a.x,
                dy == b.y - a.y,
        ;
    }
    let sq: i64 = dx * dx + dy * dy;
    let r = isqrt(sq as u64);
    proof {
        lemma_dist_bounds(a, b);
        lemma_sqrt_floor_unique(sq as int, r as int);
    }
    r as i64
}

/// Squared distance, for threshold comparisons that need no rounding.
pub open spec fn sq_dist(a: Pt, b: Pt) -> int {
    (b.x - a.x) * (b.x - a.x) + (b.y - a.y) * (b.y - a.y)
}

/// Whether each coordinate of `q` lies within `m` of the same coordinate of `p`.
pub open spec fn pt_near(p: Pt, q: Pt, m: int) -> bool {
    &&& p.x - m <= q.x <= p.x + m
    &&& p.y - m <= q.y <= p.y + m
}

/// The point halfway along the segment from `a` to `b` (coordinates rounded
/// toward zero).
pub open spec fn midpoint(a: Pt, b: Pt) -> Pt {
    Pt { x: div_trunc(a.x + b.x, 2) as i64, y: div_trunc(a.y + b.y, 2) as i64 }
}

pub fn pt_midpoint(a: Pt, b: Pt) -> (r: Pt)
    requires
        pt_ok(a),
        pt_ok(b),
    ensures
        r == midpoint(a, b),
        pt_ok(r),
        pt_input_ok(a) && pt_input_ok(b) ==> pt_input_ok(r),
{
    proof {
        lemma_div_trunc_bound(a.x + b.x, 2, MAX_COORD as int);
        lemma_div_trunc_bound(a.y + b.y, 2, MAX_COORD as int);
        if pt_input_ok(a) && pt_input_ok(b) {
            lemma_div_trunc_bound(a.x + b.x, 2, MAX_INPUT_COORD as int);
            lemma_div_trunc_bound(a.y + b.y, 2, MAX_INPUT_COORD as int);
        }
    }
    Pt { x: div_i64(a.x + b.x, 2), y: div_i64(a.y + b.y, 2) }
}

// ------------------------------------------------------------------
// Polylines
// ------------------------------------------------------------------

/// Total length of a polyline: the sum of its segment distances.
pub open spec fn path_len(s: Seq<Pt>) -> int
    decreases s.len(),
{
    if s.len() < 2 {
        0
    } else {
        path_len(s.drop_last()) + dist(s[s.len() - 2], s[s.len() - 1])
    }
}

pub proof fn lemma_path_len_nonneg(s: Seq<Pt>)
    requires
        pts_ok(s),
    ensures
        path_len(s) >= 0,
    decreases s.len(),
{
    if s.len() >= 2 {
        lemma_path_len_nonneg(s.drop_last());
        lemma_dist_bounds(s[s.len() - 2], s[s.len() - 1]);
    }
}

pub proof fn lemma_path_len_step(s: Seq<Pt>, i: int)
    requires
        1 <= i < s.len(),
    ensures
        path_len(s.take(i + 1)) == path_len(s.take(i)) + dist(s[i - 1], s[i]),
{
    assert(s.take(i + 1).drop_last() =~= s.take(i));
}

/// Decomposing a path at its first segment instead of its last.
pub proof fn lemma_path_len_first(s: Seq<Pt>)
    requires
        s.len() >= 2,
    ensures
        path_len(s) == dist(s[0], s[1]) + path_len(s.drop_first()),
    decreases s.len(),
{
    if s.len() == 2 {
        assert(path_len(s.drop_last()) == 0);
        assert(path_len(s.drop_first()) == 0);
        assert(path_len(s) == path_len(s.drop_last()) + dist(s[0], s[1]));
    } else {
        let t = s.drop_last();
        let u = s.drop_first();
        lemma_path_len_first(t);
        assert(t.drop_first() =~= u.drop_last());
        assert(t[0] == s[0] && t[1] == s[1]);
        assert(path_len(u) == path_len(u.drop_last()) + dist(u[u.len() - 2], u[u.len() - 1]));
        assert(u[u.len() - 2] == s[s.len() - 2]);
        assert(u[u.len() - 1] == s[s.len() - 1]);
        assert(path_len(s) == path_len(t) + dist(s[s.len() - 2], s[s.len() - 1]));
    }
}

/// A path and its reverse have the same length.
pub proof fn lemma_path_len_reverse(s: Seq<Pt>)
    ensures
        path_len(s.reverse()) == path_len(s),
    decreases s.len(),
{
    if s.len() < 2 {
    } else {
        let r = s.reverse();
        assert(r.drop_last() =~= s.drop_first().reverse());
        lemma_path_len_reverse(s.drop_first());
        lemma_path_len_first(s);
        lemma_dist_symmetric(s[0], s[1]);
        assert(r[r.len() - 2] == s[1]);
        assert(r[r.len() - 1] == s[0]);
    }
}

/// Computes the total length of a polyline.
pub fn polyline_len(pts: &Vec<Pt>) -> (d: i64)
    requires
        pts_ok(pts@),
        pts@.len() <= 1_000_000,
    ensures
        d as int == path_len(pts@),
        0 <= d <= 2_900_000_000_000_000,
{
    if pts.len() < 2 {
        proof {
            assert(pts@.take(pts@.len() as int) =~= pts@);
        }
        return 0;
    }
    let mut acc: i64 = 0;
    let mut i: usize = 1;
    proof {
        assert(pts@.take(1).len() == 1);
    }
    while i < pts.len()
        invariant
            1 <= i <= pts@.len() <= 1_000_000,
            pts_ok(pts@),
            acc as int == path_len(pts@.take(i as int)),
            0 <= acc <= (i - 1) * MAX_SEG_DIST,
        decreases pts@.len() - i,
    {
        let step = pt_dist(pts[i - 1], pts[i]);
        proof {
            lemma_path_len_step(pts@, i as int);
            assert((i - 1) * MAX_SEG_DIST + MAX_SEG_DIST == i * MAX_SEG_DIST) by (nonlinear_arith);
            assert(i * MAX_SEG_DIST <= 1_000_000 * MAX_SEG_DIST) by (nonlinear_arith)
                requires
                    i <= 1_000_000,
            ;
        }
        acc = acc + step;
        i = i + 1;
    }
    proof {
        assert(pts@.take(pts@.len() as int) =~= pts@);
        assert((i - 1) * MAX_SEG_DIST <= 1_000_000 * MAX_SEG_DIST) by (nonlinear_arith)
            requires
                0 <= i - 1 <= 1_000_000,
        ;
    }
    acc
}

/// Reverses the order of a polyline's points.
pub fn reversed(pts: &Vec<Pt>) -> (r: Vec<Pt>)
    ensures
        r@ == pts@.reverse(),
{
    let mut r: Vec<Pt> = Vec::new();
    let n = pts.len();
    let mut i: usize = 0;
    while i < n
        invariant
            0 <= i <= n == pts@.len(),
            r@.len() == i,
            forall|j: int| 0 <= j < i ==> r@[j] == pts@[n - 1 - j],
        decreases n - i,
    {
        r.push(pts[n - 1 - i]);
        i = i + 1;
    }
    proof {
        assert(r@ =~= pts@.reverse());
    }
    r
}

// ------------------------------------------------------------------
// Deduplication and smoothing
// ------------------------------------------------------------------

/// Removes exact consecutive duplicate points.
pub open spec fn dedup_adj(s: Seq<Pt>) -> Seq<Pt>
    decreases s.len(),
{
    if s.len() <= 1 {
        s
    } else if s[s.len() - 1] == s[s.len() - 2] {
        dedup_adj(s.drop_last())
    } else {
        dedup_adj(s.drop_last()).push(s.last())
    }
}

pub proof fn lemma_dedup_adj_shape(s: Seq<Pt>)
    requires
        s.len() >= 1,
    ensures
        dedup_adj(s).len() >= 1,
        dedup_adj(s)[0] == s[0],
        dedup_adj(s).last() == s.last(),
        s[0] != s.last() ==> dedup_adj(s).len() >= 2,
        forall|j: int| 0 <= j < dedup_adj(s).len() ==> s.contains(#[trigger] dedup_adj(s)[j]),
    decreases s.len(),
{
    if s.len() == 1 {
        assert(s.contains(s[0]));
    } else {
        lemma_dedup_adj_shape(s.drop_last());
        assert(forall|j: int|
            0 <= j < s.drop_last().len() ==> s.contains(#[trigger] s.drop_last()[j]));
        assert(s.contains(s.last()));
    }
}

/// A run whose deduplication collapses below two points was constant.
pub proof fn lemma_dedup_singleton(s: Seq<Pt>)
    requires
        s.len() >= 1,
        dedup_adj(s).len() < 2,
    ensures
        forall|i: int| 0 <= i < s.len() ==> #[trigger] s[i] == s[0],
    decreases s.len(),
{
    if s.len() > 1 {
        lemma_dedup_adj_shape(s.drop_last());
        if s[s.len() - 1] == s[s.len() - 2] {
            lemma_dedup_singleton(s.drop_last());
            assert(forall|i: int| 0 <= i < s.len() - 1 ==> #[trigger] s[i] == s.drop_last()[i]);
        } else {
            assert(dedup_adj(s).len() >= 2);
        }
    }
}

/// Removes consecutive duplicates from a polyline.
pub fn deduped(pts: &Vec<Pt>) -> (r: Vec<Pt>)
    ensures
        r@ == dedup_adj(pts@),
        r@.len() <= pts@.len(),
{
    let mut r: Vec<Pt> = Vec::new();
    let mut i: usize = 0;
    while i < pts.len()
        invariant
            0 <= i <= pts@.len(),
            r@ == dedup_adj(pts@.take(i as int)),
            r@.len() <= i,
            i > 0 ==> r@.len() >= 1 && r@.last() == pts@[i - 1],
        decreases pts@.len() - i,
    {
        proof {
            assert(pts@.take(i + 1).drop_last() =~= pts@.take(i as int));
        }
        if r.len() == 0 {
            r.push(pts[i]);
        } else {
            let keep = {
                let last = r[r.len() - 1];
                let cur = pts[i];
                last.x != cur.x || last.y != cur.y
            };
            if keep {
                r.push(pts[i]);
            }
        }
        i = i + 1;
    }
    proof {
        assert(pts@.take(pts@.len() as int) =~= pts@);
    }
    r
}

/// Whether any two positions of the sequence hold the same point.
pub open spec fn has_dup(s: Seq<Pt>) -> bool {
    exists|i: int, j: int| 0 <= i < j < s.len() && s[i] == s[j]
}

/// Whether the polyline visits any exact coordinate twice.
pub fn contains_duplicates(pts: &Vec<Pt>) -> (r: bool)
    ensures
        r == has_dup(pts@),
{
    let mut j: usize = 1;
    while j < pts.len()
        invariant
            1 <= j,
            pts@.len() > 0 ==> j <= pts@.len(),
            forall|p: int, q: int| 0 <= p < q < j && q < pts@.len() ==> pts@[p] != pts@[q],
        decreases pts@.len() - j,
    {
        let mut p: usize = 0;
        while p < j
            invariant
                0 <= p <= j < pts@.len(),
                forall|q: int| 0 <= q < p ==> pts@[q] != pts@[j as int],
            decreases j - p,
        {
            if pts[p].x == pts[j].x && pts[p].y == pts[j].y {
                return true;
            }
            p = p + 1;
        }
        j = j + 1;
    }
    false
}

/// Collapse threshold for final smoothing: points within one distance unit
/// (one metre) of the previously kept point are dropped. Compared on the
/// squared distance.
pub const SMOOTH_SQ: i64 = 10_000;

/// Matching threshold when locating a corner on the intersection boundary:
/// half a distance unit, compared on the squared distance.
pub const NEAR_SQ: i64 = 2_500;

pub open spec fn smooth_rec(s: Seq<Pt>, i: int, acc: Seq<Pt>) -> Seq<Pt>
    decreases s.len() - i,
{
    if i < 0 || i >= s.len() || acc.len() == 0 {
        acc
    } else if sq_dist(acc.last(), s[i]) <= SMOOTH_SQ {
        smooth_rec(s, i + 1, acc)
    } else {
        smooth_rec(s, i + 1, acc.push(s[i]))
    }
}

/// The polyline after collapsing runs of near-coincident points: the first
/// point is kept, and each further point is kept only if it lies more than
/// the smoothing threshold from the point kept before it.
pub open spec fn smoothed(s: Seq<Pt>) -> Seq<Pt> {
    if s.len() == 0 {
        s
    } else {
        smooth_rec(s, 1, seq![s[0]])
    }
}

/// Smooths a polyline by collapsing points closer than the smoothing
/// threshold to the previously kept point.
pub fn approx_dedupe(pts: &Vec<Pt>) -> (r: Vec<Pt>)
    requires
        pts@.len() >= 1,
        pts_ok(pts@),
    ensures
        r@ == smoothed(pts@),
        r@.len() >= 1,
        r@[0] == pts@[0],
        pts_ok(r@),
        r@.len() <= pts@.len(),
{
    let mut acc: Vec<Pt> = Vec::new();
    acc.push(pts[0]);
    let mut i: usize = 1;
    while i < pts.len()
        invariant
            1 <= i <= pts@.len(),
            pts_ok(pts@),
            acc@.len() >= 1,
            acc@.len() <= i,
            acc@[0] == pts@[0],
            pts_ok(acc@),
            smoothed(pts@) == smooth_rec(pts@, i as int, acc@),
        decreases pts@.len() - i,
    {
        let d = pt_sq_dist(acc[acc.len() - 1], pts[i]);
        if d > SMOOTH_SQ {
            acc.push(pts[i]);
        }
        i = i + 1;
    }
    acc
}

// ------------------------------------------------------------------
// Lateral shifting
// ------------------------------------------------------------------

/// `p` moved perpendicular to the direction `(dx, dy)` by `w` units (to the
/// right of travel for positive `w`, to the left for negative `w`), where
/// `len` is the magnitude of `(dx, dy)`.
pub open spec fn shift_pt(p: Pt, dx: int, dy: int, len: int, w: int) -> Pt {
    Pt {
        x: (p.x + div_trunc(dy * w, len)) as i64,
        y: (p.y - div_trunc(dx * w, len)) as i64,
    }
}

/// Both endpoints of the segment `a -> b` moved sideways by `w`.
pub open spec fn line_shift(a: Pt, b: Pt, w: int) -> (Pt, Pt) {
    let dx = b.x - a.x;
    let dy = b.y - a.y;
    let len = dist(a, b);
    (shift_pt(a, dx, dy, len, w), shift_pt(b, dx, dy, len, w))
}

proof fn lemma_shift_pt_near(p: Pt, dx: int, dy: int, len: int, w: int)
    requires
        pt_ok(p),
        len >= 1,
        -len <= dx <= len,
        -len <= dy <= len,
        -MAX_WIDTH <= w <= MAX_WIDTH,
    ensures
        pt_near(p, shift_pt(p, dx, dy, len, w), if w >= 0 { w } else { -w }),
{
    let m = if w >= 0 { w } else { -w };
    assert(-(m * len) <= dy * w <= m * len && -(m * len) <= dx * w <= m * len)
        by (nonlinear_arith)
        requires
            len >= 1,
            -len <= dx <= len,
            -len <= dy <= len,
            -m <= w <= m,
            0 <= m,
    ;
    lemma_div_trunc_bound(dy * w, len, m);
    lemma_div_trunc_bound(dx * w, len, m);
}

/// Moves one point sideways, perpendicular to the direction from `da` to
/// `db`, by `w` units.
pub fn shift_pt_along(p: Pt, da: Pt, db: Pt, w: i64) -> (r: Pt)
    requires
        pt_ok(p),
        pt_ok(da),
        pt_ok(db),
        da != db,
        -MAX_WIDTH <= w <= MAX_WIDTH,
    ensures
        r == shift_pt(p, db.x - da.x, db.y - da.y, dist(da, db), w as int),
        pt_near(p, r, if w >= 0 { w as int } else { -w as int }),
{
    let dx: i64 = db.x - da.x;
    let dy: i64 = db.y - da.y;
    let len = pt_dist(da, db);
    proof {
        lemma_dist_bounds(da, db);
        let adx: int = if dx >= 0 { dx as int } else { -dx as int };
        let ady: int = if dy >= 0 { dy as int } else { -dy as int };
        assert(adx * adx == dx * dx && ady * ady == dy * dy && 0 <= dx * dx && 0 <= dy * dy)
            by (nonlinear_arith)
            requires
                adx == (if dx >= 0 { dx as int } else { -dx as int }),
                ady == (if dy >= 0 { dy as int } else { -dy as int }),
        ;
        lemma_sqrt_ge_component(adx, (dy * dy) as int);
        lemma_sqrt_ge_component(ady, (dx * dx) as int);
        assert(adx * adx + dy * dy == dx * dx + dy * dy);
        assert(ady * ady + dx * dx == dx * dx + dy * dy);
        lemma_shift_pt_near(p, dx as int, dy as int, len as int, w as int);
        assert(-2_040_000_000 <= dy && dy <= 2_040_000_000 && -1_000_000 <= w && w <= 1_000_000
            ==> -2_040_000_000_000_000_000 <= dy * w <= 2_040_000_000_000_000_000)
            by (nonlinear_arith);
        assert(-2_040_000_000 <= dx && dx <= 2_040_000_000 && -1_000_000 <= w && w <= 1_000_000
            ==> -2_040_000_000_000_000_000 <= dx * w <= 2_040_000_000_000_000_000)
            by (nonlinear_arith);
    }
    let ox = div_i64(dy * w, len);
    let oy = div_i64(dx * w, len);
    Pt { x: p.x + ox, y: p.y - oy }
}

/// Moves the segment `a -> b` sideways by `w` units, to the right of the
/// direction of travel for positive `w` and to the left for negative `w`.
pub fn shift_line(a: Pt, b: Pt, w: i64) -> (r: (Pt, Pt))
    requires
        pt_ok(a),
        pt_ok(b),
        a != b,
        -MAX_WIDTH <= w <= MAX_WIDTH,
    ensures
        r == line_shift(a, b, w as int),
        pt_near(a, r.0, if w >= 0 { w as int } else { -w as int }),
        pt_near(b, r.1, if w >= 0 { w as int } else { -w as int }),
{
    let p1 = shift_pt_along(a, a, b, w);
    let p2 = shift_pt_along(b, a, b, w);
    (p1, p2)
}

/// A polyline moved sideways by `w`: each point is shifted perpendicular to
/// the direction between its two neighbouring points (or along its single
/// adjacent segment at the ends); a point with coincident neighbours is left
/// in place.
pub open spec fn polyline_shift(s: Seq<Pt>, w: int) -> Seq<Pt> {
    Seq::new(
        s.len(),
        |i: int|
            {
                let prev = if i == 0 { s[0] } else { s[i - 1] };
                let next = if i == s.len() - 1 { s[s.len() - 1] } else { s[i + 1] };
                if prev == next {
                    s[i]
                } else {
                    shift_pt(s[i], next.x - prev.x, next.y - prev.y, dist(prev, next), w)
                }
            },
    )
}

/// Moves a whole polyline sideways by `w` units.
pub fn shift_polyline(pts: &Vec<Pt>, w: i64) -> (r: Vec<Pt>)
    requires
        pts_ok(pts@),
        pts@.len() >= 1,
        -MAX_WIDTH <= w <= MAX_WIDTH,
    ensures
        r@ == polyline_shift(pts@, w as int),
        r@.len() == pts@.len(),
        forall|i: int|
            0 <= i < r@.len() ==> pt_near(pts@[i], #[trigger] r@[i], if w >= 0 {
                w as int
            } else {
                -w as int
            }),
{
    let n = pts.len();
    let mut r: Vec<Pt> = Vec::new();
    let mut i: usize = 0;
    while i < n
        invariant
            0 <= i <= n == pts@.len(),
            pts_ok(pts@),
            -MAX_WIDTH <= w <= MAX_WIDTH,
            r@.len() == i,
            forall|j: int| 0 <= j < i ==> #[trigger] r@[j] == polyline_shift(pts@, w as int)[j],
            forall|j: int|
                0 <= j < i ==> pt_near(pts@[j], #[trigger] r@[j], if w >= 0 {
                    w as int
                } else {
                    -w as int
                }),
        decreases n - i,
    {
        let prev = if i == 0 { pts[0] } else { pts[i - 1] };
        let next = if i == n - 1 { pts[n - 1] } else { pts[i + 1] };
        if prev.x == next.x && prev.y == next.y {
            r.push(pts[i]);
        } else {
            let q = shift_pt_along(pts[i], prev, next, w);
            r.push(q);
        }
        i = i + 1;
    }
    proof {
        assert(r@ =~= polyline_shift(pts@, w as int));
    }
    r
}

// ------------------------------------------------------------------
// Boundary tracing
// ------------------------------------------------------------------

/// The first position at or after `from` whose point lies within the corner
/// matching threshold of `target`.
pub open spec fn first_near(s: Seq<Pt>, from: int, target: Pt) -> Option<int>
    decreases s.len() - from,
{
    if from < 0 || from >= s.len() {
        None
    } else if sq_dist(s[from], target) <= NEAR_SQ {
        Some(from)
    } else {
        first_near(s, from + 1, target)
    }
}

fn scan_near(pts: &Vec<Pt>, from: usize, target: Pt) -> (r: Option<usize>)
    requires
        pts_ok(pts@),
        pt_ok(target),
    ensures
        first_near(pts@, from as int, target) == (match r {
            Some(j) => Some(j as int),
            None => None::<int>,
        }),
        r is Some ==> from <= r->Some_0 < pts@.len(),
{
    let mut i: usize = from;
    while i < pts.len()
        invariant
            from <= i,
            pts_ok(pts@),
            pt_ok(target),
            first_near(pts@, from as int, target) == first_near(pts@, i as int, target),
        decreases pts@.len() - i,
    {
        if pt_sq_dist(pts[i], target) <= NEAR_SQ {
            return Some(i);
        }
        i = i + 1;
    }
    None
}

/// The slice of the boundary ring `s` that runs from the first point matching
/// `start` to the next point matching `end`, wrapping past the ring's end at
/// most once.
pub open spec fn boundary_slice(s: Seq<Pt>, start: Pt, end: Pt) -> Option<Seq<Pt>> {
    match first_near(s, 0, start) {
        None => None,
        Some(a) => match first_near(s, a, end) {
            Some(b) => Some(s.subrange(a, b + 1)),
            None => match first_near(s, 0, end) {
                Some(c) => Some(s.subrange(a, s.len() as int) + s.subrange(0, c + 1)),
                None => None,
            },
        },
    }
}

/// Finds the points of the ring `pts` between a point matching `start` and a
/// point matching `end`, in ring order, or nothing when either corner cannot
/// be located on the ring.
pub fn find_pts_between(pts: &Vec<Pt>, start: Pt, end: Pt) -> (r: Option<Vec<Pt>>)
    requires
        pts_ok(pts@),
        pt_ok(start),
        pt_ok(end),
    ensures
        match r {
            Some(v) => boundary_slice(pts@, start, end) == Some(v@) && v@.len() >= 1 && pts_ok(v@)
                && v@.len() <= 2 * pts@.len() && (forall|n: int|
                0 <= n < v@.len() ==> pts@.contains(#[trigger] v@[n])),
            None => boundary_slice(pts@, start, end) is None,
        },
{
    let a = match scan_near(pts, 0, start) {
        Some(a) => a,
        None => {
            return None;
        },
    };
    match scan_near(pts, a, end) {
        Some(b) => {
            let mut v: Vec<Pt> = Vec::new();
            let mut i: usize = a;
            let plen = pts.len();
            while i <= b
                invariant
                    a <= i <= b + 1,
                    b < plen,
                    plen == pts@.len(),
                    pts_ok(pts@),
                    v@ =~= pts@.subrange(a as int, i as int),
                decreases b + 1 - i,
            {
                v.push(pts[i]);
                i = i + 1;
            }
            proof {
                assert(v@ =~= pts@.subrange(a as int, b + 1));
                assert forall|n: int| 0 <= n < v@.len() implies pts@.contains(#[trigger] v@[n])
                    by {
                    assert(v@[n] == pts@[a + n]);
                }
            }
            Some(v)
        },
        None => {
            match scan_near(pts, 0, end) {
                Some(c) => {
                    let mut v: Vec<Pt> = Vec::new();
                    let mut i: usize = a;
                    while i < pts.len()
                        invariant
                            a <= i <= pts@.len(),
                            a < pts@.len(),
                            pts_ok(pts@),
                            v@ =~= pts@.subrange(a as int, i as int),
                        decreases pts@.len() - i,
                    {
                        v.push(pts[i]);
                        i = i + 1;
                    }
                    let plen = pts.len();
                    let mut j: usize = 0;
                    while j <= c
                        invariant
                            0 <= j <= c + 1,
                            c < plen,
                            plen == pts@.len(),
                            a < pts@.len(),
                            pts_ok(pts@),
                            v@ =~= pts@.subrange(a as int, pts@.len() as int) + pts@.subrange(
                                0,
                                j as int,
                            ),
                        decreases c + 1 - j,
                    {
                        v.push(pts[j]);
                        j = j + 1;
                    }
                    proof {
                        assert(v@ =~= pts@.subrange(a as int, pts@.len() as int) + pts@.subrange(
                            0,
                            c + 1,
                        ));
                        assert forall|n: int| 0 <= n < v@.len() implies pts@.contains(
                            #[trigger] v@[n],
                        ) by {
                            let head = pts@.subrange(a as int, pts@.len() as int);
                            if n < head.len() {
                                assert(v@[n] == pts@[a + n]);
                            } else {
                                assert(v@[n] == pts@[n - head.len()]);
                            }
                        }
                    }
                    Some(v)
                },
                None => None,
            }
        },
    }
}

// ------------------------------------------------------------------
// Cyclic indexing
// ------------------------------------------------------------------

/// The index `idx` wrapped into `[0, len)`, as used to pick the angular
/// neighbour of a road around an intersection.
pub fn wraparound_index(len: usize, idx: i64) -> (r: usize)
    requires
        1 <= len <= 100_000,
        -1_000_000 <= idx <= 1_000_000,
    ensures
        r < len,
        r as int == (idx as int) % (len as int),
{
    let n: i64 = len as i64;
    if idx >= 0 {
        let m = (idx as u64) % (n as u64);
        m as usize
    } else {
        let k: i64 = -idx;
        let m = (k as u64) % (n as u64);
        if m == 0 {
            proof {
                vstd::arithmetic::div_mod::lemma_fundamental_div_mod(k as int, n as int);
                let q = k as int / n as int;
                assert(idx as int == (-q) * (n as int) + 0) by (nonlinear_arith)
                    requires
                        k as int == (n as int) * (k as int / n as int) + (k as int) % (n as int),
                        (k as int) % (n as int) == 0,
                        q == k as int / n as int,
                        idx as int == -(k as int),
                ;
                vstd::arithmetic::div_mod::lemma_fundamental_div_mod_converse(
                    idx as int,
                    n as int,
                    -q,
                    0,
                );
            }
            0
        } else {
            proof {
                vstd::arithmetic::div_mod::lemma_fundamental_div_mod(k as int, n as int);
                let q = k as int / n as int;
                assert(idx as int == (-q - 1) * (n as int) + ((n as int) - (k as int) % (
                n as int))) by (nonlinear_arith)
                    requires
                        k as int == (n as int) * (k as int / n as int) + (k as int) % (n as int),
                        q == k as int / n as int,
                        idx as int == -(k as int),
                ;
                vstd::arithmetic::div_mod::lemma_fundamental_div_mod_converse(
                    idx as int,
                    n as int,
                    -q - 1,
                    (n as int) - (k as int) % (n as int),
                );
            }
            (n - (m as i64)) as usize
        }
    }
}

pub fn pt_sq_dist(a: Pt, b: Pt) -> (d: i64)
    requires
        pt_ok(a),
        pt_ok(b),
    ensures
        d as int == sq_dist(a, b),
        0 <= d,
{
    let dx: i64 = b.x - a.x;
    let dy: i64 = b.y - a.y;
    proof {
        assert(dx * dx + dy * dy <= 8_323_200_000_000_000_000 && dx * dx >= 0 && dy * dy >= 0)
            by (nonlinear_arith)
            requires
                pt_ok(a),
                pt_ok(b),
                dx == b.x - a.x,
                dy == b.y - a.y,
        ;
    }
    dx * dx + dy * dy
}

} // verus!
