//! Exact integer geometry shared by the 2D and 3D planners: magnitudes,
//! squared distances, a ceiling integer square root, segment interpolation,
//! and the bounded steering move.

use vstd::prelude::*;

verus! {

/// Largest coordinate magnitude the library plans over. Keeping every
/// component within this bound keeps every squared distance inside `u64`.
pub const COORD_LIMIT: i64 = 1_000_000;

/// A coordinate component the planner accepts.
pub open spec fn in_range(c: int) -> bool {
    -COORD_LIMIT <= c <= COORD_LIMIT
}

/// Magnitude of a mathematical integer.
pub open spec fn abs_val(c: int) -> int {
    if c >= 0 {
        c
    } else {
        -c
    }
}

/// Square of a mathematical integer.
pub open spec fn sq(c: int) -> int {
    c * c
}

/// `r` lies (inclusively) between `a` and `b`.
pub open spec fn between(a: int, b: int, r: int) -> bool {
    (a <= r <= b) || (b <= r <= a)
}

/// The square of a value equals the square of its magnitude.
pub proof fn lemma_sq_abs(c: int)
    ensures
        sq(abs_val(c)) == sq(c),
{
    if c < 0 {
        assert((-c) * (-c) == c * c) by (nonlinear_arith);
    }
}

/// A difference and its reverse have the same square.
pub proof fn lemma_sq_swap(a: int, b: int)
    ensures
        sq(a - b) == sq(b - a),
{
    assert((a - b) * (a - b) == (b - a) * (b - a)) by (nonlinear_arith);
}

/// Squaring preserves order on non-negative values.
pub proof fn lemma_sq_monotonic(a: int, b: int)
    requires
        0 <= a <= b,
    ensures
        sq(a) <= sq(b),
{
    assert(a * a <= b * b) by (nonlinear_arith)
        requires
            0 <= a <= b,
    ;
}

/// Euclidean division of a non-negative value by a positive divisor: the
/// quotient is non-negative and the quotient times the divisor stays at or
/// below the dividend.
pub proof fn lemma_div_le(x: int, d: int)
    requires
        0 <= x,
        0 < d,
    ensures
        0 <= x / d,
        (x / d) * d <= x,
{
    assert(0 <= x / d) by (nonlinear_arith)
        requires
            0 <= x,
            0 < d,
    ;
    assert((x / d) * d <= x) by (nonlinear_arith)
        requires
            0 <= x,
            0 < d,
    ;
}

/// A common positive factor can be cancelled from an inequality.
pub proof fn lemma_cancel_pos(q: int, b: int, d: int)
    requires
        0 < d,
        q * d <= b * d,
    ensures
        q <= b,
{
    assert(q <= b) by (nonlinear_arith)
        requires
            0 < d,
            q * d <= b * d,
    ;
}

/// Multiplying both sides of an inequality by a non-negative factor.
pub proof fn lemma_mul_le_mono(x: int, y: int, c: int)
    requires
        x <= y,
        0 <= c,
    ensures
        x * c <= y * c,
        c * x <= c * y,
{
    assert(x * c <= y * c && c * x <= c * y) by (nonlinear_arith)
        requires
            x <= y,
            0 <= c,
    ;
}

/// The magnitude of `a - b`, exact and non-negative.
pub fn abs_diff(a: i64, b: i64) -> (r: u64)
    requires
        in_range(a as int),
        in_range(b as int),
    ensures
        r == abs_val(a - b),
{
    if a >= b {
        (a - b) as u64
    } else {
        (b - a) as u64
    }
}

/// The least non-negative integer whose square is at least `n`: the square
/// root of `n`, rounded up. Well defined for every non-negative `n`
/// (`lemma_sqrt_ceil_props`), and the value `isqrt_ceil` computes.
pub open spec fn sqrt_ceil(n: int) -> int {
    choose|r: int| 0 <= r && #[trigger] sq(r) >= n && (r == 0 || sq(r - 1) < n)
}

/// For every non-negative `n` a rounded-up square root exists, so
/// `sqrt_ceil(n)` satisfies its defining property.
pub proof fn lemma_sqrt_ceil_props(n: int)
    requires
        0 <= n,
    ensures
        0 <= sqrt_ceil(n),
        sq(sqrt_ceil(n)) >= n,
        sqrt_ceil(n) == 0 || sq(sqrt_ceil(n) - 1) < n,
    decreases n,
{
    if n == 0 {
        assert(sq(0) == 0) by (nonlinear_arith);
        assert(0 <= 0 && sq(0) >= n && (0 == 0 || sq(0 - 1) < n));
        assert(exists|r: int| 0 <= r && #[trigger] sq(r) >= n && (r == 0 || sq(r - 1) < n));
    } else {
        lemma_sqrt_ceil_props(n - 1);
        let r0 = sqrt_ceil(n - 1);
        if sq(r0) >= n {
            assert(r0 != 0) by {
                assert(sq(0) == 0) by (nonlinear_arith);
            }
            assert(0 <= r0 && sq(r0) >= n && (r0 == 0 || sq(r0 - 1) < n));
            assert(exists|r: int| 0 <= r && #[trigger] sq(r) >= n && (r == 0 || sq(r - 1) < n));
        } else {
            let r1 = r0 + 1;
            assert(sq(r1) >= n && sq(r1 - 1) < n) by (nonlinear_arith)
                requires
                    r1 == r0 + 1,
                    0 <= r0,
                    sq(r0) >= n - 1,
                    sq(r0) < n,
            ;
            assert(0 <= r1 && sq(r1) >= n && (r1 == 0 || sq(r1 - 1) < n));
            assert(exists|r: int| 0 <= r && #[trigger] sq(r) >= n && (r == 0 || sq(r - 1) < n));
        }
    }
}

/// The rounded-up square root is unique: any value satisfying its defining
/// property equals `sqrt_ceil(n)`.
pub proof fn lemma_sqrt_ceil_is(n: int, r: int)
    requires
        0 <= n,
        0 <= r,
        sq(r) >= n,
        r == 0 || sq(r - 1) < n,
    ensures
        sqrt_ceil(n) == r,
{
    lemma_sqrt_ceil_props(n);
    let c = sqrt_ceil(n);
    if c < r {
        lemma_sq_monotonic(c, r - 1);
        assert(false);
    }
    if c > r {
        lemma_sq_monotonic(r, c - 1);
        assert(false);
    }
}

/// The smallest `r` with `r * r >= n`: the square root of `n`, rounded up.
pub fn isqrt_ceil(n: u64) -> (r: u64)
    requires
        n <= 0x4000_0000_0000_0000,
    ensures
        sq(r as int) >= n,
        r > 0 ==> sq(r - 1) < n,
        r <= 0x8000_0000,
        r == sqrt_ceil(n as int),
{
    let mut lo: u64 = 0;
    let mut hi: u64 = 0x8000_0000;
    assert(hi * hi >= n) by (nonlinear_arith)
        requires
            n <= 0x4000_0000_0000_0000u64,
            hi == 0x8000_0000u64,
    ;
    while lo < hi
        invariant
            lo <= hi <= 0x8000_0000,
            hi * hi >= n,
            lo > 0 ==> (lo - 1) * (lo - 1) < n,
        decreases hi - lo,
    {
        let mid: u64 = lo + (hi - lo) / 2;
        assert(mid * mid <= 0x4000_0000_0000_0000) by (nonlinear_arith)
            requires
                mid <= 0x8000_0000u64,
        ;
        if mid * mid >= n {
            hi = mid;
        } else {
            lo = mid + 1;
        }
    }
    proof {
        lemma_sqrt_ceil_is(n as int, lo as int);
    }
    lo
}

/// One scaled component squared: from `s * d <= a * step` (all the named
/// quantities non-negative, `d` positive) it follows that
/// `sq(s) * sq(d) <= sq(a) * sq(step)`.
proof fn lemma_scaled_sq_le(a: int, s: int, step: int, d: int)
    requires
        0 <= a,
        0 <= s,
        0 <= step,
        0 < d,
        s * d <= a * step,
    ensures
        sq(s) * sq(d) <= sq(a) * sq(step),
{
    assert((s * d) * (s * d) <= (a * step) * (a * step)) by (nonlinear_arith)
        requires
            0 <= s,
            0 <= d,
            0 <= a,
            0 <= step,
            s * d <= a * step,
    ;
    assert((s * d) * (s * d) == (s * s) * (d * d)) by (nonlinear_arith);
    assert((a * step) * (a * step) == (a * a) * (step * step)) by (nonlinear_arith);
}

/// Scaling a vector of component magnitudes `(a1, a2, a3)` by `step / d`
/// (each component rounded down) cannot lengthen it beyond `step`, as long
/// as its length was at most `d`. The hypotheses `si * d <= ai * step` are
/// exactly what flooring division `si = ai * step / d` provides.
pub proof fn lemma_scaled_norm_le(
    a1: int,
    a2: int,
    a3: int,
    s1: int,
    s2: int,
    s3: int,
    step: int,
    d: int,
)
    requires
        0 < d,
        0 <= step,
        0 <= a1 && 0 <= a2 && 0 <= a3,
        0 <= s1 && 0 <= s2 && 0 <= s3,
        s1 * d <= a1 * step,
        s2 * d <= a2 * step,
        s3 * d <= a3 * step,
        sq(a1) + sq(a2) + sq(a3) <= sq(d),
    ensures
        sq(s1) + sq(s2) + sq(s3) <= sq(step),
{
    lemma_scaled_sq_le(a1, s1, step, d);
    lemma_scaled_sq_le(a2, s2, step, d);
    lemma_scaled_sq_le(a3, s3, step, d);
    let ssum: int = sq(s1) + sq(s2) + sq(s3);
    let asum: int = sq(a1) + sq(a2) + sq(a3);
    assert(ssum * sq(d) <= asum * sq(step)) by (nonlinear_arith)
        requires
            ssum == sq(s1) + sq(s2) + sq(s3),
            asum == sq(a1) + sq(a2) + sq(a3),
            sq(s1) * sq(d) <= sq(a1) * sq(step),
            sq(s2) * sq(d) <= sq(a2) * sq(step),
            sq(s3) * sq(d) <= sq(a3) * sq(step),
    ;
    assert(0 <= sq(step)) by (nonlinear_arith);
    assert(asum * sq(step) <= sq(d) * sq(step)) by (nonlinear_arith)
        requires
            asum <= sq(d),
            0 <= sq(step),
    ;
    assert(0 < sq(d)) by (nonlinear_arith)
        requires
            0 < d,
    ;
    assert(ssum <= sq(step)) by (nonlinear_arith)
        requires
            ssum * sq(d) <= sq(d) * sq(step),
            0 < sq(d),
    ;
}

/// A collision-check step count, clamped to at least one step.
pub open spec fn clamp_steps(n: int) -> int {
    if n < 1 {
        1
    } else {
        n
    }
}

/// The `k`-th of `steps + 1` equally spaced samples on the segment from `a`
/// to `b`, componentwise: `a` shifted toward `b` by `|b - a| * k / steps`,
/// the offset rounded toward `a`.
pub open spec fn interp_spec(a: int, b: int, k: int, steps: int) -> int {
    if b >= a {
        a + (b - a) * k / steps
    } else {
        a - (a - b) * k / steps
    }
}

/// The first sample is `a` itself and the last is exactly `b`.
pub proof fn lemma_interp_ends(a: int, b: int, steps: int)
    requires
        1 <= steps,
    ensures
        interp_spec(a, b, 0, steps) == a,
        interp_spec(a, b, steps, steps) == b,
{
    let d: int = abs_val(b - a);
    assert(d * 0 == 0);
    assert(0int / steps == 0) by (nonlinear_arith)
        requires
            1 <= steps,
    ;
    assert(d * steps / steps == d) by (nonlinear_arith)
        requires
            1 <= steps,
            0 <= d,
    ;
}

/// Every sample of a degenerate segment is its single endpoint.
pub proof fn lemma_interp_degenerate(a: int, k: int, steps: int)
    requires
        1 <= steps,
    ensures
        interp_spec(a, a, k, steps) == a,
{
    assert(0 * k == 0);
    assert(0int / steps == 0) by (nonlinear_arith)
        requires
            1 <= steps,
    ;
}

/// One interpolated component, exactly `interp_spec`, and always between the
/// two endpoints.
pub fn interp_comp(a: i64, b: i64, k: u64, steps: u64) -> (r: i64)
    requires
        in_range(a as int),
        in_range(b as int),
        1 <= steps <= 0x8000_0000,
        k <= steps,
    ensures
        r == interp_spec(a as int, b as int, k as int, steps as int),
        between(a as int, b as int, r as int),
{
    let d: u64 = abs_diff(b, a);
    assert(d * k <= 2_000_000 * 0x8000_0000u64) by (nonlinear_arith)
        requires
            d <= 2_000_000u64,
            k <= 0x8000_0000u64,
    ;
    let q: u64 = (d * k) / steps;
    proof {
        lemma_div_le((d * k) as int, steps as int);
        lemma_mul_le_mono(k as int, steps as int, d as int);
        assert((d as int) * (steps as int) / (steps as int) == d as int) by (nonlinear_arith)
            requires
                1 <= steps,
                0 <= d,
        ;
        vstd::arithmetic::div_mod::lemma_div_is_ordered(
            (d * k) as int,
            (d * steps) as int,
            steps as int,
        );
        assert(q <= d);
    }
    if b >= a {
        a + q as i64
    } else {
        a - q as i64
    }
}

/// Every interpolated sample lies between the two endpoints.
pub proof fn lemma_interp_between(a: int, b: int, k: int, steps: int)
    requires
        1 <= steps,
        0 <= k <= steps,
    ensures
        between(a, b, interp_spec(a, b, k, steps)),
{
    let d: int = abs_val(b - a);
    let q: int = d * k / steps;
    lemma_div_le(d * k, steps);
    lemma_mul_le_mono(k, steps, d);
    assert(d * steps / steps == d) by (nonlinear_arith)
        requires
            1 <= steps,
            0 <= d,
    ;
    vstd::arithmetic::div_mod::lemma_div_is_ordered(d * k, d * steps, steps);
    assert(0 <= q <= d);
}

/// The far-case steering move of one component: from `a` toward `b` by
/// `|b - a| * step / d`, rounded down.
pub open spec fn steer_advance(a: int, b: int, step: int, d: int) -> int {
    if b >= a {
        a + (b - a) * step / d
    } else {
        a - (a - b) * step / d
    }
}

/// A component at least as large (in square) as a third of the squared
/// distance advances by at least one cell in a far-case move: its rounded
/// share `a * step / d` of the step is at least one.
proof fn lemma_comp_advance_ge_one(a: int, m: int, d: int, step: int)
    requires
        0 <= a,
        3 * sq(a) >= m,
        sq(d) >= m,
        sq(d - 1) < m,
        m > sq(step),
        2 <= step,
        step < d,
    ensures
        a * step / d >= 1,
{
    if d <= 6 {
        assert(a * step >= d) by (nonlinear_arith)
            requires
                3 * sq(a) >= m,
                sq(d - 1) < m,
                2 <= step,
                step < d,
                d <= 6,
                0 <= a,
        ;
    } else {
        assert(4 * sq(a) >= sq(d)) by (nonlinear_arith)
            requires
                3 * sq(a) >= m,
                sq(d - 1) + 1 <= m,
                d >= 7,
        ;
        assert(2 * a >= d) by (nonlinear_arith)
            requires
                4 * sq(a) >= sq(d),
                0 <= a,
                0 <= d,
        ;
        assert(a * step >= 2 * a) by (nonlinear_arith)
            requires
                2 <= step,
                0 <= a,
        ;
    }
    assert(a * step / d >= 1) by (nonlinear_arith)
        requires
            a * step >= d,
            1 <= d,
    ;
}

/// A far-case steering move makes strict progress: when the target is more
/// than one step away, advancing every component by its rounded share of
/// the step brings the squared distance down by at least one.
pub proof fn lemma_steer_advance_progress(
    cx: int,
    cy: int,
    cz: int,
    gx: int,
    gy: int,
    gz: int,
    step: int,
)
    requires
        2 <= step,
        sq(cx - gx) + sq(cy - gy) + sq(cz - gz) > sq(step),
    ensures
        ({
            let m = sq(cx - gx) + sq(cy - gy) + sq(cz - gz);
            let d = sqrt_ceil(m);
            sq(steer_advance(cx, gx, step, d) - gx) + sq(steer_advance(cy, gy, step, d) - gy) + sq(
                steer_advance(cz, gz, step, d) - gz,
            ) <= m - 1
        }),
{
    let a1: int = abs_val(gx - cx);
    let a2: int = abs_val(gy - cy);
    let a3: int = abs_val(gz - cz);
    let m: int = sq(cx - gx) + sq(cy - gy) + sq(cz - gz);
    lemma_sq_abs(gx - cx);
    lemma_sq_abs(gy - cy);
    lemma_sq_abs(gz - cz);
    lemma_sq_swap(cx, gx);
    lemma_sq_swap(cy, gy);
    lemma_sq_swap(cz, gz);
    assert(m == sq(a1) + sq(a2) + sq(a3));
    assert(sq(step) >= 4) by (nonlinear_arith)
        requires
            2 <= step,
    ;
    lemma_sqrt_ceil_props(m);
    let d: int = sqrt_ceil(m);
    assert(sq(0) == 0) by (nonlinear_arith);
    assert(d >= 1);
    if d <= step {
        lemma_sq_monotonic(d, step);
        assert(false);
    }
    let s1: int = a1 * step / d;
    let s2: int = a2 * step / d;
    let s3: int = a3 * step / d;
    lemma_div_le(a1 * step, d);
    lemma_div_le(a2 * step, d);
    lemma_div_le(a3 * step, d);
    lemma_mul_le_mono(step, d, a1);
    lemma_mul_le_mono(step, d, a2);
    lemma_mul_le_mono(step, d, a3);
    lemma_cancel_pos(s1, a1, d);
    lemma_cancel_pos(s2, a2, d);
    lemma_cancel_pos(s3, a3, d);
    assert(0 <= s1 <= a1 && 0 <= s2 <= a2 && 0 <= s3 <= a3);
    // the new offset of each component is its old magnitude minus its advance
    assert(sq(steer_advance(cx, gx, step, d) - gx) == sq(a1 - s1)) by {
        lemma_sq_swap(steer_advance(cx, gx, step, d), gx);
        lemma_sq_swap(a1, s1);
    }
    assert(sq(steer_advance(cy, gy, step, d) - gy) == sq(a2 - s2)) by {
        lemma_sq_swap(steer_advance(cy, gy, step, d), gy);
        lemma_sq_swap(a2, s2);
    }
    assert(sq(steer_advance(cz, gz, step, d) - gz) == sq(a3 - s3)) by {
        lemma_sq_swap(steer_advance(cz, gz, step, d), gz);
        lemma_sq_swap(a3, s3);
    }
    // some component carries at least a third of the squared distance and
    // therefore advances; its square drops by at least one
    if sq(a1) >= sq(a2) && sq(a1) >= sq(a3) {
        lemma_comp_advance_ge_one(a1, m, d, step);
        assert(sq(a1 - s1) <= sq(a1) - 1) by (nonlinear_arith)
            requires
                1 <= s1 <= a1,
        ;
    } else if sq(a2) >= sq(a1) && sq(a2) >= sq(a3) {
        lemma_comp_advance_ge_one(a2, m, d, step);
        assert(sq(a2 - s2) <= sq(a2) - 1) by (nonlinear_arith)
            requires
                1 <= s2 <= a2,
        ;
    } else {
        lemma_comp_advance_ge_one(a3, m, d, step);
        assert(sq(a3 - s3) <= sq(a3) - 1) by (nonlinear_arith)
            requires
                1 <= s3 <= a3,
        ;
    }
    assert(sq(a1 - s1) <= sq(a1) && sq(a2 - s2) <= sq(a2) && sq(a3 - s3) <= sq(a3))
        by (nonlinear_arith)
        requires
            0 <= s1 <= a1,
            0 <= s2 <= a2,
            0 <= s3 <= a3,
    ;
}

/// Move from `a = (ax, ay, az)` toward `b = (bx, by, bz)` by at most `step`
/// in Euclidean distance. If `b` already lies within `step` of `a` the move
/// reaches `b` exactly; otherwise each component advances by exactly its
/// share `|b - a| * step / d` of the capped step (rounded down), where `d`
/// is the segment length rounded up, so the move never exceeds `step`.
pub fn steer3(ax: i64, ay: i64, az: i64, bx: i64, by: i64, bz: i64, step: i64) -> (r: (
    i64,
    i64,
    i64,
))
    requires
        in_range(ax as int),
        in_range(ay as int),
        in_range(az as int),
        in_range(bx as int),
        in_range(by as int),
        in_range(bz as int),
        1 <= step <= COORD_LIMIT,
    ensures
        sq(r.0 - ax) + sq(r.1 - ay) + sq(r.2 - az) <= sq(step as int),
        sq(bx - ax) + sq(by - ay) + sq(bz - az) <= sq(step as int) ==> r == (bx, by, bz),
        sq(bx - ax) + sq(by - ay) + sq(bz - az) > sq(step as int) ==> ({
            let d = sqrt_ceil(sq(bx - ax) + sq(by - ay) + sq(bz - az));
            r.0 == steer_advance(ax as int, bx as int, step as int, d) && r.1 == steer_advance(
                ay as int,
                by as int,
                step as int,
                d,
            ) && r.2 == steer_advance(az as int, bz as int, step as int, d)
        }),
        between(ax as int, bx as int, r.0 as int),
        between(ay as int, by as int, r.1 as int),
        between(az as int, bz as int, r.2 as int),
{
    let dx: u64 = abs_diff(bx, ax);
    let dy: u64 = abs_diff(by, ay);
    let dz: u64 = abs_diff(bz, az);
    assert(dx * dx <= 4_000_000_000_000 && dy * dy <= 4_000_000_000_000 && dz * dz
        <= 4_000_000_000_000) by (nonlinear_arith)
        requires
            dx <= 2_000_000u64,
            dy <= 2_000_000u64,
            dz <= 2_000_000u64,
    ;
    let d2: u64 = dx * dx + dy * dy + dz * dz;
    assert((step as u64) * (step as u64) <= 1_000_000_000_000) by (nonlinear_arith)
        requires
            step as u64 <= 1_000_000u64,
    ;
    let s2: u64 = (step as u64) * (step as u64);
    proof {
        lemma_sq_abs(bx - ax);
        lemma_sq_abs(by - ay);
        lemma_sq_abs(bz - az);
        assert(d2 == sq(bx - ax) + sq(by - ay) + sq(bz - az));
        assert(s2 == sq(step as int));
    }
    if d2 <= s2 {
        return (bx, by, bz);
    }
    let d: u64 = isqrt_ceil(d2);
    proof {
        if d <= step as u64 {
            lemma_sq_monotonic(d as int, step as int);
            assert(false);
        }
    }
    assert(dx * (step as u64) <= 2_000_000u64 * 1_000_000u64 && dy * (step as u64) <= 2_000_000u64
        * 1_000_000u64 && dz * (step as u64) <= 2_000_000u64 * 1_000_000u64) by (nonlinear_arith)
        requires
            dx <= 2_000_000u64,
            dy <= 2_000_000u64,
            dz <= 2_000_000u64,
            step as u64 <= 1_000_000u64,
    ;
    let sx: u64 = dx * (step as u64) / d;
    let sy: u64 = dy * (step as u64) / d;
    let sz: u64 = dz * (step as u64) / d;
    proof {
        lemma_div_le((dx * (step as u64)) as int, d as int);
        lemma_div_le((dy * (step as u64)) as int, d as int);
        lemma_div_le((dz * (step as u64)) as int, d as int);
        lemma_mul_le_mono(step as int, d as int, dx as int);
        lemma_mul_le_mono(step as int, d as int, dy as int);
        lemma_mul_le_mono(step as int, d as int, dz as int);
        lemma_cancel_pos(sx as int, dx as int, d as int);
        lemma_cancel_pos(sy as int, dy as int, d as int);
        lemma_cancel_pos(sz as int, dz as int, d as int);
        assert(sx <= dx && sy <= dy && sz <= dz);
        lemma_scaled_norm_le(
            dx as int,
            dy as int,
            dz as int,
            sx as int,
            sy as int,
            sz as int,
            step as int,
            d as int,
        );
    }
    let rx: i64 = if bx >= ax {
        ax + sx as i64
    } else {
        ax - sx as i64
    };
    let ry: i64 = if by >= ay {
        ay + sy as i64
    } else {
        ay - sy as i64
    };
    let rz: i64 = if bz >= az {
        az + sz as i64
    } else {
        az - sz as i64
    };
    proof {
        lemma_sq_abs(rx - ax);
        lemma_sq_abs(ry - ay);
        lemma_sq_abs(rz - az);
    }
    (rx, ry, rz)
}

} // verus!
