//! A moving disc and the speed rule that keeps it at its base speed.
use vstd::prelude::*;
use crate::fixed::{div_trunc_wide, is_isqrt, lemma_scaled_component, trunc_div};
use crate::grid::{lemma_sqrt_floor, sqrt_floor, Team, COORD_LIM, DIR_ONE};

verus! {

/// Ceiling on a disc's base speed, in fixed-point units per second.
pub const MAX_BASE_SPEED: i64 = 520_000;

/// Largest disc radius.
pub const MAX_RADIUS: i64 = 1_000_000;

/// Bound on a velocity component between two speed corrections.
pub const VEL_LIM: i64 = 100_000_000;

/// A disc: position, velocity (units per second), team, radius, the speed it keeps, and
/// the time (microseconds) of its last bounce off enemy territory, `-1` if none.
#[derive(Clone, Copy, Debug)]
pub struct Disc {
    pub x: i64,
    pub y: i64,
    pub vx: i64,
    pub vy: i64,
    pub team: Team,
    pub radius: i64,
    pub base_speed: i64,
    pub last_bounce_ts: i64,
}

/// Factor applied to a velocity before its length is taken, so that the integer length
/// is exact to one part in `SPEED_PRECISION`.
pub const SPEED_PRECISION: i64 = 0x10_0000;

/// The velocity `(vx, vy)` rescaled to magnitude `b`; the zero vector stays as it is.
pub open spec fn rescaled(vx: int, vy: int, b: int) -> (int, int) {
    let ax = vx * SPEED_PRECISION;
    let ay = vy * SPEED_PRECISION;
    let m = sqrt_floor(ax * ax + ay * ay);
    if m > 0 {
        (trunc_div(ax * b, m), trunc_div(ay * b, m))
    } else {
        (vx, vy)
    }
}

/// `(vx, vy)` reflected about the unit normal `(nx, ny)` (scaled by `DIR_ONE`).
pub open spec fn reflected(vx: int, vy: int, nx: int, ny: int) -> (int, int) {
    let dot = trunc_div(vx * nx + vy * ny, DIR_ONE as int);
    (vx - trunc_div(2 * dot * nx, DIR_ONE as int), vy - trunc_div(2 * dot * ny, DIR_ONE as int))
}

pub open spec fn abs(v: int) -> int {
    if v < 0 {
        -v
    } else {
        v
    }
}

/// Every non-negative integer has an integer square root.
pub proof fn lemma_isqrt_exists(n: int)
    requires
        n >= 0,
    ensures
        is_isqrt(n, sqrt_floor(n)),
    decreases n,
{
    if n == 0 {
        assert(is_isqrt(0, 0));
    } else {
        lemma_isqrt_exists(n - 1);
        let r = sqrt_floor(n - 1);
        if (r + 1) * (r + 1) <= n {
            assert(n < (r + 2) * (r + 2)) by (nonlinear_arith)
                requires
                    n - 1 < (r + 1) * (r + 1),
                    r >= 0,
            ;
            assert(is_isqrt(n, r + 1));
        } else {
            assert(is_isqrt(n, r));
        }
    }
}

proof fn lemma_trunc_div_abs(v: int, b: int, m: int)
    requires
        b >= 0,
        m > 0,
    ensures
        abs(trunc_div(v * b, m)) == (abs(v) * b) / m,
        m * abs(trunc_div(v * b, m)) <= abs(v) * b < m * (abs(trunc_div(v * b, m)) + 1),
{
    if v >= 0 {
        assert(v * b >= 0) by (nonlinear_arith)
            requires
                v >= 0,
                b >= 0,
        ;
    } else {
        assert(-(v * b) == (-v) * b) by (nonlinear_arith);
        assert((-v) * b >= 0) by (nonlinear_arith)
            requires
                v < 0,
                b >= 0,
        ;
    }
    let q = (abs(v) * b) / m;
    vstd::arithmetic::div_mod::lemma_fundamental_div_mod(abs(v) * b, m);
    vstd::arithmetic::div_mod::lemma_mod_bound(abs(v) * b, m);
    assert(m * q + (abs(v) * b) % m == abs(v) * b);
    assert(m * (q + 1) == m * q + m) by (nonlinear_arith);
    vstd::arithmetic::div_mod::lemma_div_pos_is_pos(abs(v) * b, m);
}

proof fn lemma_square_lt(x: int, y: int)
    requires
        0 <= x < y,
    ensures
        x * x < y * y,
{
    assert(x * x < y * y) by (nonlinear_arith)
        requires
            0 <= x < y,
    ;
}

/// Restoring the base speed `b` on a moving disc gives it speed `b` up to rounding: with
/// each component one unit further from zero the speed would exceed `b`, and the speed is
/// at most `b * (1 + 1 / SPEED_PRECISION)`.
pub proof fn lemma_speed_restored(vx: int, vy: int, b: int)
    requires
        b >= 0,
        vx != 0 || vy != 0,
    ensures
        ({
            let v = rescaled(vx, vy, b);
            &&& b * b < (abs(v.0) + 1) * (abs(v.0) + 1) + (abs(v.1) + 1) * (abs(v.1) + 1)
            &&& SPEED_PRECISION * SPEED_PRECISION * (v.0 * v.0 + v.1 * v.1) <= b * b * (
            (SPEED_PRECISION + 1) * (SPEED_PRECISION + 1))
        }),
{
    let k = SPEED_PRECISION as int;
    let ax = vx * k;
    let ay = vy * k;
    let n = ax * ax + ay * ay;
    assert(vx * vx + vy * vy >= 1) by (nonlinear_arith)
        requires
            vx != 0 || vy != 0,
    ;
    assert(n == k * k * (vx * vx + vy * vy)) by (nonlinear_arith)
        requires
            ax == vx * k,
            ay == vy * k,
            n == ax * ax + ay * ay,
    ;
    assert(n >= k * k) by (nonlinear_arith)
        requires
            n == k * k * (vx * vx + vy * vy),
            vx * vx + vy * vy >= 1,
    ;
    lemma_isqrt_exists(n);
    let m = sqrt_floor(n);
    assert(m >= k) by (nonlinear_arith)
        requires
            n >= k * k,
            n < (m + 1) * (m + 1),
            m >= 0,
            k > 0,
    ;
    let v = rescaled(vx, vy, b);
    lemma_trunc_div_abs(ax, b, m);
    lemma_trunc_div_abs(ay, b, m);
    let p = abs(ax);
    let q = abs(ay);
    let a = abs(v.0);
    let c = abs(v.1);
    assert(p * p + q * q == n) by (nonlinear_arith)
        requires
            p == ax || p == -ax,
            q == ay || q == -ay,
            n == ax * ax + ay * ay,
    ;
    assert(a * a == v.0 * v.0 && c * c == v.1 * v.1) by (nonlinear_arith)
        requires
            a == v.0 || a == -v.0,
            c == v.1 || c == -v.1,
    ;
    assert(p >= 0 && q >= 0 && a >= 0 && c >= 0);
    lemma_square_lt(p * b, m * (a + 1));
    lemma_square_lt(q * b, m * (c + 1));
    assert(b * b * n == (p * b) * (p * b) + (q * b) * (q * b)) by (nonlinear_arith)
        requires
            n == p * p + q * q,
    ;
    assert(m * m * ((a + 1) * (a + 1) + (c + 1) * (c + 1)) == (m * (a + 1)) * (m * (a + 1)) + (m
        * (c + 1)) * (m * (c + 1))) by (nonlinear_arith);
    assert(b * b < (a + 1) * (a + 1) + (c + 1) * (c + 1)) by (nonlinear_arith)
        requires
            b * b * n < m * m * ((a + 1) * (a + 1) + (c + 1) * (c + 1)),
            m * m <= n,
            m > 0,
    ;
    assert(m * m * (a * a + c * c) <= b * b * n) by (nonlinear_arith)
        requires
            0 <= m * a <= p * b,
            0 <= m * c <= q * b,
            n == p * p + q * q,
            m > 0,
            a >= 0,
            c >= 0,
    ;
    assert(b * b * n <= b * b * ((m + 1) * (m + 1))) by (nonlinear_arith)
        requires
            n < (m + 1) * (m + 1),
            b >= 0,
    ;
    let s2 = a * a + c * c;
    assert(0 <= k * (m + 1) <= (k + 1) * m) by (nonlinear_arith)
        requires
            k <= m,
            k > 0,
    ;
    assert((k * (m + 1)) * (k * (m + 1)) <= ((k + 1) * m) * ((k + 1) * m)) by (nonlinear_arith)
        requires
            0 <= k * (m + 1) <= (k + 1) * m,
    ;
    assert(m * m * (k * k * s2) <= m * m * (b * b * ((k + 1) * (k + 1)))) by (nonlinear_arith)
        requires
            m * m * s2 <= b * b * ((m + 1) * (m + 1)),
            (k * (m + 1)) * (k * (m + 1)) <= ((k + 1) * m) * ((k + 1) * m),
            b >= 0,
            k > 0,
    ;
    assert(k * k * s2 <= b * b * ((k + 1) * (k + 1))) by (nonlinear_arith)
        requires
            m * m * (k * k * s2) <= m * m * (b * b * ((k + 1) * (k + 1))),
            m > 0,
    ;
}

/// Restoring a base speed `b` gives components of magnitude at most `b`.
pub proof fn lemma_rescaled_bound(vx: int, vy: int, b: int)
    requires
        b >= 0,
    ensures
        -b <= rescaled(vx, vy, b).0 <= b,
        -b <= rescaled(vx, vy, b).1 <= b,
{
    let ax = vx * SPEED_PRECISION;
    let ay = vy * SPEED_PRECISION;
    let n = ax * ax + ay * ay;
    assert(n >= 0) by (nonlinear_arith)
        requires
            n == ax * ax + ay * ay,
    ;
    lemma_isqrt_exists(n);
    let m = sqrt_floor(n);
    if m > 0 {
        lemma_scaled_component(ax, ay, m, b);
        assert(ay * ay + ax * ax == n);
        lemma_scaled_component(ay, ax, m, b);
    } else {
        assert(n < (0int + 1) * (0int + 1));
        assert(vx == 0 && vy == 0) by (nonlinear_arith)
            requires
                n == ax * ax + ay * ay,
                ax == vx * SPEED_PRECISION,
                ay == vy * SPEED_PRECISION,
                n < (0int + 1) * (0int + 1),
        ;
    }
}

impl Disc {
    pub open spec fn wf(&self) -> bool {
        &&& 1 <= self.radius <= MAX_RADIUS
        &&& 0 <= self.base_speed <= MAX_BASE_SPEED
        &&& -self.base_speed <= self.vx <= self.base_speed
        &&& -self.base_speed <= self.vy <= self.base_speed
        &&& -COORD_LIM <= self.x <= COORD_LIM
        &&& -COORD_LIM <= self.y <= COORD_LIM
    }

    /// Rescales the velocity to the base speed, keeping its direction.
    pub fn maintain_speed(&mut self)
        requires
            -VEL_LIM <= old(self).vx <= VEL_LIM,
            -VEL_LIM <= old(self).vy <= VEL_LIM,
            0 <= old(self).base_speed <= MAX_BASE_SPEED,
        ensures
            (final(self).vx as int, final(self).vy as int) == rescaled(
                old(self).vx as int,
                old(self).vy as int,
                old(self).base_speed as int,
            ),
            -old(self).base_speed <= final(self).vx <= old(self).base_speed,
            -old(self).base_speed <= final(self).vy <= old(self).base_speed,
            final(self).x == old(self).x,
            final(self).y == old(self).y,
            final(self).team == old(self).team,
            final(self).radius == old(self).radius,
            final(self).base_speed == old(self).base_speed,
            final(self).last_bounce_ts == old(self).last_bounce_ts,
    {
        let vx = self.vx;
        let vy = self.vy;
        let b = self.base_speed;
        let ax = (vx as i128) * (SPEED_PRECISION as i128);
        let ay = (vy as i128) * (SPEED_PRECISION as i128);
        let ghost lim: int = VEL_LIM * SPEED_PRECISION;
        assert(0 <= ax * ax <= lim * lim) by (nonlinear_arith)
            requires
                -lim <= ax <= lim,
        ;
        assert(0 <= ay * ay <= lim * lim) by (nonlinear_arith)
            requires
                -lim <= ay <= lim,
        ;
        let m = crate::fixed::isqrt((ax * ax + ay * ay) as u128);
        proof {
            lemma_sqrt_floor((ax * ax + ay * ay) as int, m as int);
            assert(m <= 2 * lim) by (nonlinear_arith)
                requires
                    m * m <= ax * ax + ay * ay,
                    ax * ax + ay * ay <= 2 * (lim * lim),
                    m >= 0,
                    lim > 0,
            ;
        }
        if m > 0 {
            let m = m as i128;
            assert(-lim * MAX_BASE_SPEED <= ax * b <= lim * MAX_BASE_SPEED) by (nonlinear_arith)
                requires
                    -lim <= ax <= lim,
                    0 <= b <= MAX_BASE_SPEED,
            ;
            assert(-lim * MAX_BASE_SPEED <= ay * b <= lim * MAX_BASE_SPEED) by (nonlinear_arith)
                requires
                    -lim <= ay <= lim,
                    0 <= b <= MAX_BASE_SPEED,
            ;
            proof {
                lemma_scaled_component(ax as int, ay as int, m as int, b as int);
                assert(ay * ay + ax * ax == ax * ax + ay * ay);
                lemma_scaled_component(ay as int, ax as int, m as int, b as int);
            }
            self.vx = div_trunc_wide(ax * (b as i128), m) as i64;
            self.vy = div_trunc_wide(ay * (b as i128), m) as i64;
        } else {
            let ghost n: int = ax * ax + ay * ay;
            assert(n < (0int + 1) * (0int + 1));
            assert(vx == 0 && vy == 0) by (nonlinear_arith)
                requires
                    n == ax * ax + ay * ay,
                    ax == vx * SPEED_PRECISION,
                    ay == vy * SPEED_PRECISION,
                    n < (0int + 1) * (0int + 1),
            ;
        }
    }
}

} // verus!
