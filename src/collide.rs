//! Pairwise disc-disc contact: separation, near-elastic impulse and the same-team boost.
use vstd::prelude::*;
use crate::disc::{lemma_rescaled_bound, rescaled, Disc, MAX_BASE_SPEED, MAX_RADIUS, VEL_LIM};
use crate::fixed::{
    clamp_i64, clamp_spec, div_trunc, isqrt_i64, lemma_trunc_div_bound, trunc_div,
};
use crate::grid::{lemma_sqrt_floor, sqrt_floor, unit_of, unit_vector, COORD_LIM, DIR_ONE};

verus! {

/// Numerator of the same-team boost factor (over 100).
pub const TEAM_BOOST_PCT: i64 = 112;

/// Numerator of the impulse factor `(1 + restitution) / 2` (over 100), for restitution 0.98.
pub const IMPULSE_PCT: i64 = 99;

/// Extra separation added to each disc on contact, against lingering overlap.
pub const SEPARATION_BIAS: i64 = 1;

/// The offset given to a disc whose center coincides with another's: each axis limited to
/// one unit, and a zero offset replaced by one unit to the right so that the centers part.
pub open spec fn nudge_of(nudge_x: int, nudge_y: int) -> (int, int) {
    let ux = clamp_spec(nudge_x, -1, 1);
    let uy = clamp_spec(nudge_y, -1, 1);
    if ux == 0 && uy == 0 {
        (1, 0)
    } else {
        (ux, uy)
    }
}

/// A coordinate kept in the representable range.
pub open spec fn clamp_coord(v: int) -> int {
    clamp_spec(v, -COORD_LIM as int, COORD_LIM as int)
}

/// `d` moved by `(ddx, ddy)`.
pub open spec fn shifted(d: Disc, ddx: int, ddy: int) -> Disc {
    Disc { x: clamp_coord(d.x + ddx) as i64, y: clamp_coord(d.y + ddy) as i64, ..d }
}

/// `d` with velocity `(vx, vy)` brought back to its base speed.
pub open spec fn with_speed_kept(d: Disc, vx: int, vy: int) -> Disc {
    let v = rescaled(vx, vy, d.base_speed as int);
    Disc { vx: v.0 as i64, vy: v.1 as i64, ..d }
}

/// The same-team boost of a base speed, capped.
pub open spec fn boosted(b: int) -> int {
    let s = b * TEAM_BOOST_PCT / 100;
    if s > MAX_BASE_SPEED {
        MAX_BASE_SPEED as int
    } else {
        s
    }
}

/// `d` after the same-team boost.
pub open spec fn boost(d: Disc) -> Disc {
    with_speed_kept(Disc { base_speed: boosted(d.base_speed as int) as i64, ..d }, d.vx as int, d.vy as int)
}

/// The outcome of a contact test between `a` and `b`; `(ux, uy)` is the nudge applied to `a`
/// when the two centers coincide.
pub open spec fn collide_pair(a: Disc, b: Disc, ux: int, uy: int) -> (Disc, Disc) {
    let dx = b.x - a.x;
    let dy = b.y - a.y;
    let rsum = a.radius + b.radius;
    let d2 = dx * dx + dy * dy;
    if d2 > rsum * rsum {
        (a, b)
    } else {
        let dist = sqrt_floor(d2);
        if dist == 0 {
            (shifted(a, -ux, -uy), b)
        } else {
            let nx = unit_of(dx, dy).0;
            let ny = unit_of(dx, dy).1;
            let corr = (rsum - dist) / 2 + SEPARATION_BIAS;
            let cx = trunc_div(nx * corr, DIR_ONE as int);
            let cy = trunc_div(ny * corr, DIR_ONE as int);
            let a1 = shifted(a, -cx, -cy);
            let b1 = shifted(b, cx, cy);
            let closing = (b.vx - a.vx) * dx + (b.vy - a.vy) * dy;
            if closing >= 0 {
                (a1, b1)
            } else {
                let vn = trunc_div((b.vx - a.vx) * nx + (b.vy - a.vy) * ny, DIR_ONE as int);
                let j = trunc_div(-vn * IMPULSE_PCT, 100);
                let jx = trunc_div(j * nx, DIR_ONE as int);
                let jy = trunc_div(j * ny, DIR_ONE as int);
                let a2 = with_speed_kept(a1, a.vx - jx, a.vy - jy);
                let b2 = with_speed_kept(b1, b.vx + jx, b.vy + jy);
                if a.team == b.team {
                    (boost(a2), boost(b2))
                } else {
                    (a2, b2)
                }
            }
        }
    }
}

/// `s` after the contact test of the discs at `i` and `j`.
pub open spec fn apply_pair(s: Seq<Disc>, i: int, j: int, ux: int, uy: int) -> Seq<Disc> {
    let p = collide_pair(s[i], s[j], ux, uy);
    s.update(i, p.0).update(j, p.1)
}

/// `s` after the contact tests of disc `i` with discs `j`, `j + 1`, ... in order.
pub open spec fn sweep_row(s: Seq<Disc>, i: int, j: int, ux: int, uy: int) -> Seq<Disc>
    decreases s.len() - j,
{
    if j >= s.len() || j <= i || i < 0 {
        s
    } else {
        sweep_row(apply_pair(s, i, j, ux, uy), i, j + 1, ux, uy)
    }
}

/// `s` after the contact tests of every pair `(i, j)`, `i < j < n`, from row `i` on, in order.
pub open spec fn sweep(s: Seq<Disc>, i: int, n: int, ux: int, uy: int) -> Seq<Disc>
    decreases n - i,
{
    if i >= n || i < 0 {
        s
    } else {
        sweep(sweep_row(s, i, i + 1, ux, uy), i + 1, n, ux, uy)
    }
}

/// Every disc of `s` is well formed.
pub open spec fn all_wf(s: Seq<Disc>) -> bool {
    forall|k: int| 0 <= k < s.len() ==> #[trigger] s[k].wf()
}

/// Discs of `t` are those of `s` in kind: same team and radius, index for index.
pub open spec fn same_roster(s: Seq<Disc>, t: Seq<Disc>) -> bool {
    &&& s.len() == t.len()
    &&& forall|k: int|
        0 <= k < s.len() ==> #[trigger] t[k].team == s[k].team && t[k].radius == s[k].radius
            && t[k].last_bounce_ts == s[k].last_bounce_ts
}

fn clamp_coord_exec(v: i64) -> (r: i64)
    ensures
        r == clamp_coord(v as int),
{
    clamp_i64(v, -COORD_LIM, COORD_LIM)
}

fn shift(d: &mut Disc, ddx: i64, ddy: i64)
    requires
        -COORD_LIM <= old(d).x <= COORD_LIM,
        -COORD_LIM <= old(d).y <= COORD_LIM,
        -COORD_LIM <= ddx <= COORD_LIM,
        -COORD_LIM <= ddy <= COORD_LIM,
    ensures
        *final(d) == shifted(*old(d), ddx as int, ddy as int),
{
    d.x = clamp_coord_exec(d.x + ddx);
    d.y = clamp_coord_exec(d.y + ddy);
}

pub(crate) fn set_velocity(d: &mut Disc, vx: i64, vy: i64)
    requires
        -VEL_LIM <= vx <= VEL_LIM,
        -VEL_LIM <= vy <= VEL_LIM,
        0 <= old(d).base_speed <= MAX_BASE_SPEED,
    ensures
        *final(d) == with_speed_kept(*old(d), vx as int, vy as int),
        -final(d).base_speed <= final(d).vx <= final(d).base_speed,
        -final(d).base_speed <= final(d).vy <= final(d).base_speed,
{
    d.vx = vx;
    d.vy = vy;
    d.maintain_speed();
}

fn apply_boost(d: &mut Disc)
    requires
        old(d).wf(),
    ensures
        *final(d) == boost(*old(d)),
        final(d).wf(),
{
    let s = d.base_speed * TEAM_BOOST_PCT / 100;
    d.base_speed = if s > MAX_BASE_SPEED {
        MAX_BASE_SPEED
    } else {
        s
    };
    let (vx, vy) = (d.vx, d.vy);
    set_velocity(d, vx, vy);
}

pub(crate) proof fn lemma_mul_bound(a: int, b: int, ma: int, mb: int)
    requires
        -ma <= a <= ma,
        -mb <= b <= mb,
        ma >= 0,
        mb >= 0,
    ensures
        -(ma * mb) <= a * b <= ma * mb,
{
    assert(-(ma * mb) <= a * b <= ma * mb) by (nonlinear_arith)
        requires
            -ma <= a <= ma,
            -mb <= b <= mb,
            ma >= 0,
            mb >= 0,
    ;
}

/// The contact test of one pair, as `collide_pair` states it.
pub fn resolve_pair(a: Disc, b: Disc, ux: i64, uy: i64) -> (res: (Disc, Disc))
    requires
        a.wf(),
        b.wf(),
        -1 <= ux <= 1,
        -1 <= uy <= 1,
    ensures
        res == collide_pair(a, b, ux as int, uy as int),
        res.0.wf(),
        res.1.wf(),
{
    let dx = b.x - a.x;
    let dy = b.y - a.y;
    let rsum = a.radius + b.radius;
    proof {
        lemma_mul_bound(dx as int, dx as int, 2 * COORD_LIM, 2 * COORD_LIM);
        lemma_mul_bound(dy as int, dy as int, 2 * COORD_LIM, 2 * COORD_LIM);
        lemma_mul_bound(rsum as int, rsum as int, 2 * MAX_RADIUS, 2 * MAX_RADIUS);
        assert(0 <= dx * dx && 0 <= dy * dy) by (nonlinear_arith);
    }
    let d2 = dx * dx + dy * dy;
    if d2 > rsum * rsum {
        return (a, b);
    }
    let dist = isqrt_i64(d2);
    proof {
        lemma_sqrt_floor(d2 as int, dist as int);
        assert(dist <= rsum) by (nonlinear_arith)
            requires
                dist * dist <= d2,
                d2 <= rsum * rsum,
                dist >= 0,
                rsum >= 0,
        ;
    }
    let mut a1 = a;
    let mut b1 = b;
    if dist == 0 {
        shift(&mut a1, -ux, -uy);
        return (a1, b);
    }
    let (nx, ny) = unit_vector(dx, dy);
    let corr = (rsum - dist) / 2 + SEPARATION_BIAS;
    proof {
        lemma_mul_bound(nx as int, corr as int, DIR_ONE as int, MAX_RADIUS + 1);
        lemma_mul_bound(ny as int, corr as int, DIR_ONE as int, MAX_RADIUS + 1);
        lemma_trunc_div_bound(nx * corr, DIR_ONE as int, MAX_RADIUS + 1);
        lemma_trunc_div_bound(ny * corr, DIR_ONE as int, MAX_RADIUS + 1);
    }
    let cx = div_trunc(nx * corr, DIR_ONE);
    let cy = div_trunc(ny * corr, DIR_ONE);
    shift(&mut a1, -cx, -cy);
    shift(&mut b1, cx, cy);
    let rvx = b.vx - a.vx;
    let rvy = b.vy - a.vy;
    proof {
        lemma_mul_bound(rvx as int, nx as int, 2 * MAX_BASE_SPEED, DIR_ONE as int);
        lemma_mul_bound(rvy as int, ny as int, 2 * MAX_BASE_SPEED, DIR_ONE as int);
        lemma_trunc_div_bound(rvx * nx + rvy * ny, DIR_ONE as int, 4 * MAX_BASE_SPEED);
    }
    proof {
        lemma_mul_bound(rvx as int, dx as int, 2 * MAX_BASE_SPEED, 2 * COORD_LIM);
        lemma_mul_bound(rvy as int, dy as int, 2 * MAX_BASE_SPEED, 2 * COORD_LIM);
    }
    let closing = rvx * dx + rvy * dy;
    if closing >= 0 {
        return (a1, b1);
    }
    let vn = div_trunc(rvx * nx + rvy * ny, DIR_ONE);
    proof {
        lemma_trunc_div_bound(-vn * IMPULSE_PCT, 100, 4 * MAX_BASE_SPEED);
    }
    let j = div_trunc(-vn * IMPULSE_PCT, 100);
    proof {
        lemma_mul_bound(j as int, nx as int, 4 * MAX_BASE_SPEED, DIR_ONE as int);
        lemma_mul_bound(j as int, ny as int, 4 * MAX_BASE_SPEED, DIR_ONE as int);
        lemma_trunc_div_bound(j * nx, DIR_ONE as int, 4 * MAX_BASE_SPEED);
        lemma_trunc_div_bound(j * ny, DIR_ONE as int, 4 * MAX_BASE_SPEED);
    }
    let jx = div_trunc(j * nx, DIR_ONE);
    let jy = div_trunc(j * ny, DIR_ONE);
    set_velocity(&mut a1, a.vx - jx, a.vy - jy);
    set_velocity(&mut b1, b.vx + jx, b.vy + jy);
    if a.team == b.team {
        apply_boost(&mut a1);
        apply_boost(&mut b1);
    }
    (a1, b1)
}

/// Resolves every contact of the roster, pair by pair in `(i, j)` order, each test seeing
/// the positions and velocities left by the ones before. `nudge_of(nudge_x, nudge_y)` is the
/// offset a disc gets when its center coincides with another's.
pub fn resolve_collisions(discs: &mut Vec<Disc>, nudge_x: i64, nudge_y: i64)
    requires
        all_wf(old(discs)@),
    ensures
        final(discs)@ == sweep(
            old(discs)@,
            0,
            old(discs)@.len() as int,
            nudge_of(nudge_x as int, nudge_y as int).0,
            nudge_of(nudge_x as int, nudge_y as int).1,
        ),
        all_wf(final(discs)@),
        same_roster(old(discs)@, final(discs)@),
        speeds_kept(old(discs)@, final(discs)@),
{
    let ux = clamp_i64(nudge_x, -1, 1);
    let uy = clamp_i64(nudge_y, -1, 1);
    let ux = if ux == 0 && uy == 0 {
        1
    } else {
        ux
    };
    let n = discs.len();
    let ghost target = sweep(discs@, 0, n as int, ux as int, uy as int);
    let ghost orig = discs@;
    proof {
        assert forall|k: int| 0 <= k < n implies #[trigger] kept_or_restored(orig[k], discs@[k])
            && orig[k].base_speed <= discs@[k].base_speed <= MAX_BASE_SPEED by {
            assert(orig[k].wf());
        }
    }
    let mut i: usize = 0;
    while i < n
        invariant
            0 <= i <= n,
            discs@.len() == n,
            -1 <= ux <= 1,
            -1 <= uy <= 1,
            sweep(discs@, i as int, n as int, ux as int, uy as int) == target,
            all_wf(discs@),
            same_roster(orig, discs@),
            speeds_kept(orig, discs@),
        decreases n - i,
    {
        let mut j: usize = i + 1;
        while j < n
            invariant
                0 <= i < n,
                i + 1 <= j <= n,
                discs@.len() == n,
                -1 <= ux <= 1,
                -1 <= uy <= 1,
                sweep(sweep_row(discs@, i as int, j as int, ux as int, uy as int), i as int + 1, n as int, ux as int, uy as int) == target,
                all_wf(discs@),
                same_roster(orig, discs@),
                speeds_kept(orig, discs@),
            decreases n - j,
        {
            let a = discs[i];
            let b = discs[j];
            let (a2, b2) = resolve_pair(a, b, ux, uy);
            let ghost before = discs@;
            discs.set(i, a2);
            discs.set(j, b2);
            proof {
                assert(discs@ == apply_pair(before, i as int, j as int, ux as int, uy as int));
                assert(same_roster(orig, discs@));
                lemma_contact_speed(a, b, ux as int, uy as int);
                assert(kept_or_restored(orig[i as int], before[i as int]));
                assert(kept_or_restored(orig[j as int], before[j as int]));
                assert forall|k: int| 0 <= k < n implies #[trigger] kept_or_restored(orig[k], discs@[k])
                    && orig[k].base_speed <= discs@[k].base_speed <= MAX_BASE_SPEED by {
                    assert(kept_or_restored(orig[k], before[k]));
                    assert(discs@[k].wf());
                }
            }
            j = j + 1;
        }
        i = i + 1;
    }
}

/// The velocity of `d` is what restoring its base speed gives for some velocity.
pub open spec fn speed_restored(d: Disc) -> bool {
    exists|vx: int, vy: int| (d.vx as int, d.vy as int) == #[trigger] rescaled(vx, vy, d.base_speed as int)
}

/// `d` has the velocity and base speed of `before`, or a velocity restored to its base speed.
pub open spec fn kept_or_restored(before: Disc, d: Disc) -> bool {
    (d.vx == before.vx && d.vy == before.vy && d.base_speed == before.base_speed)
        || speed_restored(d)
}

/// Every disc of `t` has kept the velocity and base speed it had in `s` or has been brought
/// to its base speed, and no base speed has dropped or passed the ceiling.
pub open spec fn speeds_kept(s: Seq<Disc>, t: Seq<Disc>) -> bool {
    &&& s.len() == t.len()
    &&& forall|k: int|
        0 <= k < s.len() ==> #[trigger] kept_or_restored(s[k], t[k]) && s[k].base_speed
            <= t[k].base_speed <= MAX_BASE_SPEED
}

/// A contact leaves each disc's velocity as it was or at its base speed (see
/// `lemma_speed_restored` for how close), and changes a base speed only by the capped
/// same-team boost.
pub proof fn lemma_contact_speed(a: Disc, b: Disc, ux: int, uy: int)
    requires
        a.wf(),
        b.wf(),
    ensures
        ({
            let p = collide_pair(a, b, ux, uy);
            &&& kept_or_restored(a, p.0)
            &&& kept_or_restored(b, p.1)
            &&& a.base_speed <= p.0.base_speed
            &&& b.base_speed <= p.1.base_speed
            &&& p.0.base_speed == a.base_speed || (a.team == b.team && p.0.base_speed == boosted(
                a.base_speed as int,
            ))
            &&& p.1.base_speed == b.base_speed || (a.team == b.team && p.1.base_speed == boosted(
                b.base_speed as int,
            ))
            &&& p.0.base_speed <= MAX_BASE_SPEED
            &&& p.1.base_speed <= MAX_BASE_SPEED
        }),
{
    let p = collide_pair(a, b, ux, uy);
    let dx = b.x - a.x;
    let dy = b.y - a.y;
    let rsum = a.radius + b.radius;
    let d2 = dx * dx + dy * dy;
    if d2 <= rsum * rsum && sqrt_floor(d2) != 0 {
        let nx = unit_of(dx, dy).0;
        let ny = unit_of(dx, dy).1;
        let vn = trunc_div((b.vx - a.vx) * nx + (b.vy - a.vy) * ny, DIR_ONE as int);
        if (b.vx - a.vx) * dx + (b.vy - a.vy) * dy < 0 {
            let j = trunc_div(-vn * IMPULSE_PCT, 100);
            let jx = trunc_div(j * nx, DIR_ONE as int);
            let jy = trunc_div(j * ny, DIR_ONE as int);
            if a.team == b.team {
                let corr = (rsum - sqrt_floor(d2)) / 2 + SEPARATION_BIAS;
                let cx = trunc_div(nx * corr, DIR_ONE as int);
                let cy = trunc_div(ny * corr, DIR_ONE as int);
                let a2 = with_speed_kept(shifted(a, -cx, -cy), a.vx - jx, a.vy - jy);
                let b2 = with_speed_kept(shifted(b, cx, cy), b.vx + jx, b.vy + jy);
                lemma_rescaled_bound(a2.vx as int, a2.vy as int, p.0.base_speed as int);
                lemma_rescaled_bound(b2.vx as int, b2.vy as int, p.1.base_speed as int);
                assert((p.0.vx as int, p.0.vy as int) == rescaled(a2.vx as int, a2.vy as int, p.0.base_speed as int));
                assert((p.1.vx as int, p.1.vy as int) == rescaled(b2.vx as int, b2.vy as int, p.1.base_speed as int));
            } else {
                lemma_rescaled_bound(a.vx - jx, a.vy - jy, p.0.base_speed as int);
                lemma_rescaled_bound(b.vx + jx, b.vy + jy, p.1.base_speed as int);
                assert((p.0.vx as int, p.0.vy as int) == rescaled(a.vx - jx, a.vy - jy, p.0.base_speed as int));
                assert((p.1.vx as int, p.1.vy as int) == rescaled(b.vx + jx, b.vy + jy, p.1.base_speed as int));
            }
        }
    }
}

} // verus!
