//! The simulation: integration with wall clamps, contacts, claims, scoring and bounces.
use vstd::prelude::*;
use crate::collide::{all_wf, nudge_of, resolve_collisions, same_roster, set_velocity, sweep, with_speed_kept};
use crate::disc::{reflected, Disc, MAX_BASE_SPEED, MAX_RADIUS, VEL_LIM};
use crate::fixed::{clamp_i64, clamp_spec, div_trunc, lemma_trunc_div_bound, trunc_div};
use crate::grid::{
    claim_count, normal_of, normal_sum, painted_all, Cell, Grid, Team, COORD_LIM, DIR_ONE,
    MAX_DIM, UNIT,
};

verus! {

/// Longest simulated step, in microseconds.
pub const MAX_DT_US: i64 = 50_000;

/// Shortest time between two bounces of one disc, in microseconds.
pub const BOUNCE_DEBOUNCE_US: i64 = 15_000;

/// Ceiling of the time-scale multiplier, in hundredths.
pub const MAX_TIME_SCALE: i64 = 625;

/// Most discs per team.
pub const MAX_ROSTER: u32 = 5;

/// Microseconds per second times the hundredths of the time scale.
pub const MOTION_DIVISOR: i64 = 100_000_000;

/// `dt * scale` reaches this at most: fifty milliseconds at the top time scale.
pub const MAX_DT_SCALED: i64 = 31_250_000;

/// The world: board size, grid, roster, clock and scores.
pub struct Simulation {
    pub width: i64,
    pub height: i64,
    pub grid: Grid,
    pub discs: Vec<Disc>,
    pub running: bool,
    /// Time of the last tick, in microseconds.
    pub last_ts: i64,
    /// Time-scale multiplier, in hundredths.
    pub time_scale: i64,
    pub points_white: u64,
    pub points_black: u64,
    /// The scores changed since the scoreboard last read them.
    pub points_dirty: bool,
}

/// Circumradius of the hexes of a `w` by `h` board: a fiftieth of the short side,
/// between 3 and 14 board units, rounded down to a multiple of four fixed-point units so
/// that the column pitch `3r/2` and its half are exact.
pub open spec fn hex_radius(w: int, h: int) -> int {
    let short = if w < h {
        w
    } else {
        h
    };
    clamp_spec(short / 50, 3 * UNIT, 14 * UNIT) / 4 * 4
}

/// `g` is the grid as freshly built for a `w` by `h` board: hex size by the board, its
/// column and row counts, and every hex painted by the midline.
pub open spec fn fresh_grid(g: Grid, w: int, h: int) -> bool {
    &&& g.r == hex_radius(w, h)
    &&& crate::fixed::is_isqrt(3 * g.r * g.r, g.hex_h as int)
    &&& g.cols == crate::grid::spec_cols(w, g.r as int)
    &&& g.rows == crate::grid::spec_rows(h, g.hex_h as int)
    &&& forall|i: int|
        0 <= i < g.cells@.len() ==> #[trigger] g.cells@[i].color == crate::grid::initial_color(
            w,
            g.cells@[i].cx as int,
        )
}

/// The elapsed time of a tick: the gap since the last one, between zero and `MAX_DT_US`.
pub open spec fn frame_dt(ts: int, last: int) -> int {
    clamp_spec(ts - last, 0, MAX_DT_US as int)
}

/// A coordinate and velocity component after the clamp against the walls at `0` and `limit`.
pub open spec fn wall_clamped(p: int, v: int, radius: int, limit: int) -> (int, int) {
    let speed = if v < 0 {
        -v
    } else {
        v
    };
    if p - radius <= 0 {
        (radius, speed)
    } else if p + radius >= limit {
        (limit - radius, -speed)
    } else {
        (p, v)
    }
}

/// `d` after moving for `dt` microseconds at time scale `scale`, clamped to a `w` by `h` board.
pub open spec fn moved(d: Disc, dt: int, scale: int, w: int, h: int) -> Disc {
    let x = d.x + trunc_div(d.vx * dt * scale, MOTION_DIVISOR as int);
    let y = d.y + trunc_div(d.vy * dt * scale, MOTION_DIVISOR as int);
    let cx = wall_clamped(x, d.vx as int, d.radius as int, w);
    let cy = wall_clamped(y, d.vy as int, d.radius as int, h);
    Disc { x: cx.0 as i64, vx: cx.1 as i64, y: cy.0 as i64, vy: cy.1 as i64, ..d }
}

/// The roster after integration and the wall clamps.
pub open spec fn moved_all(s: Seq<Disc>, dt: int, scale: int, w: int, h: int) -> Seq<Disc> {
    Seq::new(s.len(), |k: int| moved(s[k], dt, scale, w, h))
}

/// The bounce of `d` off claimed territory with normal `n` at time `ts`: taken when the
/// debounce window has passed and `d` moves into the territory.
pub open spec fn after_bounce(d: Disc, n: Option<(int, int)>, ts: int) -> Disc {
    match n {
        Some(n) => {
            let dot = trunc_div(d.vx * n.0 + d.vy * n.1, DIR_ONE as int);
            if (d.last_bounce_ts < 0 || ts - d.last_bounce_ts > BOUNCE_DEBOUNCE_US) && dot < 0 {
                let v = reflected(d.vx as int, d.vy as int, n.0, n.1);
                Disc { last_bounce_ts: ts as i64, ..with_speed_kept(d, v.0, v.1) }
            } else {
                d
            }
        },
        None => d,
    }
}

/// The claim pass over the first `k` discs of `s` on a board with hexes `cells`, at time `ts`:
/// the hexes after the claims, the points won by White and by Black, and the discs after
/// their bounces.
pub open spec fn claim_pass(cells: Seq<Cell>, s: Seq<Disc>, k: int, ts: int) -> (
    Seq<Cell>,
    nat,
    nat,
    Seq<Disc>,
)
    decreases k,
{
    if k <= 0 {
        (cells, 0, 0, s)
    } else {
        let prev = claim_pass(cells, s, k - 1, ts);
        let d = s[k - 1];
        let (x, y, r, t) = (d.x as int, d.y as int, d.radius as int, d.team);
        let won = claim_count(prev.0, x, y, r, t);
        let n = normal_of(normal_sum(prev.0, x, y, r, t));
        (
            painted_all(prev.0, x, y, r, t),
            if t == Team::White {
                prev.1 + won
            } else {
                prev.1
            },
            if t == Team::Black {
                prev.2 + won
            } else {
                prev.2
            },
            prev.3.update(k - 1, after_bounce(d, n, ts)),
        )
    }
}

/// `a + b` capped at `u64::MAX`.
pub open spec fn sat_add(a: int, b: int) -> int {
    if a + b > u64::MAX {
        u64::MAX as int
    } else {
        a + b
    }
}

impl Simulation {
    pub open spec fn wf(&self) -> bool {
        &&& 1 <= self.width <= MAX_DIM
        &&& 1 <= self.height <= MAX_DIM
        &&& self.grid.wf()
        &&& self.grid.r == hex_radius(self.width as int, self.height as int)
        &&& all_wf(self.discs@)
        &&& 0 <= self.time_scale <= MAX_TIME_SCALE
    }
}

fn wall_clamp(p: i64, v: i64, radius: i64, limit: i64) -> (res: (i64, i64))
    requires
        -COORD_LIM - 1_000_000 <= p <= COORD_LIM + 1_000_000,
        -VEL_LIM <= v <= VEL_LIM,
        1 <= radius <= MAX_RADIUS,
        1 <= limit <= MAX_DIM,
    ensures
        (res.0 as int, res.1 as int) == wall_clamped(p as int, v as int, radius as int, limit as int),
{
    let speed = if v < 0 {
        -v
    } else {
        v
    };
    if p - radius <= 0 {
        (radius, speed)
    } else if p + radius >= limit {
        (limit - radius, -speed)
    } else {
        (p, v)
    }
}

proof fn lemma_step_bound(v: int, dt: int, scale: int)
    requires
        -MAX_BASE_SPEED <= v <= MAX_BASE_SPEED,
        0 <= dt <= MAX_DT_US,
        0 <= scale <= MAX_TIME_SCALE,
    ensures
        -(MAX_BASE_SPEED * MAX_DT_US) <= v * dt <= MAX_BASE_SPEED * MAX_DT_US,
        -(MAX_BASE_SPEED * MAX_DT_SCALED) <= v * dt * scale <= MAX_BASE_SPEED * MAX_DT_SCALED,
        -200_000 <= trunc_div(v * dt * scale, MOTION_DIVISOR as int) <= 200_000,
{
    assert(0 <= dt * scale <= MAX_DT_SCALED) by (nonlinear_arith)
        requires
            0 <= dt <= MAX_DT_US,
            0 <= scale <= MAX_TIME_SCALE,
    ;
    assert(v * dt * scale == v * (dt * scale)) by (nonlinear_arith);
    assert(-(MAX_BASE_SPEED * MAX_DT_US) <= v * dt <= MAX_BASE_SPEED * MAX_DT_US) by (nonlinear_arith)
        requires
            -MAX_BASE_SPEED <= v <= MAX_BASE_SPEED,
            0 <= dt <= MAX_DT_US,
    ;
    assert(-(MAX_BASE_SPEED * MAX_DT_SCALED) <= v * (dt * scale) <= MAX_BASE_SPEED * MAX_DT_SCALED) by (nonlinear_arith)
        requires
            -MAX_BASE_SPEED <= v <= MAX_BASE_SPEED,
            0 <= dt * scale <= MAX_DT_SCALED,
    ;
    lemma_trunc_div_bound(v * dt * scale, MOTION_DIVISOR as int, 200_000);
}

proof fn lemma_moved_wf(d: Disc, dt: int, scale: int, w: int, h: int)
    requires
        d.wf(),
        0 <= dt <= MAX_DT_US,
        0 <= scale <= MAX_TIME_SCALE,
        1 <= w <= MAX_DIM,
        1 <= h <= MAX_DIM,
    ensures
        moved(d, dt, scale, w, h).wf(),
        moved(d, dt, scale, w, h).team == d.team,
        moved(d, dt, scale, w, h).radius == d.radius,
        moved(d, dt, scale, w, h).base_speed == d.base_speed,
        moved(d, dt, scale, w, h).last_bounce_ts == d.last_bounce_ts,
{
    lemma_step_bound(d.vx as int, dt, scale);
    lemma_step_bound(d.vy as int, dt, scale);
}

/// Moves every disc by its velocity over `dt` microseconds at time scale `scale` (in
/// hundredths), then clamps it against the four walls of a `w` by `h` board.
pub fn integrate_walls(discs: &mut Vec<Disc>, dt: i64, scale: i64, w: i64, h: i64)
    requires
        all_wf(old(discs)@),
        0 <= dt <= MAX_DT_US,
        0 <= scale <= MAX_TIME_SCALE,
        1 <= w <= MAX_DIM,
        1 <= h <= MAX_DIM,
    ensures
        final(discs)@ == moved_all(old(discs)@, dt as int, scale as int, w as int, h as int),
        all_wf(final(discs)@),
        same_roster(old(discs)@, final(discs)@),
{
    let ghost orig = discs@;
    let n = discs.len();
    assert(0 <= dt * scale <= MAX_DT_SCALED) by (nonlinear_arith)
        requires
            0 <= dt <= MAX_DT_US,
            0 <= scale <= MAX_TIME_SCALE,
    ;
    let mut i: usize = 0;
    while i < n
        invariant
            0 <= i <= n,
            n == orig.len(),
            discs@.len() == n,
            0 <= dt <= MAX_DT_US,
            0 <= scale <= MAX_TIME_SCALE,
            0 <= dt * scale <= MAX_DT_SCALED,
            1 <= w <= MAX_DIM,
            1 <= h <= MAX_DIM,
            all_wf(orig),
            forall|k: int| 0 <= k < i ==> #[trigger] discs@[k] == moved(orig[k], dt as int, scale as int, w as int, h as int),
            forall|k: int| i <= k < n ==> #[trigger] discs@[k] == orig[k],
        decreases n - i,
    {
        let d = discs[i];
        assert(orig[i as int].wf());
        proof {
            lemma_step_bound(d.vx as int, dt as int, scale as int);
            lemma_step_bound(d.vy as int, dt as int, scale as int);
        }
        let x = d.x + div_trunc(d.vx * dt * scale, MOTION_DIVISOR);
        let y = d.y + div_trunc(d.vy * dt * scale, MOTION_DIVISOR);
        let (nx, nvx) = wall_clamp(x, d.vx, d.radius, w);
        let (ny, nvy) = wall_clamp(y, d.vy, d.radius, h);
        discs.set(i, Disc { x: nx, vx: nvx, y: ny, vy: nvy, ..d });
        i = i + 1;
    }
    proof {
        assert(discs@ =~= moved_all(orig, dt as int, scale as int, w as int, h as int));
        assert forall|k: int| 0 <= k < n implies #[trigger] discs@[k].wf() by {
            assert(orig[k].wf());
            lemma_moved_wf(orig[k], dt as int, scale as int, w as int, h as int);
        }
    }
}

/// Wall containment: on a board at least one diameter wide and high, a disc ends its
/// move within `[radius, side - radius]` on both axes.
pub proof fn lemma_wall_containment(d: Disc, dt: int, scale: int, w: int, h: int)
    requires
        d.wf(),
        0 <= dt <= MAX_DT_US,
        0 <= scale <= MAX_TIME_SCALE,
        1 <= w <= MAX_DIM,
        1 <= h <= MAX_DIM,
        2 * d.radius <= w,
        2 * d.radius <= h,
    ensures
        d.radius <= moved(d, dt, scale, w, h).x <= w - d.radius,
        d.radius <= moved(d, dt, scale, w, h).y <= h - d.radius,
{
    lemma_step_bound(d.vx as int, dt, scale);
    lemma_step_bound(d.vy as int, dt, scale);
}

/// A bounce normal read as integers.
pub open spec fn int_normal(n: Option<(i64, i64)>) -> Option<(int, int)> {
    match n {
        Some(p) => Some((p.0 as int, p.1 as int)),
        None => None,
    }
}

/// `d` after a possible bounce off territory with normal `n` at time `ts`.
pub fn bounce(d: Disc, n: Option<(i64, i64)>, ts: i64) -> (res: Disc)
    requires
        d.wf(),
        match n {
            Some(p) => -DIR_ONE <= p.0 <= DIR_ONE && -DIR_ONE <= p.1 <= DIR_ONE,
            None => true,
        },
    ensures
        res == after_bounce(d, int_normal(n), ts as int),
        res.wf(),
        res.team == d.team,
        res.radius == d.radius,
        res.x == d.x,
        res.y == d.y,
{
    match n {
        Some((nx, ny)) => {
            let debounced = d.last_bounce_ts < 0 || (ts as i128) - (d.last_bounce_ts as i128)
                > BOUNCE_DEBOUNCE_US as i128;
            proof {
                crate::collide::lemma_mul_bound(d.vx as int, nx as int, MAX_BASE_SPEED as int, DIR_ONE as int);
                crate::collide::lemma_mul_bound(d.vy as int, ny as int, MAX_BASE_SPEED as int, DIR_ONE as int);
                lemma_trunc_div_bound(d.vx * nx + d.vy * ny, DIR_ONE as int, 2 * MAX_BASE_SPEED);
            }
            let dot = div_trunc(d.vx * nx + d.vy * ny, DIR_ONE);
            if debounced && dot < 0 {
                proof {
                    crate::collide::lemma_mul_bound(2 * dot, nx as int, 4 * MAX_BASE_SPEED as int, DIR_ONE as int);
                    crate::collide::lemma_mul_bound(2 * dot, ny as int, 4 * MAX_BASE_SPEED as int, DIR_ONE as int);
                    lemma_trunc_div_bound(2 * dot * nx, DIR_ONE as int, 4 * MAX_BASE_SPEED);
                    lemma_trunc_div_bound(2 * dot * ny, DIR_ONE as int, 4 * MAX_BASE_SPEED);
                }
                let rx = d.vx - div_trunc(2 * dot * nx, DIR_ONE);
                let ry = d.vy - div_trunc(2 * dot * ny, DIR_ONE);
                let mut out = d;
                set_velocity(&mut out, rx, ry);
                out.last_bounce_ts = ts;
                out
            } else {
                d
            }
        },
        None => d,
    }
}

impl Simulation {
    /// Claims territory for every disc in roster order, adds the points won and bounces
    /// each disc off the territory it invades.
    fn claim_all(&mut self, ts: i64)
        requires
            old(self).wf(),
        ensures
            final(self).wf(),
            ({
                let p = claim_pass(old(self).grid.cells@, old(self).discs@, old(self).discs@.len() as int, ts as int);
                &&& final(self).grid.cells@ == p.0
                &&& final(self).discs@ == p.3
                &&& final(self).points_white == sat_add(old(self).points_white as int, p.1 as int)
                &&& final(self).points_black == sat_add(old(self).points_black as int, p.2 as int)
                &&& final(self).points_dirty == (old(self).points_dirty || p.1 + p.2 > 0)
            }),
            final(self).width == old(self).width,
            final(self).height == old(self).height,
            final(self).running == old(self).running,
            final(self).last_ts == old(self).last_ts,
            final(self).time_scale == old(self).time_scale,
            final(self).grid.cols == old(self).grid.cols,
            final(self).grid.rows == old(self).grid.rows,
    {
        let ghost cells0 = self.grid.cells@;
        let ghost start = self.discs@;
        let ghost pw0 = self.points_white as int;
        let ghost pb0 = self.points_black as int;
        let ghost dirty0 = self.points_dirty;
        let n = self.discs.len();
        let mut i: usize = 0;
        while i < n
            invariant
                0 <= i <= n,
                n == start.len(),
                self.discs@.len() == n,
                self.wf(),
                self.width == old(self).width,
                self.height == old(self).height,
                self.running == old(self).running,
                self.last_ts == old(self).last_ts,
                self.time_scale == old(self).time_scale,
                self.grid.cols == old(self).grid.cols,
                self.grid.rows == old(self).grid.rows,
                cells0 == old(self).grid.cells@,
                start == old(self).discs@,
                pw0 == old(self).points_white,
                pb0 == old(self).points_black,
                dirty0 == old(self).points_dirty,
                ({
                    let p = claim_pass(cells0, start, i as int, ts as int);
                    &&& self.grid.cells@ == p.0
                    &&& self.discs@ == p.3
                    &&& self.points_white == sat_add(pw0, p.1 as int)
                    &&& self.points_black == sat_add(pb0, p.2 as int)
                    &&& self.points_dirty == (dirty0 || p.1 + p.2 > 0)
                }),
                forall|k: int| i <= k < n ==> #[trigger] self.discs@[k] == start[k],
            decreases n - i,
        {
            let d = self.discs[i];
            assert(self.discs@[i as int].wf());
            let (add_white, add_black, normal) = self.grid.flip_disc(d.x, d.y, d.radius, d.team);
            if add_white > 0 {
                self.points_white = if (self.points_white as u128) + (add_white as u128) > u64::MAX as u128 {
                    u64::MAX
                } else {
                    self.points_white + add_white as u64
                };
                self.points_dirty = true;
            }
            if add_black > 0 {
                self.points_black = if (self.points_black as u128) + (add_black as u128) > u64::MAX as u128 {
                    u64::MAX
                } else {
                    self.points_black + add_black as u64
                };
                self.points_dirty = true;
            }
            let nd = bounce(d, normal, ts);
            self.discs.set(i, nd);
            i = i + 1;
        }
    }
}

/// The random draws that place one new disc: horizontal and vertical fractions of its home
/// area (over `2^32`) and a heading, whose horizontal sense the library sets by team.
#[derive(Clone, Copy, Debug)]
pub struct SpawnRoll {
    pub fx: u32,
    pub fy: u32,
    pub dir_x: i64,
    pub dir_y: i64,
}

/// Denominator of the spawn fractions.
pub const FRACTION_ONE: i64 = 0x1_0000_0000;

/// Radius of the discs on a board with hexes of circumradius `r`.
pub open spec fn disc_radius(r: int) -> int {
    clamp_spec(r * 18 / 10, 6 * UNIT, 22 * UNIT)
}

/// Starting speed of the discs on a board with hexes of circumradius `r`.
pub open spec fn spawn_speed(r: int) -> int {
    clamp_spec(r * 20, 200 * UNIT, 480 * UNIT)
}

/// The point at fraction `f / 2^32` of the way from `lo` to `hi`.
pub open spec fn lerp(lo: int, hi: int, f: int) -> int {
    lo + trunc_div((hi - lo) * f, FRACTION_ONE as int)
}

/// The roll for disc `k`; missing rolls count as all zero.
pub open spec fn roll_at(rolls: Seq<SpawnRoll>, k: int) -> SpawnRoll {
    if 0 <= k < rolls.len() {
        rolls[k]
    } else {
        SpawnRoll { fx: 0, fy: 0, dir_x: 0, dir_y: 0 }
    }
}

/// Numerator of the spawn cone's slope limit, `tan(0.35 * pi)`, over `CONE_DEN`.
pub const CONE_NUM: i64 = 19_626;

/// Denominator of the spawn cone's slope limit.
pub const CONE_DEN: i64 = 10_000;

/// Largest horizontal heading component taken from a roll.
pub const HEADING_LIM: i64 = 50_000_000;

/// `(vx, vy)` points within the spawn cone around the horizontal direction `sense`
/// (`1` right, `-1` left).
pub open spec fn in_cone(vx: int, vy: int, sense: int) -> bool {
    &&& sense * vx > 0
    &&& CONE_DEN * crate::disc::abs(vy) <= CONE_NUM * (sense * vx)
}

/// The heading of a new disc of team `t`: White heads right, Black heads left, and the
/// vertical part is limited to the cone of `0.35 * pi` around straight across.
pub open spec fn spawn_heading(roll: SpawnRoll, t: Team) -> (int, int) {
    let dx = clamp_spec(roll.dir_x as int, -HEADING_LIM as int, HEADING_LIM as int);
    let ax = if dx < 0 {
        -dx
    } else if dx == 0 {
        1
    } else {
        dx
    };
    let lim = CONE_NUM * ax / (CONE_DEN as int);
    let dy = clamp_spec(roll.dir_y as int, -lim, lim);
    if t == Team::White {
        (ax, dy)
    } else {
        (-ax, dy)
    }
}

/// The horizontal sense of team `t`'s heading.
pub open spec fn team_sense(t: Team) -> int {
    if t == Team::White {
        1
    } else {
        -1
    }
}

/// A new disc of team `t` on a `w` by `h` board with hexes of circumradius `r`: its
/// velocity is the heading at the starting speed, the vertical part kept in the cone once
/// rounded.
pub open spec fn spawned(roll: SpawnRoll, t: Team, r: int, w: int, h: int) -> Disc {
    let rad = disc_radius(r);
    let speed = spawn_speed(r);
    let x = if t == Team::White {
        lerp(rad + UNIT, w / 4, roll.fx as int)
    } else {
        lerp(3 * w / 4, w - rad - UNIT, roll.fx as int)
    };
    let y = lerp(rad + UNIT, h - rad - UNIT, roll.fy as int);
    let hd = spawn_heading(roll, t);
    let v = crate::disc::rescaled(hd.0, hd.1, speed);
    let lim = CONE_NUM * crate::disc::abs(v.0) / (CONE_DEN as int);
    Disc {
        x: x as i64,
        y: y as i64,
        vx: v.0 as i64,
        vy: clamp_spec(v.1, -lim, lim) as i64,
        team: t,
        radius: rad as i64,
        base_speed: speed as i64,
        last_bounce_ts: -1i64,
    }
}

/// The first `n` discs of `s` (White) head right within the spawn cone, the next `n`
/// (Black) head left within it.
pub open spec fn roster_in_cone(s: Seq<Disc>, n: int) -> bool {
    &&& forall|k: int| 0 <= k < n ==> in_cone(#[trigger] s[k].vx as int, s[k].vy as int, 1)
    &&& forall|k: int| n <= k < 2 * n ==> in_cone(#[trigger] s[k].vx as int, s[k].vy as int, -1)
}

/// A heading with a horizontal part `sense * ax`, `ax >= 1`, inside the cone keeps a
/// horizontal part of that sense, at least one unit, once brought to a speed `s >= 3`.
proof fn lemma_heading_sense(ax: int, dy: int, s: int, sense: int)
    requires
        ax >= 1,
        CONE_DEN * crate::disc::abs(dy) <= CONE_NUM * ax,
        s >= 3,
        sense == 1 || sense == -1,
    ensures
        sense * crate::disc::rescaled(sense * ax, dy, s).0 >= 1,
{
    let k = crate::disc::SPEED_PRECISION as int;
    let a = ax * k;
    let b = dy * k;
    let sa = (sense * ax) * k;
    assert(sa * sa == a * a) by (nonlinear_arith)
        requires
            sa == (sense * ax) * k,
            a == ax * k,
            sense == 1 || sense == -1,
    ;
    assert(dy * dy <= 4 * ax * ax) by (nonlinear_arith)
        requires
            -2 * ax <= dy <= 2 * ax,
            ax >= 1,
    ;
    let n = a * a + b * b;
    assert(0 < a * a && a * a <= n && n <= 5 * (a * a)) by (nonlinear_arith)
        requires
            a == ax * k,
            b == dy * k,
            n == a * a + b * b,
            dy * dy <= 4 * ax * ax,
            ax >= 1,
            k > 0,
    ;
    crate::disc::lemma_isqrt_exists(n);
    let m = crate::grid::sqrt_floor(n);
    assert(0 < m < 3 * a) by (nonlinear_arith)
        requires
            m >= 0,
            m * m <= n,
            n < (m + 1) * (m + 1),
            0 < a * a,
            a * a <= n,
            n <= 5 * (a * a),
            a > 0,
    ;
    assert(a * s >= m) by (nonlinear_arith)
        requires
            m < 3 * a,
            s >= 3,
            a > 0,
    ;
    vstd::arithmetic::div_mod::lemma_div_is_ordered(m, a * s, m);
    vstd::arithmetic::div_mod::lemma_div_by_multiple(1, m);
    assert(sa * s == sense * (a * s)) by (nonlinear_arith)
        requires
            sa == (sense * ax) * k,
            a == ax * k,
    ;
    assert(a * s >= 0) by (nonlinear_arith)
        requires
            a > 0,
            s >= 3,
    ;
}

/// A fresh roster of `n` White discs followed by `n` Black discs.
pub open spec fn roster(rolls: Seq<SpawnRoll>, n: int, r: int, w: int, h: int) -> Seq<Disc> {
    Seq::new(
        (2 * n) as nat,
        |k: int|
            if k < n {
                spawned(roll_at(rolls, k), Team::White, r, w, h)
            } else {
                spawned(roll_at(rolls, k), Team::Black, r, w, h)
            },
    )
}

fn lerp_exec(lo: i64, hi: i64, f: u32) -> (res: i64)
    requires
        -2 * MAX_DIM <= lo <= 2 * MAX_DIM,
        -2 * MAX_DIM <= hi <= 2 * MAX_DIM,
    ensures
        res == lerp(lo as int, hi as int, f as int),
        -6 * MAX_DIM <= res <= 6 * MAX_DIM,
{
    proof {
        crate::collide::lemma_mul_bound((hi - lo) as int, f as int, 4 * MAX_DIM as int, FRACTION_ONE as int);
        lemma_trunc_div_bound((hi - lo) * f, FRACTION_ONE as int, 4 * MAX_DIM as int);
    }
    lo + div_trunc((hi - lo) * (f as i64), FRACTION_ONE)
}

fn spawn_one(roll: SpawnRoll, t: Team, r: i64, w: i64, h: i64) -> (d: Disc)
    requires
        3 * UNIT <= r <= 14 * UNIT,
        1 <= w <= MAX_DIM,
        1 <= h <= MAX_DIM,
    ensures
        d == spawned(roll, t, r as int, w as int, h as int),
        d.wf(),
        d.team == t,
        in_cone(d.vx as int, d.vy as int, team_sense(t)),
{
    let rad = clamp_i64(r * 18 / 10, 6 * UNIT, 22 * UNIT);
    let speed = clamp_i64(r * 20, 200 * UNIT, 480 * UNIT);
    let x = match t {
        Team::White => lerp_exec(rad + UNIT, w / 4, roll.fx),
        Team::Black => lerp_exec(3 * w / 4, w - rad - UNIT, roll.fx),
    };
    let y = lerp_exec(rad + UNIT, h - rad - UNIT, roll.fy);
    let dx = clamp_i64(roll.dir_x, -HEADING_LIM, HEADING_LIM);
    let ax = if dx < 0 {
        -dx
    } else if dx == 0 {
        1
    } else {
        dx
    };
    let lim = CONE_NUM * ax / CONE_DEN;
    let dy = clamp_i64(roll.dir_y, -lim, lim);
    let hx = match t {
        Team::White => ax,
        Team::Black => -ax,
    };
    proof {
        if t == Team::White {
            lemma_heading_sense(ax as int, dy as int, speed as int, 1);
            assert(1 * ax == hx);
        } else {
            lemma_heading_sense(ax as int, dy as int, speed as int, -1);
            assert(-1 * ax == hx);
        }
    }
    let mut d = Disc { x, y, vx: hx, vy: dy, team: t, radius: rad, base_speed: speed, last_bounce_ts: -1 };
    d.maintain_speed();
    let avx = if d.vx < 0 {
        -d.vx
    } else {
        d.vx
    };
    let vlim = CONE_NUM * avx / CONE_DEN;
    d.vy = clamp_i64(d.vy, -vlim, vlim);
    proof {
        assert(team_sense(t) * d.vx >= 1);
        assert(avx == team_sense(t) * d.vx);
        assert(CONE_DEN * vlim <= CONE_NUM * avx);
        assert(CONE_DEN * crate::disc::abs(d.vy as int) <= CONE_DEN * vlim);
    }
    d
}

/// A roster of `n` discs per team, placed and headed by `rolls` (one per disc, White first).
pub fn spawn_roster(rolls: &Vec<SpawnRoll>, n: u32, r: i64, w: i64, h: i64) -> (s: Vec<Disc>)
    requires
        n <= MAX_ROSTER,
        3 * UNIT <= r <= 14 * UNIT,
        1 <= w <= MAX_DIM,
        1 <= h <= MAX_DIM,
    ensures
        s@ == roster(rolls@, n as int, r as int, w as int, h as int),
        all_wf(s@),
        roster_in_cone(s@, n as int),
{
    let total: usize = 2 * (n as usize);
    let mut out: Vec<Disc> = Vec::new();
    let mut k: usize = 0;
    while k < total
        invariant
            0 <= k <= total,
            total == 2 * n,
            n <= MAX_ROSTER,
            3 * UNIT <= r <= 14 * UNIT,
            1 <= w <= MAX_DIM,
            1 <= h <= MAX_DIM,
            out@.len() == k,
            forall|j: int| 0 <= j < k ==> #[trigger] out@[j] == roster(rolls@, n as int, r as int, w as int, h as int)[j],
            all_wf(out@),
            forall|j: int| 0 <= j < k ==> in_cone(#[trigger] out@[j].vx as int, out@[j].vy as int, if j < n { 1 } else { -1 }),
        decreases total - k,
    {
        let roll = if k < rolls.len() {
            rolls[k]
        } else {
            SpawnRoll { fx: 0, fy: 0, dir_x: 0, dir_y: 0 }
        };
        let t = if k < n as usize {
            Team::White
        } else {
            Team::Black
        };
        let d = spawn_one(roll, t, r, w, h);
        out.push(d);
        k = k + 1;
    }
    proof {
        assert(out@ =~= roster(rolls@, n as int, r as int, w as int, h as int));
    }
    out
}

fn hex_radius_exec(w: i64, h: i64) -> (r: i64)
    requires
        1 <= w <= MAX_DIM,
        1 <= h <= MAX_DIM,
    ensures
        r == hex_radius(w as int, h as int),
        3 * UNIT <= r <= 14 * UNIT,
{
    let short = if w < h {
        w
    } else {
        h
    };
    clamp_i64(short / 50, 3 * UNIT, 14 * UNIT) / 4 * 4
}

/// A coordinate kept on a board side of length `limit` for a disc of radius `radius`:
/// within `[radius, limit - radius]`, or at `radius` where the side is shorter than the disc.
pub open spec fn refit(p: int, radius: int, limit: int) -> int {
    let hi = if limit - radius < radius {
        radius
    } else {
        limit - radius
    };
    clamp_spec(p, radius, hi)
}

/// The disc `d` kept on a `w` by `h` board.
pub open spec fn refitted(d: Disc, w: int, h: int) -> Disc {
    Disc {
        x: refit(d.x as int, d.radius as int, w) as i64,
        y: refit(d.y as int, d.radius as int, h) as i64,
        ..d
    }
}

fn refit_exec(p: i64, radius: i64, limit: i64) -> (res: i64)
    requires
        1 <= radius <= MAX_RADIUS,
        1 <= limit <= MAX_DIM,
    ensures
        res == refit(p as int, radius as int, limit as int),
{
    let hi = if limit - radius < radius {
        radius
    } else {
        limit - radius
    };
    clamp_i64(p, radius, hi)
}

impl Simulation {
    /// A stopped simulation on a `w` by `h` board, at time scale one and with no discs.
    pub fn new(w: i64, h: i64) -> (sim: Simulation)
        requires
            1 <= w <= MAX_DIM,
            1 <= h <= MAX_DIM,
        ensures
            sim.wf(),
            sim.width == w,
            sim.height == h,
            fresh_grid(sim.grid, w as int, h as int),
            sim.discs@.len() == 0,
            !sim.running,
            sim.last_ts == 0,
            sim.time_scale == 100,
            sim.points_white == 0,
            sim.points_black == 0,
            sim.points_dirty,
    {
        let r = hex_radius_exec(w, h);
        let grid = Grid::new(w, h, r);
        Simulation {
            width: w,
            height: h,
            grid,
            discs: Vec::new(),
            running: false,
            last_ts: 0,
            time_scale: 100,
            points_white: 0,
            points_black: 0,
            points_dirty: true,
        }
    }

    /// Advances the world to time `ts` (microseconds): integration with wall clamps over the
    /// elapsed time (at most `MAX_DT_US`), contact resolution with the given nudge for
    /// coincident centers, then claims, scoring and bounces in roster order.
    pub fn tick(&mut self, ts: i64, nudge_x: i64, nudge_y: i64)
        requires
            old(self).wf(),
        ensures
            final(self).wf(),
            ({
                let dt = frame_dt(ts as int, old(self).last_ts as int);
                let n = old(self).discs@.len() as int;
                let moved = moved_all(
                    old(self).discs@,
                    dt,
                    old(self).time_scale as int,
                    old(self).width as int,
                    old(self).height as int,
                );
                let hit = sweep(
                    moved,
                    0,
                    n,
                    nudge_of(nudge_x as int, nudge_y as int).0,
                    nudge_of(nudge_x as int, nudge_y as int).1,
                );
                let p = claim_pass(old(self).grid.cells@, hit, n, ts as int);
                &&& final(self).grid.cells@ == p.0
                &&& final(self).discs@ == p.3
                &&& final(self).points_white == sat_add(old(self).points_white as int, p.1 as int)
                &&& final(self).points_black == sat_add(old(self).points_black as int, p.2 as int)
                &&& final(self).points_dirty == (old(self).points_dirty || p.1 + p.2 > 0)
            }),
            final(self).last_ts == ts,
            final(self).width == old(self).width,
            final(self).height == old(self).height,
            final(self).running == old(self).running,
            final(self).time_scale == old(self).time_scale,
            final(self).grid.cols == old(self).grid.cols,
            final(self).grid.rows == old(self).grid.rows,
    {
        let gap = (ts as i128) - (self.last_ts as i128);
        let dt: i64 = if gap < 0 {
            0
        } else if gap > MAX_DT_US as i128 {
            MAX_DT_US
        } else {
            gap as i64
        };
        self.last_ts = ts;
        integrate_walls(&mut self.discs, dt, self.time_scale, self.width, self.height);
        resolve_collisions(&mut self.discs, nudge_x, nudge_y);
        self.claim_all(ts);
    }

    /// Reads and clears the flag that tells the scoreboard the scores changed.
    pub fn take_points_dirty(&mut self) -> (dirty: bool)
        ensures
            dirty == old(self).points_dirty,
            !final(self).points_dirty,
            final(self).grid == old(self).grid,
            final(self).discs == old(self).discs,
            final(self).running == old(self).running,
            final(self).last_ts == old(self).last_ts,
            final(self).width == old(self).width,
            final(self).height == old(self).height,
            final(self).time_scale == old(self).time_scale,
            final(self).points_white == old(self).points_white,
            final(self).points_black == old(self).points_black,
    {
        let d = self.points_dirty;
        self.points_dirty = false;
        d
    }
}

/// Starts the simulation at time `now`; a running one is left as it is.
pub fn start(sim: &mut Simulation, now: i64)
    ensures
        final(sim).running,
        final(sim).last_ts == (if old(sim).running {
            old(sim).last_ts
        } else {
            now
        }),
        final(sim).grid == old(sim).grid,
        final(sim).discs == old(sim).discs,
        final(sim).width == old(sim).width,
        final(sim).height == old(sim).height,
        final(sim).time_scale == old(sim).time_scale,
        final(sim).points_white == old(sim).points_white,
        final(sim).points_black == old(sim).points_black,
        final(sim).points_dirty == old(sim).points_dirty,
{
    if !sim.running {
        sim.running = true;
        sim.last_ts = now;
    }
}

/// Stops the simulation.
pub fn stop(sim: &mut Simulation)
    ensures
        !final(sim).running,
        final(sim).last_ts == old(sim).last_ts,
        final(sim).grid == old(sim).grid,
        final(sim).discs == old(sim).discs,
        final(sim).width == old(sim).width,
        final(sim).height == old(sim).height,
        final(sim).time_scale == old(sim).time_scale,
        final(sim).points_white == old(sim).points_white,
        final(sim).points_black == old(sim).points_black,
        final(sim).points_dirty == old(sim).points_dirty,
{
    sim.running = false;
}

/// Sets the time scale (in hundredths), limited to `[0, MAX_TIME_SCALE]`.
pub fn set_speed(sim: &mut Simulation, mul: i64)
    requires
        old(sim).wf(),
    ensures
        final(sim).wf(),
        final(sim).time_scale == clamp_spec(mul as int, 0, MAX_TIME_SCALE as int),
        final(sim).running == old(sim).running,
        final(sim).last_ts == old(sim).last_ts,
        final(sim).grid == old(sim).grid,
        final(sim).discs == old(sim).discs,
        final(sim).width == old(sim).width,
        final(sim).height == old(sim).height,
        final(sim).points_white == old(sim).points_white,
        final(sim).points_black == old(sim).points_black,
        final(sim).points_dirty == old(sim).points_dirty,
{
    sim.time_scale = clamp_i64(mul, 0, MAX_TIME_SCALE);
}

/// Replaces the roster with `min(per_team, MAX_ROSTER)` discs per team, placed and
/// headed by `rolls`.
pub fn set_balls_per_team(sim: &mut Simulation, per_team: u32, rolls: &Vec<SpawnRoll>)
    requires
        old(sim).wf(),
    ensures
        final(sim).wf(),
        final(sim).discs@ == roster(
            rolls@,
            if per_team > MAX_ROSTER {
                MAX_ROSTER as int
            } else {
                per_team as int
            },
            old(sim).grid.r as int,
            old(sim).width as int,
            old(sim).height as int,
        ),
        roster_in_cone(final(sim).discs@, if per_team > MAX_ROSTER {
            MAX_ROSTER as int
        } else {
            per_team as int
        }),
        final(sim).running == old(sim).running,
        final(sim).last_ts == old(sim).last_ts,
        final(sim).grid == old(sim).grid,
        final(sim).width == old(sim).width,
        final(sim).height == old(sim).height,
        final(sim).time_scale == old(sim).time_scale,
        final(sim).points_white == old(sim).points_white,
        final(sim).points_black == old(sim).points_black,
        final(sim).points_dirty == old(sim).points_dirty,
{
    let n = if per_team > MAX_ROSTER {
        MAX_ROSTER
    } else {
        per_team
    };
    sim.discs = spawn_roster(rolls, n, sim.grid.r, sim.width, sim.height);
}

/// Rebuilds the grid, painted by the midline again, and zeroes both scores; the roster
/// stays.
pub fn reset_grid(sim: &mut Simulation)
    requires
        old(sim).wf(),
    ensures
        final(sim).wf(),
        fresh_grid(final(sim).grid, old(sim).width as int, old(sim).height as int),
        final(sim).points_white == 0,
        final(sim).points_black == 0,
        final(sim).points_dirty,
        final(sim).discs == old(sim).discs,
        final(sim).running == old(sim).running,
        final(sim).last_ts == old(sim).last_ts,
        final(sim).width == old(sim).width,
        final(sim).height == old(sim).height,
        final(sim).time_scale == old(sim).time_scale,
{
    let r = hex_radius_exec(sim.width, sim.height);
    sim.grid = Grid::new(sim.width, sim.height, r);
    sim.points_white = 0;
    sim.points_black = 0;
    sim.points_dirty = true;
}

/// Resizes the board to `w` by `h`: rebuilds the grid and keeps every disc on the board,
/// velocities untouched.
pub fn resize(sim: &mut Simulation, w: i64, h: i64)
    requires
        old(sim).wf(),
        1 <= w <= MAX_DIM,
        1 <= h <= MAX_DIM,
    ensures
        final(sim).wf(),
        final(sim).width == w,
        final(sim).height == h,
        fresh_grid(final(sim).grid, w as int, h as int),
        final(sim).discs@.len() == old(sim).discs@.len(),
        forall|k: int|
            0 <= k < old(sim).discs@.len() ==> #[trigger] final(sim).discs@[k] == refitted(
                old(sim).discs@[k],
                w as int,
                h as int,
            ),
        final(sim).running == old(sim).running,
        final(sim).last_ts == old(sim).last_ts,
        final(sim).time_scale == old(sim).time_scale,
        final(sim).points_white == old(sim).points_white,
        final(sim).points_black == old(sim).points_black,
        final(sim).points_dirty == old(sim).points_dirty,
{
    sim.width = w;
    sim.height = h;
    let r = hex_radius_exec(w, h);
    sim.grid = Grid::new(w, h, r);
    let ghost orig = sim.discs@;
    let n = sim.discs.len();
    let mut i: usize = 0;
    while i < n
        invariant
            0 <= i <= n,
            n == orig.len(),
            sim.discs@.len() == n,
            1 <= w <= MAX_DIM,
            1 <= h <= MAX_DIM,
            all_wf(orig),
            orig == old(sim).discs@,
            sim.width == w,
            sim.height == h,
            sim.grid.wf(),
            fresh_grid(sim.grid, w as int, h as int),
            sim.running == old(sim).running,
            sim.last_ts == old(sim).last_ts,
            sim.time_scale == old(sim).time_scale,
            0 <= sim.time_scale <= MAX_TIME_SCALE,
            sim.points_white == old(sim).points_white,
            sim.points_black == old(sim).points_black,
            sim.points_dirty == old(sim).points_dirty,
            forall|k: int| 0 <= k < i ==> #[trigger] sim.discs@[k] == refitted(orig[k], w as int, h as int),
            forall|k: int| i <= k < n ==> #[trigger] sim.discs@[k] == orig[k],
        decreases n - i,
    {
        let d = sim.discs[i];
        assert(orig[i as int].wf());
        let x = refit_exec(d.x, d.radius, w);
        let y = refit_exec(d.y, d.radius, h);
        sim.discs.set(i, Disc { x, y, ..d });
        i = i + 1;
    }
    proof {
        assert forall|k: int| 0 <= k < n implies #[trigger] sim.discs@[k].wf() by {
            assert(orig[k].wf());
        }
    }
}


/// Same as `set_balls_per_team`.
pub fn set_num_balls(sim: &mut Simulation, n: u32, rolls: &Vec<SpawnRoll>)
    requires
        old(sim).wf(),
    ensures
        final(sim).wf(),
        final(sim).discs@ == roster(
            rolls@,
            if n > MAX_ROSTER {
                MAX_ROSTER as int
            } else {
                n as int
            },
            old(sim).grid.r as int,
            old(sim).width as int,
            old(sim).height as int,
        ),
        roster_in_cone(final(sim).discs@, if n > MAX_ROSTER {
            MAX_ROSTER as int
        } else {
            n as int
        }),
        final(sim).grid == old(sim).grid,
        final(sim).running == old(sim).running,
        final(sim).last_ts == old(sim).last_ts,
        final(sim).width == old(sim).width,
        final(sim).height == old(sim).height,
        final(sim).time_scale == old(sim).time_scale,
        final(sim).points_white == old(sim).points_white,
        final(sim).points_black == old(sim).points_black,
        final(sim).points_dirty == old(sim).points_dirty,
{
    set_balls_per_team(sim, n, rolls);
}

/// A stopped simulation on a `w` by `h` board with time scale `speed` (in hundredths,
/// limited to `[0, MAX_TIME_SCALE]`) and `min(balls_per_team, MAX_ROSTER)` discs per team.
pub fn init_app(w: i64, h: i64, balls_per_team: u32, speed: i64, rolls: &Vec<SpawnRoll>) -> (sim: Simulation)
    requires
        1 <= w <= MAX_DIM,
        1 <= h <= MAX_DIM,
    ensures
        sim.wf(),
        sim.width == w,
        sim.height == h,
        fresh_grid(sim.grid, w as int, h as int),
        sim.time_scale == clamp_spec(speed as int, 0, MAX_TIME_SCALE as int),
        sim.discs@ == roster(
            rolls@,
            if balls_per_team > MAX_ROSTER {
                MAX_ROSTER as int
            } else {
                balls_per_team as int
            },
            hex_radius(w as int, h as int),
            w as int,
            h as int,
        ),
        roster_in_cone(sim.discs@, if balls_per_team > MAX_ROSTER {
            MAX_ROSTER as int
        } else {
            balls_per_team as int
        }),
        !sim.running,
        sim.last_ts == 0,
        sim.points_white == 0,
        sim.points_black == 0,
        sim.points_dirty,
{
    let mut sim = Simulation::new(w, h);
    set_speed(&mut sim, speed);
    set_balls_per_team(&mut sim, balls_per_team, rolls);
    sim
}

} // verus!
