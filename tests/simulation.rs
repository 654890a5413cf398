use hexclaim::collide::resolve_collisions;
use hexclaim::disc::Disc;
use hexclaim::grid::{Grid, HexColor, Team, DIR_ONE, UNIT};
use hexclaim::sim::{
    init_app, integrate_walls, reset_grid, resize, set_balls_per_team, set_num_balls, set_speed, start, stop,
    Simulation, SpawnRoll,
};

fn disc(x: i64, y: i64, vx: i64, vy: i64, team: Team, radius: i64, base: i64) -> Disc {
    Disc { x, y, vx, vy, team, radius, base_speed: base, last_bounce_ts: -1 }
}

fn rolls(n: usize) -> Vec<SpawnRoll> {
    (0..n)
        .map(|k| SpawnRoll {
            fx: (k as u32).wrapping_mul(0x3000_0000),
            fy: (k as u32).wrapping_mul(0x2100_0000),
            dir_x: 1000,
            dir_y: (k as i64) * 300 - 600,
        })
        .collect()
}

#[test]
fn grid_center_round_trip() {
    let g = Grid::new(500 * UNIT, 300 * UNIT, 10 * UNIT);
    for c in 0..g.cols {
        for k in 0..g.rows {
            let cell = g.cells[c * g.rows + k];
            assert_eq!(cell.col, c);
            assert_eq!(cell.row, k);
            assert_eq!(g.center_to_index(cell.cx, cell.cy), Some(c * g.rows + k));
        }
    }
}

#[test]
fn grid_layout_500_by_300() {
    let g = Grid::new(500 * UNIT, 300 * UNIT, 10 * UNIT);
    assert!(g.cols >= 1);
    assert_eq!(g.hex_h, 17320);
    // Columns: 10 + 15c + 10 <= 499.
    assert_eq!(g.cols, 32);
    // Rows: even columns fit 16, odd columns 16 as well; the smaller count is used by both.
    assert_eq!(g.rows, 16);
    assert_eq!(g.cells.len(), g.cols * g.rows);
    for c in 0..g.cols {
        let in_col = g.cells.iter().filter(|cell| cell.col == c).count();
        assert_eq!(in_col, g.rows);
    }
    for cell in &g.cells {
        let expect = if cell.cx < 250 * UNIT { HexColor::White } else { HexColor::Black };
        assert_eq!(cell.color, expect);
    }
    let first = g.cells[0];
    assert_eq!((first.cx, first.cy), (10_000, 8660));
    let odd = g.cells[g.rows];
    assert_eq!((odd.cx, odd.cy), (25_000, 17_320));
}

#[test]
fn locate_off_grid() {
    let g = Grid::new(500 * UNIT, 300 * UNIT, 10 * UNIT);
    assert_eq!(g.center_to_index(-50 * UNIT, 100 * UNIT), None);
    assert_eq!(g.center_to_index(100 * UNIT, -50 * UNIT), None);
    assert_eq!(g.center_to_index(900 * UNIT, 100 * UNIT), None);
    assert_eq!(g.center_to_index(100 * UNIT, 900 * UNIT), None);
    assert_eq!(g.center_to_index(10_400, 8_000), Some(0));
}

#[test]
fn flip_at_changes_one_hex() {
    let mut g = Grid::new(500 * UNIT, 300 * UNIT, 10 * UNIT);
    assert_eq!(g.flip_at(10_000, 8_660, Team::Black), Some((HexColor::White, HexColor::Black)));
    assert_eq!(g.cells[0].color, HexColor::Black);
    assert_eq!(g.flip_at(10_000, 8_660, Team::Black), None);
    assert_eq!(g.flip_at(-90_000, 8_660, Team::Black), None);
}

#[test]
fn claim_twice_awards_nothing() {
    let mut g = Grid::new(500 * UNIT, 300 * UNIT, 10 * UNIT);
    let (w1, b1, n1) = g.flip_disc(260 * UNIT, 150 * UNIT, 40 * UNIT, Team::White);
    assert!(w1 > 0);
    assert_eq!(b1, 0);
    assert!(n1.is_some());
    let (w2, b2, n2) = g.flip_disc(260 * UNIT, 150 * UNIT, 40 * UNIT, Team::White);
    assert_eq!((w2, b2), (0, 0));
    assert_eq!(n2, None);
}

#[test]
fn claim_on_own_color_is_free() {
    let mut g = Grid::new(500 * UNIT, 300 * UNIT, 10 * UNIT);
    let (w, b, n) = g.flip_disc(60 * UNIT, 150 * UNIT, 30 * UNIT, Team::White);
    assert_eq!((w, b, n), (0, 0, None));
}

#[test]
fn claim_points_never_exceed_cells() {
    let mut g = Grid::new(500 * UNIT, 300 * UNIT, 10 * UNIT);
    let total = g.cells.len();
    let (w, b, _) = g.flip_disc(250 * UNIT, 150 * UNIT, 1000 * UNIT, Team::Black);
    assert_eq!(w, 0);
    assert!(b <= total);
    let black_before = total - b;
    let whites = g.cells.iter().filter(|c| c.color == HexColor::White).count();
    assert_eq!(whites, 0);
    assert_eq!(b, total - black_before);
    let (w, b, _) = g.flip_disc(250 * UNIT, 150 * UNIT, 1000 * UNIT, Team::White);
    assert_eq!((w, b), (total, 0));
}

#[test]
fn claim_cluster_inside_enemy_region() {
    let mut g = Grid::new(500 * UNIT, 300 * UNIT, 10 * UNIT);
    for cell in g.cells.iter_mut() {
        cell.color = HexColor::Black;
    }
    let (x, y, r) = (203 * UNIT, 151 * UNIT, 50 * UNIT);
    let inside: Vec<(i64, i64)> = g
        .cells
        .iter()
        .filter(|c| (c.cx - x) * (c.cx - x) + (c.cy - y) * (c.cy - y) <= r * r)
        .map(|c| (c.cx, c.cy))
        .collect();
    let (w, b, n) = g.flip_disc(x, y, r, Team::White);
    assert_eq!(w, inside.len());
    assert_eq!(b, 0);
    for cell in &g.cells {
        let near = (cell.cx - x) * (cell.cx - x) + (cell.cy - y) * (cell.cy - y) <= r * r;
        assert_eq!(cell.color, if near { HexColor::White } else { HexColor::Black });
    }
    let (nx, ny) = n.expect("a bounce normal");
    let cnt = inside.len() as i64;
    let mx = inside.iter().map(|p| p.0).sum::<i64>() / cnt;
    let my = inside.iter().map(|p| p.1).sum::<i64>() / cnt;
    assert!(nx * (x - mx) + ny * (y - my) > 0);
    let len2 = nx * nx + ny * ny;
    assert!(len2 <= DIR_ONE * DIR_ONE && len2 > (DIR_ONE - 4) * (DIR_ONE - 4));
}

#[test]
fn maintain_speed_restores_base() {
    let mut d = disc(0, 0, 300_000, 400_000, Team::White, 10_000, 200_000);
    d.maintain_speed();
    assert_eq!((d.vx, d.vy), (120_000, 160_000));
    let mut z = disc(0, 0, 0, 0, Team::White, 10_000, 200_000);
    z.maintain_speed();
    assert_eq!((z.vx, z.vy), (0, 0));
    let mut s = disc(0, 0, 7, -3, Team::Black, 10_000, 480_000);
    s.maintain_speed();
    let sp2 = s.vx * s.vx + s.vy * s.vy;
    assert!(sp2 >= 470_000 * 470_000 && sp2 <= 500_000 * 500_000);
}

#[test]
fn head_on_contact_separates() {
    let mut ds = vec![
        disc(100_000, 100_000, 100_000, 0, Team::White, 10_000, 100_000),
        disc(115_000, 100_000, 0, 0, Team::Black, 10_000, 100_000),
    ];
    resolve_collisions(&mut ds, 0, 0);
    let dx = ds[1].x - ds[0].x;
    let dy = ds[1].y - ds[0].y;
    assert!(dx * dx + dy * dy >= 20_000 * 20_000);
    assert!(ds[0].vx <= 100_000);
    assert_eq!((ds[0].x, ds[1].x), (97_499, 117_501));
    assert_eq!(ds[1].vx, 100_000);
}

#[test]
fn same_team_contact_boosts() {
    let mut ds = vec![
        disc(100_000, 100_000, 100_000, 0, Team::White, 10_000, 100_000),
        disc(115_000, 100_000, -100_000, 0, Team::White, 10_000, 500_000),
    ];
    resolve_collisions(&mut ds, 0, 0);
    assert_eq!(ds[0].base_speed, 112_000);
    assert_eq!(ds[1].base_speed, 520_000);
    assert_eq!(ds[0].vx, -112_000);
    assert_eq!(ds[1].vx, 520_000);
}

#[test]
fn coincident_centers_get_nudged() {
    let mut ds = vec![
        disc(100_000, 100_000, 0, 0, Team::White, 10_000, 100_000),
        disc(100_000, 100_000, 0, 0, Team::Black, 10_000, 100_000),
    ];
    resolve_collisions(&mut ds, 5, -1);
    assert_eq!((ds[0].x, ds[0].y), (99_999, 100_001));
    assert_eq!((ds[1].x, ds[1].y), (100_000, 100_000));
}

#[test]
fn distant_discs_do_not_touch() {
    let mut ds = vec![
        disc(100_000, 100_000, 100_000, 0, Team::White, 10_000, 100_000),
        disc(130_000, 100_000, -100_000, 0, Team::Black, 10_000, 100_000),
    ];
    resolve_collisions(&mut ds, 0, 0);
    assert_eq!((ds[0].x, ds[0].vx, ds[1].x, ds[1].vx), (100_000, 100_000, 130_000, -100_000));
}

#[test]
fn time_scale_is_clamped() {
    let mut sim = init_app(500 * UNIT, 300 * UNIT, 0, 100, &Vec::new());
    set_speed(&mut sim, 1000);
    assert_eq!(sim.time_scale, 625);
    set_speed(&mut sim, -100);
    assert_eq!(sim.time_scale, 0);
    set_speed(&mut sim, 250);
    assert_eq!(sim.time_scale, 250);
}

#[test]
fn roster_is_clamped_and_placed() {
    let mut sim = init_app(500 * UNIT, 300 * UNIT, 9, 100, &rolls(10));
    assert_eq!(sim.discs.len(), 10);
    assert_eq!(sim.grid.r, 6_000);
    for (k, d) in sim.discs.iter().enumerate() {
        assert_eq!(d.radius, 10_800);
        assert_eq!(d.base_speed, 200_000);
        assert_eq!(d.last_bounce_ts, -1);
        if k < 5 {
            assert_eq!(d.team, Team::White);
            assert!(d.x >= 11_800 && d.x <= 125_000);
            assert!(d.vx > 0);
        } else {
            assert_eq!(d.team, Team::Black);
            assert!(d.x >= 375_000 && d.x <= 500_000 - 11_800);
            assert!(d.vx < 0);
        }
        assert!(d.y >= 11_800 && d.y <= 300_000 - 11_800);
        let sp2 = d.vx * d.vx + d.vy * d.vy;
        assert!(sp2 <= 200_000 * 200_000 && sp2 >= 199_000 * 199_000);
    }
    set_num_balls(&mut sim, 2, &Vec::new());
    assert_eq!(sim.discs.len(), 4);
    assert_eq!((sim.discs[0].x, sim.discs[0].y), (11_800, 11_800));
    assert_eq!((sim.discs[0].vx, sim.discs[0].vy), (200_000, 0));
    assert_eq!((sim.discs[2].vx, sim.discs[2].vy), (-200_000, 0));
    set_balls_per_team(&mut sim, 0, &Vec::new());
    assert!(sim.discs.is_empty());
}

#[test]
fn start_and_stop_are_idempotent() {
    let mut sim = Simulation::new(500 * UNIT, 300 * UNIT);
    assert!(!sim.running);
    start(&mut sim, 1_000);
    assert!(sim.running);
    assert_eq!(sim.last_ts, 1_000);
    start(&mut sim, 9_000);
    assert_eq!(sim.last_ts, 1_000);
    stop(&mut sim);
    assert!(!sim.running);
    stop(&mut sim);
    assert!(!sim.running);
}

#[test]
fn tick_moves_and_clamps_at_walls() {
    let mut sim = Simulation::new(500 * UNIT, 300 * UNIT);
    sim.discs = vec![disc(15_000, 150_000, -200_000, 0, Team::White, 10_000, 200_000)];
    sim.last_ts = 0;
    sim.tick(40_000, 0, 0);
    assert_eq!(sim.last_ts, 40_000);
    let d = sim.discs[0];
    assert_eq!(d.x, 10_000);
    assert_eq!(d.vx, 200_000);
    // A long gap is simulated as fifty milliseconds only.
    sim.discs = vec![disc(200_000, 150_000, 200_000, 0, Team::White, 10_000, 200_000)];
    sim.tick(10_040_000, 0, 0);
    assert_eq!(sim.discs[0].x, 210_000);
    // Time going backwards moves nothing.
    sim.tick(0, 0, 0);
    assert_eq!(sim.discs[0].x, 210_000);
}

#[test]
fn tick_keeps_discs_inside() {
    let mut sim = init_app(500 * UNIT, 300 * UNIT, 5, 625, &rolls(10));
    let mut ts: i64 = 0;
    for _ in 0..400 {
        ts += 16_667;
        sim.tick(ts, 1, 0);
        for d in &sim.discs {
            assert!(d.x >= -d.radius && d.x <= 500 * UNIT + d.radius);
            assert!(d.y >= -d.radius && d.y <= 300 * UNIT + d.radius);
            assert!(d.vx.abs() <= d.base_speed && d.vy.abs() <= d.base_speed);
            assert!(d.base_speed <= 520_000);
        }
    }
}

#[test]
fn tick_scores_claims() {
    let mut sim = Simulation::new(500 * UNIT, 300 * UNIT);
    sim.take_points_dirty();
    sim.discs = vec![disc(255_000, 150_000, 100_000, 0, Team::White, 20_000, 100_000)];
    sim.tick(0, 0, 0);
    assert!(sim.points_white > 0);
    assert_eq!(sim.points_black, 0);
    assert!(sim.take_points_dirty());
    assert!(!sim.take_points_dirty());
    let d = sim.discs[0];
    // It moved right into the black half it just claimed from: it bounced back left.
    assert!(d.vx < 0);
    let sp2 = d.vx * d.vx + d.vy * d.vy;
    assert!(sp2 <= 100_000 * 100_000 && sp2 >= 99_000 * 99_000);
    assert_eq!(d.last_bounce_ts, 0);
    // A second tick at the same spot claims nothing more.
    let before = sim.points_white;
    sim.discs[0].vx = 0;
    sim.discs[0].vy = 0;
    sim.tick(0, 0, 0);
    assert_eq!(sim.points_white, before);
    assert!(!sim.take_points_dirty());
}

#[test]
fn reset_grid_restores_halves() {
    let mut sim = init_app(500 * UNIT, 300 * UNIT, 1, 100, &rolls(2));
    sim.points_white = 7;
    sim.points_black = 3;
    sim.grid.flip_disc(250 * UNIT, 150 * UNIT, 1000 * UNIT, Team::Black);
    reset_grid(&mut sim);
    assert_eq!((sim.points_white, sim.points_black), (0, 0));
    assert!(sim.points_dirty);
    assert_eq!(sim.discs.len(), 2);
    for cell in &sim.grid.cells {
        let expect = if cell.cx < 250 * UNIT { HexColor::White } else { HexColor::Black };
        assert_eq!(cell.color, expect);
    }
}

#[test]
fn resize_keeps_discs_on_board() {
    let mut sim = init_app(500 * UNIT, 300 * UNIT, 0, 100, &Vec::new());
    sim.discs = vec![
        disc(480_000, 280_000, 1, 2, Team::Black, 10_000, 100_000),
        disc(50_000, 50_000, 3, 4, Team::White, 10_000, 100_000),
    ];
    resize(&mut sim, 200 * UNIT, 100 * UNIT);
    assert_eq!((sim.width, sim.height), (200_000, 100_000));
    assert_eq!(sim.grid.r, 3_000);
    assert_eq!((sim.discs[0].x, sim.discs[0].y), (190_000, 90_000));
    assert_eq!((sim.discs[0].vx, sim.discs[0].vy), (1, 2));
    assert_eq!((sim.discs[1].x, sim.discs[1].y), (50_000, 50_000));
}

#[test]
fn integration_stays_within_walls() {
    let mut ds = vec![
        disc(12_000, 12_000, -480_000, -480_000, Team::White, 10_000, 480_000),
        disc(488_000, 288_000, 480_000, 480_000, Team::Black, 10_000, 480_000),
        disc(250_000, 150_000, 480_000, 0, Team::Black, 10_000, 480_000),
    ];
    integrate_walls(&mut ds, 50_000, 625, 500 * UNIT, 300 * UNIT);
    assert_eq!((ds[0].x, ds[0].y, ds[0].vx, ds[0].vy), (10_000, 10_000, 480_000, 480_000));
    assert_eq!((ds[1].x, ds[1].y, ds[1].vx, ds[1].vy), (490_000, 290_000, -480_000, -480_000));
    assert_eq!((ds[2].x, ds[2].vx), (400_000, 480_000));
    for d in &ds {
        assert!(d.x >= d.radius && d.x <= 500 * UNIT - d.radius);
        assert!(d.y >= d.radius && d.y <= 300 * UNIT - d.radius);
    }
}

#[test]
fn zero_nudge_still_parts_centers() {
    let mut ds = vec![
        disc(100_000, 100_000, 0, 0, Team::White, 10_000, 100_000),
        disc(100_000, 100_000, 0, 0, Team::Black, 10_000, 100_000),
    ];
    resolve_collisions(&mut ds, 0, 0);
    assert_eq!((ds[0].x, ds[0].y), (99_999, 100_000));
}

#[test]
fn separating_discs_get_no_impulse() {
    let mut ds = vec![
        disc(0, 0, 0, 0, Team::White, 10_000, 0),
        disc(1_000, 2_000, 200_000, -100_000, Team::White, 10_000, 480_000),
    ];
    resolve_collisions(&mut ds, 0, 0);
    assert_eq!((ds[0].vx, ds[0].vy, ds[0].base_speed), (0, 0, 0));
    assert_eq!((ds[1].vx, ds[1].vy, ds[1].base_speed), (200_000, -100_000, 480_000));
}

#[test]
fn spawn_headings_stay_in_cone() {
    let steep = vec![
        SpawnRoll { fx: 0, fy: 0, dir_x: 0, dir_y: 1 },
        SpawnRoll { fx: 0, fy: 0, dir_x: 1, dir_y: 1_000_000 },
        SpawnRoll { fx: 0, fy: 0, dir_x: 0, dir_y: -1 },
        SpawnRoll { fx: 0, fy: 0, dir_x: -3, dir_y: -1_000_000 },
    ];
    let sim = init_app(500 * UNIT, 300 * UNIT, 2, 100, &steep);
    for (k, d) in sim.discs.iter().enumerate() {
        let sense = if k < 2 { 1 } else { -1 };
        assert!(sense * d.vx > 0);
        assert!(10_000 * d.vy.abs() <= 19_626 * sense * d.vx);
    }
    assert_eq!((sim.discs[0].vx, sim.discs[0].vy), (141_421, 141_421));
}

#[test]
fn rebuilt_grids_are_fresh() {
    let mut sim = init_app(500 * UNIT, 300 * UNIT, 0, 100, &Vec::new());
    let g = Grid::new(500 * UNIT, 300 * UNIT, 6_000);
    assert_eq!((sim.grid.cols, sim.grid.rows, sim.grid.r), (g.cols, g.rows, g.r));
    resize(&mut sim, 420 * UNIT, 260 * UNIT);
    let g = Grid::new(420 * UNIT, 260 * UNIT, 5_200);
    assert_eq!((sim.grid.cols, sim.grid.rows, sim.grid.r), (g.cols, g.rows, g.r));
    for cell in &sim.grid.cells {
        let expect = if cell.cx < 210 * UNIT { HexColor::White } else { HexColor::Black };
        assert_eq!(cell.color, expect);
    }
}

#[test]
fn lookup_ties_round_away_from_the_first_hex() {
    let g = Grid::new(500 * UNIT, 300 * UNIT, 4_000);
    assert_eq!(g.hex_h, 6_928);
    // Halfway before column zero (x - r = -0.75 r) is off the grid; just inside is column zero.
    assert_eq!(g.center_to_index(1_000, 3_464), None);
    assert_eq!(g.center_to_index(1_001, 3_464), Some(0));
    // Halfway above row zero is off the grid; just below is row zero.
    assert_eq!(g.center_to_index(4_000, 0), None);
    assert_eq!(g.center_to_index(4_000, 1), Some(0));
    // Halfway between columns zero and one goes to column one.
    assert_eq!(g.center_to_index(7_000, 6_928), Some(g.rows));
    assert_eq!(g.center_to_index(6_999, 3_464), Some(0));
}

#[test]
fn lookup_within_three_quarters_radius() {
    let g = Grid::new(500 * UNIT, 300 * UNIT, 1_002);
    let c1 = g.cells[g.rows];
    assert_eq!(c1.cx, 1_002 + 1_503);
    assert_eq!(g.center_to_index(c1.cx + 751, c1.cy), Some(g.rows));
    assert_eq!(g.center_to_index(c1.cx - 751, c1.cy), Some(g.rows));
    assert_eq!(g.center_to_index(c1.cx + 752, c1.cy), Some(2 * g.rows));
}
