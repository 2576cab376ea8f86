use physarum::{
    combine, particles_per_population, Grid, Particle, PhysarumModel, PopulationConfig,
    DECAY_ONE, HEADING_ONE, SUBCELLS,
};

fn config(deposition_amount: u32, decay_factor: u32) -> PopulationConfig {
    PopulationConfig {
        deposition_amount,
        decay_factor,
        sensor_distance: 4 * SUBCELLS as u32,
        sensor_angle: 1,
        rotation_angle: 1,
        step_distance: SUBCELLS as u32,
    }
}

fn eight_directions() -> Vec<(i32, i32)> {
    let d = 2896;
    let one = HEADING_ONE;
    vec![(one, 0), (d, d), (0, one), (-d, d), (-one, 0), (-d, -d), (0, -one), (d, -d)]
}

fn zero_grid(w: usize, h: usize, cfg: PopulationConfig) -> Grid {
    Grid::new(w, h, cfg, vec![0u32; w * h])
}

/// A small deterministic generator for test inputs.
fn lcg(state: &mut u64) -> u64 {
    *state = state.wrapping_mul(6364136223846793005).wrapping_add(1442695040888963407);
    *state >> 33
}

#[test]
fn index_wraps_by_whole_periods() {
    let g = zero_grid(8, 4, config(1, DECAY_ONE));
    let pw = 8 * SUBCELLS;
    let ph = 4 * SUBCELLS;
    for &(x, y) in &[(0i64, 0i64), (300, 700), (-1, -1), (2047, 1023), (-pw + 1, 5)] {
        let i = g.index(x, y);
        for k in 0..4i64 {
            assert_eq!(g.index(x + k * pw, y), i);
            assert_eq!(g.index(x, y + k * ph), i);
        }
    }
}

#[test]
fn index_truncates_and_shifts() {
    let g = zero_grid(8, 4, config(1, DECAY_ONE));
    assert_eq!(g.index(0, 0), 0);
    assert_eq!(g.index(3 * SUBCELLS + 10, 2 * SUBCELLS), 2 * 8 + 3);
    assert_eq!(g.index(-1, 0), 7);
    assert_eq!(g.index(0, -1), 3 * 8);
    assert_eq!(g.index(8 * SUBCELLS, 4 * SUBCELLS + 255), 0);
    // More than one period below zero lands on cell 0.
    assert_eq!(g.index(SUBCELLS - 2 * 8 * SUBCELLS, 0), 0);
}

#[test]
fn quantile_bounds_and_order() {
    let mut data: Vec<u32> = (0..64u32).map(|i| (i * 37) % 64 + 10).collect();
    data[5] = 10;
    let g = Grid::new(8, 8, config(1, DECAY_ONE), data.clone());
    let min = *data.iter().min().unwrap();
    let max = *data.iter().max().unwrap();
    assert_eq!(g.quantile(0, 1), min);
    assert_eq!(g.quantile(1, 1), max);
    assert_eq!(g.quantile(999, 999), max);
    let mut last = 0u32;
    for num in 0..=1000u64 {
        let q = g.quantile(num, 1000);
        assert!(q >= last);
        last = q;
    }
}

#[test]
fn quantile_selects_the_sorted_position() {
    let data: Vec<u32> = (0..16u32).map(|i| (i * 5 + 3) % 16).collect();
    let g = Grid::new(4, 4, config(1, DECAY_ONE), data.clone());
    // Half-way: index 8 of the sorted values 0..16.
    assert_eq!(g.quantile(1, 2), 8);
    assert_ne!(data[8], 8);
    assert_eq!(g.quantile(1, 4), 4);
    assert_eq!(g.quantile(999, 1000), 15);
    // The trail itself is not reordered.
    assert_eq!(g.data(), &data[..]);
}

#[test]
fn combine_with_unit_self_attraction_copies_the_trail() {
    let data: Vec<u32> = (0..16u32).map(|i| i * 1000 + 7).collect();
    let mut grids = vec![Grid::new(4, 4, config(1, DECAY_ONE), data.clone())];
    combine(&mut grids, &vec![vec![1]]);
    let expected: Vec<i128> = data.iter().map(|&v| v as i128).collect();
    assert_eq!(grids[0].buf, expected);
    assert_eq!(grids[0].data, data);
}

#[test]
fn combine_weights_every_population() {
    let a: Vec<u32> = (0..4u32).map(|i| i + 1).collect();
    let b: Vec<u32> = vec![10, 20, 30, u32::MAX];
    let mut grids = vec![
        Grid::new(2, 2, config(1, DECAY_ONE), a.clone()),
        Grid::new(2, 2, config(1, DECAY_ONE), b.clone()),
    ];
    let table = vec![vec![3, -2], vec![-1, i32::MIN]];
    combine(&mut grids, &table);
    for c in 0..4 {
        assert_eq!(grids[0].buf[c], 3 * a[c] as i128 - 2 * b[c] as i128);
        assert_eq!(grids[1].buf[c], -(a[c] as i128) + i32::MIN as i128 * b[c] as i128);
    }
}

#[test]
fn pick_direction_follows_the_policy() {
    assert_eq!(PhysarumModel::pick_direction(5, 2, 2, 0), 0);
    assert_eq!(PhysarumModel::pick_direction(3, 2, 5, 0), 1);
    assert_eq!(PhysarumModel::pick_direction(3, 5, 2, 0), -1);
    assert_eq!(PhysarumModel::pick_direction(4, 4, 4, 0), 0);
    // A centre below both sides is settled by the agent's own tie-break,
    // whichever side is larger.
    for agent in 0..8u64 {
        let t = PhysarumModel::pick_direction(0, 3, 3, agent);
        assert_eq!(PhysarumModel::pick_direction(0, 2, 5, agent), t);
        assert_eq!(PhysarumModel::pick_direction(0, 5, 2, agent), t);
    }
    assert_eq!(PhysarumModel::pick_direction(4, 4, 9, 3), 1);
    assert_eq!(PhysarumModel::pick_direction(4, 9, 4, 3), -1);
}

#[test]
fn pick_direction_tie_break_is_fixed_per_agent() {
    assert_eq!(PhysarumModel::pick_direction(0, 3, 3, 0), 1);
    assert_eq!(PhysarumModel::pick_direction(0, 3, 3, 1), -1);
    let mut seen = [false, false];
    for agent in 0..64u64 {
        let first = PhysarumModel::pick_direction(0, 3, 3, agent);
        assert!(first == 1 || first == -1);
        for _ in 0..5 {
            assert_eq!(PhysarumModel::pick_direction(0, 3, 3, agent), first);
        }
        seen[if first == 1 { 1 } else { 0 }] = true;
    }
    assert!(seen[0] && seen[1]);
}

#[test]
fn deposit_then_diffuse_without_spread() {
    let mut g = zero_grid(8, 8, config(1000, DECAY_ONE / 2));
    g.deposit(3 * SUBCELLS + 5, 6 * SUBCELLS);
    let i = g.index(3 * SUBCELLS + 5, 6 * SUBCELLS);
    assert_eq!(i, 6 * 8 + 3);
    assert_eq!(g.data()[i], 1000);
    g.diffuse(0);
    assert_eq!(g.data()[i], 500);
    assert_eq!(g.data().iter().map(|&v| v as u64).sum::<u64>(), 500);
}

#[test]
fn diffuse_spreads_over_the_box_and_wraps() {
    let mut g = zero_grid(8, 8, config(900, DECAY_ONE));
    g.deposit(0, 0);
    g.diffuse(1);
    // 900 spread over a 3 x 3 box that wraps around the corner.
    for &(x, y) in &[(0usize, 0usize), (1, 0), (7, 0), (0, 7), (7, 7), (1, 1)] {
        assert_eq!(g.data()[y * 8 + x], 100);
    }
    assert_eq!(g.data()[2], 0);
    assert_eq!(g.data()[8 * 2], 0);
}

#[test]
fn diffuse_rounds_down_and_decays() {
    let mut g = zero_grid(4, 4, config(1000, DECAY_ONE / 2));
    g.deposit(SUBCELLS, SUBCELLS);
    g.diffuse(1);
    // 1000 / 9 / 2 rounded down.
    assert_eq!(g.data()[4 + 1], 55);
}

#[test]
fn deposit_saturates() {
    let mut g = Grid::new(2, 2, config(10, DECAY_ONE), vec![u32::MAX - 3, 0, 0, 0]);
    g.deposit(0, 0);
    assert_eq!(g.data()[0], u32::MAX);
    g.deposit(SUBCELLS, 0);
    assert_eq!(g.data()[1], 10);
}

#[test]
fn shares_round_up() {
    assert_eq!(particles_per_population(100, 2), 50);
    assert_eq!(particles_per_population(101, 2), 51);
    assert_eq!(particles_per_population(0, 3), 0);
    assert_eq!(particles_per_population(1, 3), 1);
    assert_eq!(particles_per_population(usize::MAX, 1), usize::MAX);
    assert_eq!(particles_per_population(usize::MAX, 2), usize::MAX / 2 + 1);
}

fn build_model(w: usize, h: usize, n_particles: usize, n_pops: usize, radius: usize, seed: u64) -> PhysarumModel {
    let mut s = seed;
    let dirs = eight_directions();
    let table: Vec<Vec<i32>> = (0..n_pops)
        .map(|i| (0..n_pops).map(|j| if i == j { 1000 } else { -1000 }).collect())
        .collect();
    let grids: Vec<Grid> = (0..n_pops)
        .map(|_| {
            let data: Vec<u32> = (0..w * h).map(|_| (lcg(&mut s) % 1000) as u32).collect();
            Grid::new(w, h, config(500, DECAY_ONE / 10 * 9), data)
        })
        .collect();
    let per = particles_per_population(n_particles, n_pops);
    let starts: Vec<(i64, i64, usize)> = (0..per * n_pops)
        .map(|_| {
            let x = (lcg(&mut s) % (w as u64 * SUBCELLS as u64)) as i64;
            let y = (lcg(&mut s) % (h as u64 * SUBCELLS as u64)) as i64;
            let hd = (lcg(&mut s) % dirs.len() as u64) as usize;
            (x, y, hd)
        })
        .collect();
    PhysarumModel::new(w, h, n_particles, n_pops, radius, 0, dirs, table, grids, starts)
}

#[test]
fn engine_runs_ten_iterations() {
    let mut m = build_model(64, 64, 100, 2, 1, 7);
    assert_eq!(m.particle_count(), 50 * 2);
    for _ in 0..10 {
        m.step();
    }
    assert_eq!(m.iteration, 10);
    assert_eq!(m.particle_count(), 100);
    for p in 0..2 {
        assert_eq!(m.data(p).len(), 64 * 64);
    }
    for a in &m.agents {
        assert!(a.x >= 0 && a.x < 64 * SUBCELLS);
        assert!(a.y >= 0 && a.y < 64 * SUBCELLS);
        assert!(a.heading < 8);
        assert!(a.id < 2);
    }
}

#[test]
fn engine_is_deterministic() {
    let mut a = build_model(32, 16, 30, 3, 1, 11);
    let mut b = build_model(32, 16, 30, 3, 1, 11);
    for _ in 0..5 {
        a.step();
        b.step();
    }
    assert_eq!(a.agents, b.agents);
    for p in 0..3 {
        assert_eq!(a.data(p), b.data(p));
    }
}

#[test]
fn agents_come_in_population_blocks() {
    let m = build_model(16, 16, 7, 3, 0, 1);
    assert_eq!(m.particle_count(), 9);
    let ids: Vec<usize> = m.agents.iter().map(|a| a.id).collect();
    assert_eq!(ids, vec![0, 0, 0, 1, 1, 1, 2, 2, 2]);
}

#[test]
fn one_agent_step_moves_and_deposits() {
    let grids = vec![zero_grid(8, 8, config(700, DECAY_ONE))];
    let dirs = eight_directions();
    let starts = vec![(2 * SUBCELLS + 10, 3 * SUBCELLS, 0usize)];
    let mut m = PhysarumModel::new(8, 8, 1, 1, 0, 0, dirs, vec![vec![1]], grids, starts);
    m.step();
    // All sensors read zero: the agent goes straight along +x by one cell.
    assert_eq!(
        m.agents[0],
        Particle { x: 3 * SUBCELLS + 10, y: 3 * SUBCELLS, heading: 0, id: 0 }
    );
    assert_eq!(m.data(0)[3 * 8 + 3], 700);
    assert_eq!(m.data(0).iter().map(|&v| v as u64).sum::<u64>(), 700);
    // The next step senses the trail it left behind and keeps going.
    m.step();
    assert_eq!(m.agents[0].x, 4 * SUBCELLS + 10);
    assert_eq!(m.data(0)[3 * 8 + 4], 700);
}

#[test]
fn agent_wraps_around_the_edge() {
    let grids = vec![zero_grid(4, 4, config(1, DECAY_ONE))];
    let starts = vec![(10, 0, 4usize)];
    let mut m = PhysarumModel::new(4, 4, 1, 1, 0, 0, eight_directions(), vec![vec![1]], grids, starts);
    m.step();
    assert_eq!(m.agents[0].x, 4 * SUBCELLS + 10 - SUBCELLS);
    assert_eq!(m.agents[0].y, 0);
}

#[test]
fn agent_turns_toward_the_stronger_side() {
    // A strong trail ahead-left (heading 1) pulls an agent heading along +x.
    let mut data = vec![0u32; 64];
    // Sensor distance of 4 cells along (1, 1) from (1, 1): cell (3, 3) or so.
    let cfg = config(0, DECAY_ONE);
    let g0 = Grid::new(8, 8, cfg, data.clone());
    let sx = SUBCELLS + 4 * 2896 * SUBCELLS / HEADING_ONE as i64;
    let cell = g0.index(SUBCELLS + sx - SUBCELLS, SUBCELLS + sx - SUBCELLS);
    data[cell] = 1000;
    let grids = vec![Grid::new(8, 8, cfg, data)];
    let starts = vec![(SUBCELLS, SUBCELLS, 0usize)];
    let mut m = PhysarumModel::new(8, 8, 1, 1, 0, 0, eight_directions(), vec![vec![1]], grids, starts);
    m.step();
    assert_eq!(m.agents[0].heading, 1);
}

#[test]
fn set_population_configs_replaces_each() {
    let mut m = build_model(8, 8, 4, 2, 0, 3);
    let c0 = config(1, 2);
    let c1 = config(3, 4);
    m.set_population_configs(vec![c0, c1, config(9, 9)]);
    assert_eq!(m.grids[0].config, c0);
    assert_eq!(m.grids[1].config, c1);
}
