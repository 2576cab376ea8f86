use vstd::prelude::*;
use crate::grid::{
    combine, grids_uniform, table_fits, weighted_sum, wrap, diffused, sat_add, Grid,
    PopulationConfig, MAX_DIM, SUBCELLS,
};

verus! {

/// Length of a unit vector in a direction table.
pub const HEADING_ONE: i32 = 4096;

/// Multiplier of the hash that settles an agent's tie-breaks.
pub const TIE_MULTIPLIER: u64 = 0x9E37_79B9_7F4A_7C15;

/// One agent: a position in sub-cell units, a heading (an index into the
/// engine's direction table) and the population it belongs to.
#[derive(Clone, Copy, Debug, PartialEq, Eq)]
pub struct Particle {
    pub x: i64,
    pub y: i64,
    pub heading: usize,
    pub id: usize,
}

/// The simulation engine: one grid per population, the agents, and the
/// attraction table that couples the populations.
pub struct PhysarumModel {
    pub grids: Vec<Grid>,
    pub agents: Vec<Particle>,
    /// `attraction_table[i][j]`: weight of population `j`'s trail in the
    /// signal that population `i` senses.
    pub attraction_table: Vec<Vec<i32>>,
    /// Unit vectors, `HEADING_ONE` long, for each heading, evenly spaced
    /// counter-clockwise.
    pub directions: Vec<(i32, i32)>,
    pub diffusity: usize,
    pub iteration: u64,
    pub palette: usize,
}

/// `a / b` rounded toward zero.
pub open spec fn trunc_div(a: int, b: int) -> int {
    if a >= 0 {
        a / b
    } else {
        -((-a) / b)
    }
}

/// The displacement along one axis of moving `dist` along a direction
/// whose unit-vector component is `v`.
pub open spec fn offset(v: int, dist: int) -> int {
    trunc_div(v * dist, HEADING_ONE as int)
}

/// Number of agents per population: `n_particles / n_populations`, rounded up.
pub open spec fn share(n_particles: int, n_populations: int) -> int {
    (n_particles + n_populations - 1) / n_populations
}

/// The turn an agent takes when both side sensors read more than the centre:
/// the top bit of a multiplicative hash of the agent's index picks the side.
pub open spec fn tie_turn(agent: u64) -> int {
    if ((agent as int + 1) % 0x1_0000_0000_0000_0000) * TIE_MULTIPLIER % 0x1_0000_0000_0000_0000
        >= 0x8000_0000_0000_0000 {
        1
    } else {
        -1
    }
}

/// The turn (-1, 0 or +1 heading rotations) chosen from the three sensor
/// readings.
pub open spec fn direction_of(center: int, left: int, right: int, agent: u64) -> int {
    if center > left && center > right {
        0
    } else if center < left && center < right {
        tie_turn(agent)
    } else if left < right {
        1
    } else if right < left {
        -1
    } else {
        0
    }
}

impl Particle {
    /// The agent stands inside the torus, points along a known direction and
    /// belongs to a known population.
    pub open spec fn wf(&self, w: int, h: int, n_dirs: int, n_pops: int) -> bool {
        &&& 0 <= self.x < w * SUBCELLS
        &&& 0 <= self.y < h * SUBCELLS
        &&& self.heading < n_dirs
        &&& self.id < n_pops
    }
}

impl PhysarumModel {
    pub open spec fn width(&self) -> int {
        self.grids@[0].width as int
    }

    pub open spec fn height(&self) -> int {
        self.grids@[0].height as int
    }

    pub open spec fn wf(&self) -> bool {
        &&& grids_uniform(self.grids@)
        &&& table_fits(self.attraction_table@, self.grids@.len() as int)
        &&& directions_ok(self.directions@)
        &&& self.diffusity < MAX_DIM
        &&& forall|k: int|
            0 <= k < self.agents@.len() ==> (#[trigger] self.agents@[k]).wf(
                self.width(),
                self.height(),
                self.directions@.len() as int,
                self.grids@.len() as int,
            )
    }
}

/// A direction table is non-empty and holds unit vectors of length
/// `HEADING_ONE`, or shorter.
pub open spec fn directions_ok(dirs: Seq<(i32, i32)>) -> bool {
    &&& 0 < dirs.len() <= MAX_DIM
    &&& forall|i: int|
        0 <= i < dirs.len() ==> -HEADING_ONE <= (#[trigger] dirs[i]).0 <= HEADING_ONE
            && -HEADING_ONE <= dirs[i].1 <= HEADING_ONE
}

} // verus!

verus! {

/// `h + delta` on a ring of `n` headings.
pub open spec fn turned(h: int, delta: int, n: int) -> int {
    wrap(h + delta, n)
}

/// The agent after sensing and moving: `signal(heading)` is the combined
/// signal its population reads at the sensor pointing along that heading.
pub open spec fn advanced(
    p: Particle,
    agent: u64,
    cfg: PopulationConfig,
    dirs: Seq<(i32, i32)>,
    center: int,
    left: int,
    right: int,
    w: int,
    h: int,
) -> Particle {
    let n = dirs.len() as int;
    let turn = direction_of(center, left, right, agent);
    let hd = turned(p.heading as int, turn * cfg.rotation_angle, n);
    Particle {
        x: wrap(p.x + offset(dirs[hd].0 as int, cfg.step_distance as int), w * SUBCELLS) as i64,
        y: wrap(p.y + offset(dirs[hd].1 as int, cfg.step_distance as int), h * SUBCELLS) as i64,
        heading: hd as usize,
        id: p.id,
    }
}

/// The sub-cell position of the sensor `dist` away from `(x, y)` along
/// heading `hd`.
pub open spec fn sensor_x(x: int, dirs: Seq<(i32, i32)>, hd: int, dist: int) -> int {
    x + offset(dirs[hd].0 as int, dist)
}

pub open spec fn sensor_y(y: int, dirs: Seq<(i32, i32)>, hd: int, dist: int) -> int {
    y + offset(dirs[hd].1 as int, dist)
}

/// The combined signal that population `pop` senses at `(x, y)`, computed
/// from the trails of `grids`.
pub open spec fn signal(table: Seq<Vec<i32>>, grids: Seq<Grid>, pop: int, x: int, y: int) -> int {
    weighted_sum(table[pop]@, grids, grids[pop].index_of(x, y), grids.len() as int)
}

/// `p` after one sense-and-move phase against the trails of `grids`.
pub open spec fn stepped(
    p: Particle,
    agent: u64,
    table: Seq<Vec<i32>>,
    grids: Seq<Grid>,
    dirs: Seq<(i32, i32)>,
) -> Particle {
    let g = grids[p.id as int];
    let cfg = g.config;
    let n = dirs.len() as int;
    let d = cfg.sensor_distance as int;
    let hc = p.heading as int;
    let hl = turned(hc, -cfg.sensor_angle, n);
    let hr = turned(hc, cfg.sensor_angle as int, n);
    advanced(
        p,
        agent,
        cfg,
        dirs,
        signal(table, grids, p.id as int, sensor_x(p.x as int, dirs, hc, d), sensor_y(p.y as int, dirs, hc, d)),
        signal(table, grids, p.id as int, sensor_x(p.x as int, dirs, hl, d), sensor_y(p.y as int, dirs, hl, d)),
        signal(table, grids, p.id as int, sensor_x(p.x as int, dirs, hr, d), sensor_y(p.y as int, dirs, hr, d)),
        g.width as int,
        g.height as int,
    )
}

/// The trail of population `pop` after the first `k` agents of `agents`
/// have deposited into it, in order.
pub open spec fn deposited(data: Seq<u32>, g: Grid, agents: Seq<Particle>, pop: int, k: int) -> Seq<u32>
    decreases k,
{
    if k <= 0 {
        data
    } else {
        let prev = deposited(data, g, agents, pop, k - 1);
        let a = agents[k - 1];
        if a.id == pop {
            let i = g.index_of(a.x as int, a.y as int);
            prev.update(i, sat_add(prev[i], g.config.deposition_amount))
        } else {
            prev
        }
    }
}

/// The tie-break turn of agent number `agent`.
fn tie_break(agent: u64) -> (t: i8)
    ensures
        t as int == tie_turn(agent),
{
    let v = agent.wrapping_add(1).wrapping_mul(TIE_MULTIPLIER);
    if v >= 0x8000_0000_0000_0000 {
        1
    } else {
        -1
    }
}

/// `h + sign * steps` on a ring of `n` headings.
fn turn_heading(h: usize, steps: u32, sign: i8, n: usize) -> (r: usize)
    requires
        h < n <= MAX_DIM,
        -1 <= sign <= 1,
    ensures
        r as int == turned(h as int, (sign as int) * (steps as int), n as int),
        r < n,
{
    let s = (steps as usize) % n;
    proof {
        vstd::arithmetic::div_mod::lemma_fundamental_div_mod(steps as int, n as int);
    }
    if sign == 0 {
        proof {
            crate::grid::lemma_mod_shift(h as int, 0, n as int);
            vstd::arithmetic::div_mod::lemma_small_mod(h as nat, n as nat);
            assert((sign as int) * (steps as int) == 0);
        }
        h
    } else if sign > 0 {
        proof {
            assert(sign == 1);
            crate::grid::lemma_mod_shift((h + s) as int, (steps as int) / (n as int), n as int);
            assert((h + s) as int + (steps as int / n as int) * n == h + steps) by (nonlinear_arith)
                requires steps as int == n * (steps as int / n as int) + s;
            assert((sign as int) * (steps as int) == steps);
            assert(((h + s) as int) % (n as int) == turned(h as int, steps as int, n as int));
        }
        (h + s) % n
    } else {
        proof {
            assert(sign == -1);
            crate::grid::lemma_mod_shift((h + n - s) as int, -(1 + (steps as int) / (n as int)), n as int);
            assert((h + n - s) as int + (-(1 + steps as int / n as int)) * n == h - steps) by (nonlinear_arith)
                requires steps as int == n * (steps as int / n as int) + s;
            assert((sign as int) * (steps as int) == -steps);
            assert(((h + n - s) as int) % (n as int) == turned(h as int, -steps, n as int));
        }
        (h + n - s) % n
    }
}

/// `t mod p`, in `[0, p)`.
fn wrap_pos(t: i64, p: i64) -> (r: i64)
    requires
        0 < p,
        t > i64::MIN,
    ensures
        r as int == wrap(t as int, p as int),
        0 <= r < p,
{
    if t >= 0 {
        proof { crate::grid::lemma_mod_shift(t as int, 0, p as int); }
        t % p
    } else {
        let u: i64 = -t;
        let r = u % p;
        proof {
            vstd::arithmetic::div_mod::lemma_fundamental_div_mod(u as int, p as int);
            vstd::arithmetic::div_mod::lemma_mod_bound(u as int, p as int);
        }
        if r == 0 {
            proof {
                assert(t == (-(u as int / p as int)) * p + 0) by (nonlinear_arith)
                    requires u as int == p * (u as int / p as int) + r, t == -u, r == 0;
                vstd::arithmetic::div_mod::lemma_fundamental_div_mod_converse(t as int, p as int, -(u as int / p as int), 0);
            }
            0
        } else {
            proof {
                assert(t == (-(u as int / p as int) - 1) * p + (p - r)) by (nonlinear_arith)
                    requires u as int == p * (u as int / p as int) + r, t == -u;
                vstd::arithmetic::div_mod::lemma_fundamental_div_mod_converse(t as int, p as int, -(u as int / p as int) - 1, (p - r) as int);
            }
            p - r
        }
    }
}

/// The displacement along one axis of moving `dist` along unit-vector
/// component `v`.
fn offset_of(v: i32, dist: u32) -> (r: i64)
    requires
        -HEADING_ONE <= v <= HEADING_ONE,
    ensures
        r as int == offset(v as int, dist as int),
        -0x1_0000_0000 <= r <= 0x1_0000_0000,
{
    proof {
        assert(-0x1000 * 0x1_0000_0000 <= v * dist <= 0x1000 * 0x1_0000_0000) by (nonlinear_arith)
            requires -0x1000 <= v <= 0x1000, 0 <= dist < 0x1_0000_0000;
    }
    let r = (v as i64) * (dist as i64) / (HEADING_ONE as i64);
    proof {
        let a = v as int * dist as int;
        if a >= 0 {
            assert(a / 0x1000 <= 0x1_0000_0000) by (nonlinear_arith) requires 0 <= a <= 0x1000 * 0x1_0000_0000;
        } else {
            assert((-a) / 0x1000 <= 0x1_0000_0000) by (nonlinear_arith) requires 0 <= -a <= 0x1000 * 0x1_0000_0000;
        }
    }
    r
}

} // verus!

verus! {

/// `p` after sensing the combined signals held in the buffers of `grids`
/// and moving.
fn sense_and_move(
    p: Particle,
    agent: u64,
    grids: &Vec<Grid>,
    dirs: &Vec<(i32, i32)>,
    Ghost(table): Ghost<Seq<Vec<i32>>>,
    Ghost(g0): Ghost<Seq<Grid>>,
) -> (q: Particle)
    requires
        grids_uniform(grids@),
        grids@.len() == g0.len(),
        table_fits(table, g0.len() as int),
        directions_ok(dirs@),
        p.wf(grids@[0].width as int, grids@[0].height as int, dirs@.len() as int, grids@.len() as int),
        forall|i: int|
            0 <= i < g0.len() ==> {
                &&& (#[trigger] grids@[i]).config == g0[i].config
                &&& grids@[i].width == g0[i].width
                &&& grids@[i].height == g0[i].height
            },
        forall|i: int, c: int|
            0 <= i < grids@.len() && 0 <= c < grids@[i].buf@.len() ==> #[trigger] grids@[i].buf@[c]
                == weighted_sum(table[i]@, g0, c, g0.len() as int),
    ensures
        q == stepped(p, agent, table, g0, dirs@),
        q.wf(grids@[0].width as int, grids@[0].height as int, dirs@.len() as int, grids@.len() as int),
{
    let g = &grids[p.id];
    assert(g.wf());
    assert(g.width == grids@[0].width && g.height == grids@[0].height);
    let cfg = g.config;
    let n = dirs.len();
    let d = cfg.sensor_distance;
    let hc = p.heading;
    let hl = turn_heading(hc, cfg.sensor_angle, -1, n);
    let hr = turn_heading(hc, cfg.sensor_angle, 1, n);
    proof {
        crate::grid::lemma_dim_bound(g.width);
        crate::grid::lemma_dim_bound(g.height);
        assert(dirs@[hc as int].0 >= -HEADING_ONE);
        assert(dirs@[hl as int].0 >= -HEADING_ONE);
        assert(dirs@[hr as int].0 >= -HEADING_ONE);
    }
    let c = g.get_buf(p.x + offset_of(dirs[hc].0, d), p.y + offset_of(dirs[hc].1, d));
    let l = g.get_buf(p.x + offset_of(dirs[hl].0, d), p.y + offset_of(dirs[hl].1, d));
    let r = g.get_buf(p.x + offset_of(dirs[hr].0, d), p.y + offset_of(dirs[hr].1, d));
    proof {
        assert(c == signal(table, g0, p.id as int, sensor_x(p.x as int, dirs@, hc as int, d as int), sensor_y(p.y as int, dirs@, hc as int, d as int)));
        assert(l == signal(table, g0, p.id as int, sensor_x(p.x as int, dirs@, hl as int, d as int), sensor_y(p.y as int, dirs@, hl as int, d as int)));
        assert(r == signal(table, g0, p.id as int, sensor_x(p.x as int, dirs@, hr as int, d as int), sensor_y(p.y as int, dirs@, hr as int, d as int)));
    }
    let turn = PhysarumModel::pick_direction(c, l, r, agent);
    let hd = turn_heading(hc, cfg.rotation_angle, turn, n);
    proof {
        assert(dirs@[hd as int].0 >= -HEADING_ONE);
    }
    let x = wrap_pos(p.x + offset_of(dirs[hd].0, cfg.step_distance), (g.width as i64) * SUBCELLS);
    let y = wrap_pos(p.y + offset_of(dirs[hd].1, cfg.step_distance), (g.height as i64) * SUBCELLS);
    Particle { x, y, heading: hd, id: p.id }
}

impl PhysarumModel {
    /// The turn an agent takes from its centre, left and right readings:
    /// straight on when the centre reads most, toward the larger side
    /// otherwise, and, when both sides read more than the centre, the side
    /// that agent number `agent` always takes.
    pub fn pick_direction(center: i128, left: i128, right: i128, agent: u64) -> (r: i8)
        ensures
            r as int == direction_of(center as int, left as int, right as int, agent),
            -1 <= r <= 1,
    {
        if center > left && center > right {
            0
        } else if center < left && center < right {
            tie_break(agent)
        } else if left < right {
            1
        } else if right < left {
            -1
        } else {
            0
        }
    }

    /// Replaces each population's configuration by the one at its position
    /// in `configs`.
    pub fn set_population_configs(&mut self, configs: Vec<PopulationConfig>)
        requires
            old(self).wf(),
            configs@.len() >= old(self).grids@.len(),
        ensures
            final(self).wf(),
            final(self).grids@.len() == old(self).grids@.len(),
            forall|i: int|
                0 <= i < final(self).grids@.len() ==> {
                    &&& (#[trigger] final(self).grids@[i]).config == configs@[i]
                    &&& final(self).grids@[i].data@ == old(self).grids@[i].data@
                    &&& final(self).grids@[i].buf@ == old(self).grids@[i].buf@
                    &&& final(self).grids@[i].width == old(self).grids@[i].width
                    &&& final(self).grids@[i].height == old(self).grids@[i].height
                },
            final(self).agents@ == old(self).agents@,
            final(self).attraction_table@ == old(self).attraction_table@,
            final(self).directions@ == old(self).directions@,
            final(self).diffusity == old(self).diffusity,
            final(self).iteration == old(self).iteration,
            final(self).palette == old(self).palette,
    {
        let n = self.grids.len();
        let ghost s0 = *self;
        let mut i: usize = 0;
        while i < n
            invariant
                0 <= i <= n,
                n == self.grids@.len(),
                n == s0.grids@.len(),
                s0.wf(),
                configs@.len() >= n,
                self.agents@ == s0.agents@,
                self.attraction_table@ == s0.attraction_table@,
                self.directions@ == s0.directions@,
                self.diffusity == s0.diffusity,
                self.iteration == s0.iteration,
                self.palette == s0.palette,
                forall|k: int|
                    0 <= k < n ==> {
                        &&& (#[trigger] self.grids@[k]).data@ == s0.grids@[k].data@
                        &&& self.grids@[k].buf@ == s0.grids@[k].buf@
                        &&& self.grids@[k].width == s0.grids@[k].width
                        &&& self.grids@[k].height == s0.grids@[k].height
                        &&& (k < i ==> self.grids@[k].config == configs@[k])
                        &&& (k >= i ==> self.grids@[k].config == s0.grids@[k].config)
                    },
            decreases n - i,
        {
            self.grids[i].config = configs[i];
            i = i + 1;
        }
        proof {
            assert forall|k: int| 0 <= k < n implies (#[trigger] self.grids@[k]).wf() by {
                assert(s0.grids@[k].wf());
            }
        }
    }
}

} // verus!

verus! {

impl PhysarumModel {
    /// One iteration: combine the trails into each population's signal,
    /// let every agent sense and move, let every agent deposit in order,
    /// diffuse every trail, and count the iteration.
    pub fn step(&mut self)
        requires
            old(self).wf(),
            old(self).iteration < u64::MAX,
        ensures
            final(self).wf(),
            final(self).iteration == old(self).iteration + 1,
            final(self).attraction_table@ == old(self).attraction_table@,
            final(self).directions@ == old(self).directions@,
            final(self).diffusity == old(self).diffusity,
            final(self).palette == old(self).palette,
            final(self).agents@.len() == old(self).agents@.len(),
            forall|k: int|
                0 <= k < final(self).agents@.len() ==> #[trigger] final(self).agents@[k] == stepped(
                    old(self).agents@[k],
                    k as u64,
                    old(self).attraction_table@,
                    old(self).grids@,
                    old(self).directions@,
                ),
            final(self).grids@.len() == old(self).grids@.len(),
            forall|p: int|
                0 <= p < final(self).grids@.len() ==> {
                    &&& (#[trigger] final(self).grids@[p]).config == old(self).grids@[p].config
                    &&& final(self).grids@[p].width == old(self).grids@[p].width
                    &&& final(self).grids@[p].height == old(self).grids@[p].height
                },
            forall|p: int, cx: int, cy: int|
                0 <= p < final(self).grids@.len() && 0 <= cx < final(self).width() && 0 <= cy
                    < final(self).height() ==> #[trigger] final(self).grids@[p].data@[cy
                    * final(self).width() + cx] == diffused(
                    deposited(
                        old(self).grids@[p].data@,
                        old(self).grids@[p],
                        final(self).agents@,
                        p,
                        final(self).agents@.len() as int,
                    ),
                    final(self).width(),
                    final(self).height(),
                    cx,
                    cy,
                    old(self).diffusity as int,
                    old(self).grids@[p].config.decay_factor as int,
                ),
    {
        let ghost s0 = *self;
        let n = self.grids.len();
        combine(&mut self.grids, &self.attraction_table);
        let ghost g1 = self.grids@;

        // Sense and move.
        let count = self.agents.len();
        let mut k: usize = 0;
        while k < count
            invariant
                0 <= k <= count,
                count == self.agents@.len(),
                count == s0.agents@.len(),
                self.grids@ == g1,
                grids_uniform(g1),
                g1.len() == n,
                n == s0.grids@.len(),
                s0.wf(),
                self.diffusity == s0.diffusity,
                self.palette == s0.palette,
                self.iteration == s0.iteration,
                self.attraction_table@ == s0.attraction_table@,
                self.directions@ == s0.directions@,
                forall|i: int|
                    0 <= i < n ==> {
                        &&& (#[trigger] g1[i]).config == s0.grids@[i].config
                        &&& g1[i].width == s0.grids@[i].width
                        &&& g1[i].height == s0.grids@[i].height
                        &&& g1[i].data@ == s0.grids@[i].data@
                    },
                forall|i: int, c: int|
                    0 <= i < n && 0 <= c < g1[i].buf@.len() ==> #[trigger] g1[i].buf@[c]
                        == weighted_sum(s0.attraction_table@[i]@, s0.grids@, c, n as int),
                forall|j: int|
                    0 <= j < k ==> #[trigger] self.agents@[j] == stepped(
                        s0.agents@[j],
                        j as u64,
                        s0.attraction_table@,
                        s0.grids@,
                        s0.directions@,
                    ),
                forall|j: int| k <= j < count ==> #[trigger] self.agents@[j] == s0.agents@[j],
                forall|j: int|
                    0 <= j < count ==> (#[trigger] self.agents@[j]).wf(
                        g1[0].width as int,
                        g1[0].height as int,
                        s0.directions@.len() as int,
                        n as int,
                    ),
            decreases count - k,
        {
            proof {
                assert(g1[0].width == s0.grids@[0].width);
                assert(s0.agents@[k as int].wf(s0.width(), s0.height(), s0.directions@.len() as int, n as int));
            }
            let q = sense_and_move(
                self.agents[k],
                k as u64,
                &self.grids,
                &self.directions,
                Ghost(s0.attraction_table@),
                Ghost(s0.grids@),
            );
            self.agents.set(k, q);
            k = k + 1;
        }

        // Deposit, one agent after another.
        let ghost moved = self.agents@;
        let mut k: usize = 0;
        while k < count
            invariant
                0 <= k <= count,
                count == self.agents@.len(),
                self.diffusity == s0.diffusity,
                self.palette == s0.palette,
                self.iteration == s0.iteration,
                self.attraction_table@ == s0.attraction_table@,
                self.directions@ == s0.directions@,
                self.agents@ == moved,
                s0.wf(),
                self.grids@.len() == n,
                grids_uniform(self.grids@),
                forall|i: int|
                    0 <= i < n ==> {
                        &&& (#[trigger] self.grids@[i]).config == s0.grids@[i].config
                        &&& self.grids@[i].width == s0.grids@[i].width
                        &&& self.grids@[i].height == s0.grids@[i].height
                        &&& self.grids@[i].data@ == deposited(
                            s0.grids@[i].data@,
                            s0.grids@[i],
                            moved,
                            i,
                            k as int,
                        )
                    },
                forall|j: int|
                    0 <= j < count ==> (#[trigger] moved[j]).id < n,
            decreases count - k,
        {
            let a = self.agents[k];
            proof { assert(moved[k as int].id < n); }
            self.grids[a.id].deposit(a.x, a.y);
            k = k + 1;
        }

        // Diffuse every trail.
        let ghost g2 = self.grids@;
        let radius = self.diffusity;
        let mut i: usize = 0;
        while i < n
            invariant
                0 <= i <= n,
                self.diffusity == s0.diffusity,
                self.palette == s0.palette,
                self.iteration == s0.iteration,
                self.attraction_table@ == s0.attraction_table@,
                self.directions@ == s0.directions@,
                radius == s0.diffusity,
                radius < MAX_DIM,
                self.agents@ == moved,
                self.grids@.len() == n,
                g2.len() == n,
                grids_uniform(g2),
                grids_uniform(self.grids@),
                forall|p: int|
                    0 <= p < n ==> {
                        &&& (#[trigger] self.grids@[p]).config == g2[p].config
                        &&& self.grids@[p].width == g2[p].width
                        &&& self.grids@[p].height == g2[p].height
                        &&& (p >= i ==> self.grids@[p].data@ == g2[p].data@)
                    },
                forall|p: int, cx: int, cy: int|
                    0 <= p < i && 0 <= cx < g2[0].width && 0 <= cy < g2[0].height
                        ==> #[trigger] self.grids@[p].data@[cy * g2[0].width + cx] == diffused(
                        g2[p].data@,
                        g2[0].width as int,
                        g2[0].height as int,
                        cx,
                        cy,
                        radius as int,
                        g2[p].config.decay_factor as int,
                    ),
            decreases n - i,
        {
            proof {
                assert(self.grids@[i as int].wf());
                assert(g2[i as int].width == g2[0].width);
                assert(g2[i as int].height == g2[0].height);
            }
            self.grids[i].diffuse(radius);
            i = i + 1;
        }
        self.iteration = self.iteration + 1;
        proof {
            assert(self.grids@[0].width == s0.grids@[0].width);
            assert(self.grids@[0].height == s0.grids@[0].height);
            assert forall|j: int| 0 <= j < self.agents@.len() implies (#[trigger] self.agents@[j]).wf(
                self.width(),
                self.height(),
                self.directions@.len() as int,
                self.grids@.len() as int,
            ) by {
                assert(g1[0].width == s0.grids@[0].width);
            }
        }
    }
}

} // verus!

verus! {

/// Number of agents each population gets: `n_particles / n_populations`,
/// rounded up.
pub fn particles_per_population(n_particles: usize, n_populations: usize) -> (r: usize)
    requires
        n_populations > 0,
    ensures
        r as int == share(n_particles as int, n_populations as int),
        r * n_populations >= n_particles,
        (r - 1) * n_populations < n_particles,
{
    let q = n_particles / n_populations;
    let rem = n_particles % n_populations;
    proof {
        let n = n_particles as int;
        let p = n_populations as int;
        vstd::arithmetic::div_mod::lemma_fundamental_div_mod(n, p);
        if rem == 0 {
            assert(n + p - 1 == q * p + (p - 1)) by (nonlinear_arith) requires n == p * q + rem, rem == 0;
            vstd::arithmetic::div_mod::lemma_fundamental_div_mod_converse(n + p - 1, p, q as int, p - 1);
        } else {
            assert(n + p - 1 == (q + 1) * p + (rem - 1)) by (nonlinear_arith) requires n == p * q + rem;
            vstd::arithmetic::div_mod::lemma_fundamental_div_mod_converse(n + p - 1, p, q + 1, rem - 1);
            assert(q < n) by (nonlinear_arith) requires n == p * q + rem, rem > 0, p >= 1, q >= 0;
        }
        assert(q * p <= n) by (nonlinear_arith) requires n == p * q + rem, rem >= 0;
        assert((q + 1) * p == q * p + p) by (nonlinear_arith);
        assert((q - 1) * p == q * p - p) by (nonlinear_arith);
    }
    if rem == 0 {
        q
    } else {
        q + 1
    }
}

impl PhysarumModel {
    /// An engine over `grids`, one per population, with agents placed at
    /// `starts` (sub-cell position and heading). Agents come in contiguous
    /// blocks of `particles_per_population(n_particles, n_populations)`:
    /// the first block belongs to population 0, the next to population 1,
    /// and so on.
    pub fn new(
        width: usize,
        height: usize,
        n_particles: usize,
        n_populations: usize,
        diffusity: usize,
        palette_index: usize,
        directions: Vec<(i32, i32)>,
        attraction_table: Vec<Vec<i32>>,
        grids: Vec<Grid>,
        starts: Vec<(i64, i64, usize)>,
    ) -> (m: PhysarumModel)
        requires
            n_populations > 0,
            grids_uniform(grids@),
            grids@.len() == n_populations,
            grids@[0].width == width,
            grids@[0].height == height,
            table_fits(attraction_table@, n_populations as int),
            directions_ok(directions@),
            diffusity < MAX_DIM,
            starts@.len() == share(n_particles as int, n_populations as int) * n_populations,
            forall|k: int|
                0 <= k < starts@.len() ==> {
                    &&& 0 <= (#[trigger] starts@[k]).0 < width * SUBCELLS
                    &&& 0 <= starts@[k].1 < height * SUBCELLS
                    &&& starts@[k].2 < directions@.len()
                },
        ensures
            m.wf(),
            m.grids@ == grids@,
            m.attraction_table@ == attraction_table@,
            m.directions@ == directions@,
            m.diffusity == diffusity,
            m.palette == palette_index,
            m.iteration == 0,
            m.agents@.len() == starts@.len(),
            forall|k: int|
                0 <= k < m.agents@.len() ==> #[trigger] m.agents@[k] == (Particle {
                    x: starts@[k].0,
                    y: starts@[k].1,
                    heading: starts@[k].2,
                    id: (k / share(n_particles as int, n_populations as int)) as usize,
                }),
    {
        let per = particles_per_population(n_particles, n_populations);
        let count = starts.len();
        let mut agents: Vec<Particle> = Vec::new();
        let mut k: usize = 0;
        while k < count
            invariant
                0 <= k <= count,
                count == starts@.len(),
                count == per * n_populations,
                per as int == share(n_particles as int, n_populations as int),
                agents@.len() == k,
                forall|j: int|
                    0 <= j < k ==> #[trigger] agents@[j] == (Particle {
                        x: starts@[j].0,
                        y: starts@[j].1,
                        heading: starts@[j].2,
                        id: (j / per as int) as usize,
                    }),
                forall|j: int| 0 <= j < k ==> (#[trigger] agents@[j]).id < n_populations,
            decreases count - k,
        {
            let (x, y, heading) = starts[k];
            proof {
                assert(per > 0) by (nonlinear_arith) requires count == per * n_populations, k < count, per >= 0;
                assert(k / per < n_populations as int) by (nonlinear_arith)
                    requires k < per * n_populations, per > 0;
            }
            agents.push(Particle { x, y, heading, id: k / per });
            k = k + 1;
        }
        PhysarumModel {
            grids,
            agents,
            attraction_table,
            directions,
            diffusity,
            iteration: 0,
            palette: palette_index,
        }
    }

    /// The trail of population `pop`, row-major.
    pub fn data(&self, pop: usize) -> (r: &[u32])
        requires
            pop < self.grids@.len(),
        ensures
            r@ == self.grids@[pop as int].data@,
    {
        self.grids[pop].data()
    }

    /// How many agents the engine runs.
    pub fn particle_count(&self) -> (r: usize)
        ensures
            r == self.agents@.len(),
    {
        self.agents.len()
    }
}

} // verus!
