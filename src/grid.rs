use vstd::prelude::*;
use vstd::multiset::Multiset;
use vstd::arithmetic::power2::pow2;
use vstd::bits::{low_bits_mask, lemma_u64_low_bits_mask_is_mod};

verus! {

/// Number of sub-cell position units in one grid cell.
pub const SUBCELLS: i64 = 256;

/// Largest width or height a grid may have.
pub const MAX_DIM: usize = 0x8000;

/// `n` is a power of two no larger than `MAX_DIM`.
pub open spec fn is_dim(n: usize) -> bool {
    exists|e: nat| e <= 15 && pow2(e) == n
}

/// The cell column (or row) that a sub-cell coordinate falls into on a ring of
/// `n` cells: the coordinate is shifted by one period, truncated to a cell, and
/// wrapped. A coordinate more than one period below zero truncates to cell 0.
pub open spec fn cell_of(p: int, n: int) -> int {
    if p + n * SUBCELLS < 0 {
        0
    } else {
        ((p + n * SUBCELLS) / (SUBCELLS as int)) % n
    }
}

/// Behaviour parameters of one population.
#[derive(Clone, Copy, Debug, PartialEq, Eq)]
pub struct PopulationConfig {
    /// Trail added to a cell by one agent in one step.
    pub deposition_amount: u32,
    /// Retention per diffusion pass, in units of `1 / DECAY_ONE`.
    pub decay_factor: u32,
    /// Distance from an agent to its sensors, in sub-cell units.
    pub sensor_distance: u32,
    /// Angle between the centre sensor and a side sensor, in heading steps.
    pub sensor_angle: u32,
    /// Angle an agent turns by, in heading steps.
    pub rotation_angle: u32,
    /// Distance an agent moves per step, in sub-cell units.
    pub step_distance: u32,
}

/// One population's trail field together with its sensing buffer.
#[derive(Debug)]
pub struct Grid {
    pub config: PopulationConfig,
    pub width: usize,
    pub height: usize,
    /// Trail intensity of each cell, row-major.
    pub data: Vec<u32>,
    /// Combined signal each cell presents to this population's agents; also
    /// scratch space while diffusing.
    pub buf: Vec<i128>,
}

impl Grid {
    /// Dimensions are powers of two and both buffers hold one value per cell.
    pub open spec fn wf(&self) -> bool {
        &&& is_dim(self.width)
        &&& is_dim(self.height)
        &&& self.data@.len() == self.width * self.height
        &&& self.buf@.len() == self.width * self.height
    }

    /// The cell index that sub-cell position `(x, y)` addresses.
    pub open spec fn index_of(&self, x: int, y: int) -> int {
        cell_of(y, self.height as int) * self.width + cell_of(x, self.width as int)
    }

    /// A grid whose trail is `data` (row-major) and whose buffer is zero.
    pub fn new(width: usize, height: usize, config: PopulationConfig, data: Vec<u32>) -> (g: Grid)
        requires
            is_dim(width),
            is_dim(height),
            data@.len() == width * height,
        ensures
            g.wf(),
            g.width == width,
            g.height == height,
            g.config == config,
            g.data@ == data@,
            forall|i: int| 0 <= i < g.buf@.len() ==> g.buf@[i] == 0,
    {
        proof { lemma_dim_product(width, height); }
        let n = width * height;
        let buf: Vec<i128> = vec![0i128; n];
        Grid { config, width, height, data, buf }
    }

    /// Index of the cell holding sub-cell position `(x, y)`, wrapping around
    /// both axes.
    pub fn index(&self, x: i64, y: i64) -> (r: usize)
        requires
            self.wf(),
        ensures
            r as int == self.index_of(x as int, y as int),
            r < self.width * self.height,
    {
        let i = wrap_cell(x, self.width);
        let j = wrap_cell(y, self.height);
        proof {
            lemma_dim_product(self.width, self.height);
            assert(j * self.width + i < self.width * self.height) by (nonlinear_arith)
                requires j < self.height, i < self.width;
        }
        j * self.width + i
    }

    /// The combined signal at sub-cell position `(x, y)`.
    pub fn get_buf(&self, x: i64, y: i64) -> (r: i128)
        requires
            self.wf(),
        ensures
            r == self.buf@[self.index_of(x as int, y as int)],
            0 <= self.index_of(x as int, y as int) < self.buf@.len(),
    {
        let i = self.index(x, y);
        self.buf[i]
    }

    /// Adds the population's deposition amount to the cell holding `(x, y)`,
    /// saturating at the largest trail value.
    pub fn deposit(&mut self, x: i64, y: i64)
        requires
            old(self).wf(),
        ensures
            final(self).wf(),
            final(self).width == old(self).width,
            final(self).height == old(self).height,
            final(self).config == old(self).config,
            final(self).buf@ == old(self).buf@,
            final(self).data@ == old(self).data@.update(
                old(self).index_of(x as int, y as int),
                sat_add(
                    old(self).data@[old(self).index_of(x as int, y as int)],
                    old(self).config.deposition_amount,
                ),
            ),
    {
        let i = self.index(x, y);
        let v = self.data[i].saturating_add(self.config.deposition_amount);
        self.data.set(i, v);
    }

    /// The trail values, row-major.
    pub fn data(&self) -> (r: &[u32])
        ensures
            r@ == self.data@,
    {
        self.data.as_slice()
    }
}

/// `a + b`, capped at the largest `u32`.
pub open spec fn sat_add(a: u32, b: u32) -> u32 {
    if a + b > u32::MAX {
        u32::MAX
    } else {
        (a + b) as u32
    }
}

pub proof fn lemma_dim_bound(n: usize)
    requires
        is_dim(n),
    ensures
        1 <= n <= MAX_DIM,
{
    let e = choose|e: nat| e <= 15 && pow2(e) == n;
    vstd::arithmetic::power2::lemma_pow2_pos(e);
    if e < 15 {
        vstd::arithmetic::power2::lemma_pow2_strictly_increases(e, 15);
    }
    vstd::arithmetic::power2::lemma2_to64();
}

pub proof fn lemma_dim_product(w: usize, h: usize)
    requires
        is_dim(w),
        is_dim(h),
    ensures
        1 <= w * h <= MAX_DIM * MAX_DIM,
{
    lemma_dim_bound(w);
    lemma_dim_bound(h);
    assert(1 <= w * h <= MAX_DIM * MAX_DIM) by (nonlinear_arith)
        requires 1 <= w <= MAX_DIM, 1 <= h <= MAX_DIM;
}

/// The cell that coordinate `p` falls into on a ring of `n` cells, by the
/// shift-truncate-mask rule of `cell_of`.
fn wrap_cell(p: i64, n: usize) -> (r: usize)
    requires
        is_dim(n),
    ensures
        r as int == cell_of(p as int, n as int),
        r < n,
{
    proof { lemma_dim_bound(n); }
    let s: i128 = p as i128 + (n as i128) * (SUBCELLS as i128);
    if s < 0 {
        0
    } else {
        let c: u64 = (s / (SUBCELLS as i128)) as u64;
        let mask: u64 = (n - 1) as u64;
        proof {
            let e = choose|e: nat| e <= 15 && pow2(e) == n;
            lemma_u64_low_bits_mask_is_mod(c, e);
        }
        (c & mask) as usize
    }
}

} // verus!

verus! {

/// `sum_{j < k} row[j] * grids[j].data[c]`: the combined signal at cell `c`
/// from the first `k` populations, weighted by one row of the attraction
/// table.
pub open spec fn weighted_sum(row: Seq<i32>, grids: Seq<Grid>, c: int, k: int) -> int
    decreases k,
{
    if k <= 0 {
        0
    } else {
        weighted_sum(row, grids, c, k - 1) + row[k - 1] * grids[k - 1].data@[c]
    }
}

/// Every grid is well formed and all share one shape.
pub open spec fn grids_uniform(grids: Seq<Grid>) -> bool {
    &&& grids.len() > 0
    &&& forall|i: int| 0 <= i < grids.len() ==> (#[trigger] grids[i]).wf()
    &&& forall|i: int|
        0 <= i < grids.len() ==> (#[trigger] grids[i]).width == grids[0].width
            && grids[i].height == grids[0].height
}

/// The attraction table is square with one row and one column per grid.
pub open spec fn table_fits(table: Seq<Vec<i32>>, n: int) -> bool {
    &&& table.len() == n
    &&& forall|i: int| 0 <= i < n ==> (#[trigger] table[i])@.len() == n
}

proof fn lemma_term_bound(w: i32, d: u32)
    ensures
        -0x8000_0000_0000_0000 < w * d < 0x8000_0000_0000_0000,
{
    assert(-0x8000_0000_0000_0000 < w * d < 0x8000_0000_0000_0000) by (nonlinear_arith)
        requires -0x8000_0000 <= w < 0x8000_0000, 0 <= d < 0x1_0000_0000;
}

/// Recomputes every grid's buffer as the attraction-weighted sum of all
/// grids' trails: `buf_i[c] = sum_j attraction_table[i][j] * data_j[c]`.
/// Trails are left unchanged.
pub fn combine(grids: &mut Vec<Grid>, attraction_table: &Vec<Vec<i32>>)
    requires
        grids_uniform(old(grids)@),
        table_fits(attraction_table@, old(grids)@.len() as int),
    ensures
        grids_uniform(final(grids)@),
        final(grids)@.len() == old(grids)@.len(),
        forall|i: int|
            0 <= i < final(grids)@.len() ==> {
                &&& (#[trigger] final(grids)@[i]).data@ == old(grids)@[i].data@
                &&& final(grids)@[i].config == old(grids)@[i].config
                &&& final(grids)@[i].width == old(grids)@[i].width
                &&& final(grids)@[i].height == old(grids)@[i].height
            },
        forall|i: int, c: int|
            0 <= i < final(grids)@.len() && 0 <= c < final(grids)@[i].buf@.len()
                ==> #[trigger] final(grids)@[i].buf@[c] == weighted_sum(
                attraction_table@[i]@,
                old(grids)@,
                c,
                old(grids)@.len() as int,
            ),
{
    let n = grids.len();
    proof {
        assert(grids@[0].wf());
        lemma_dim_product(grids@[0].width, grids@[0].height);
    }
    let cells = grids[0].width * grids[0].height;
    let ghost g0 = grids@;
    let mut i: usize = 0;
    while i < n
        invariant
            n == grids@.len(),
            n == g0.len(),
            cells == g0[0].width * g0[0].height,
            table_fits(attraction_table@, n as int),
            grids_uniform(g0),
            grids_uniform(grids@),
            0 <= i <= n,
            forall|k: int|
                0 <= k < n ==> {
                    &&& (#[trigger] grids@[k]).data@ == g0[k].data@
                    &&& grids@[k].config == g0[k].config
                    &&& grids@[k].width == g0[k].width
                    &&& grids@[k].height == g0[k].height
                },
            forall|k: int, c: int|
                0 <= k < i && 0 <= c < grids@[k].buf@.len() ==> #[trigger] grids@[k].buf@[c]
                    == weighted_sum(attraction_table@[k]@, g0, c, n as int),
            forall|k: int| i <= k < n ==> (#[trigger] grids@[k]).buf@ == g0[k].buf@,
        decreases n - i,
    {
        let row = &attraction_table[i];
        let mut out: Vec<i128> = Vec::new();
        let mut c: usize = 0;
        while c < cells
            invariant
                n == grids@.len(),
                n == g0.len(),
                cells == g0[0].width * g0[0].height,
                grids_uniform(g0),
                0 <= i < n,
                row@.len() == n,
                row@ == attraction_table@[i as int]@,
                forall|k: int| 0 <= k < n ==> (#[trigger] grids@[k]).data@ == g0[k].data@,
                0 <= c <= cells,
                out@.len() == c,
                forall|q: int| 0 <= q < c ==> #[trigger] out@[q] == weighted_sum(row@, g0, q, n as int),
            decreases cells - c,
        {
            let mut acc: i128 = 0;
            let mut j: usize = 0;
            while j < n
                invariant
                    n == grids@.len(),
                    n == g0.len(),
                    cells == g0[0].width * g0[0].height,
                    grids_uniform(g0),
                    row@.len() == n,
                    forall|k: int| 0 <= k < n ==> (#[trigger] grids@[k]).data@ == g0[k].data@,
                    0 <= c < cells,
                    0 <= j <= n,
                    acc == weighted_sum(row@, g0, c as int, j as int),
                    -(j * 0x8000_0000_0000_0000) <= acc <= j * 0x8000_0000_0000_0000,
                decreases n - j,
            {
                assert(g0[j as int].wf());
                assert(g0[j as int].width == g0[0].width);
                let w: i32 = row[j];
                let d: u32 = grids[j].data[c];
                proof { lemma_term_bound(w, d); }
                acc = acc + (w as i128) * (d as i128);
                j = j + 1;
            }
            out.push(acc);
            c = c + 1;
        }
        assert(grids@[i as int].wf());
        assert(grids@[i as int].width == g0[0].width);
        assert(grids@[i as int].height == g0[0].height);
        grids[i].buf = out;
        i = i + 1;
    }
}

} // verus!

verus! {

/// Denominator of `PopulationConfig::decay_factor`: a factor of `DECAY_ONE`
/// keeps the trail unchanged.
pub const DECAY_ONE: u32 = 0x1_0000;

/// `p mod n`, in `[0, n)`, for any integer `p`.
pub open spec fn wrap(p: int, n: int) -> int {
    p % n
}

/// Sum of the first `k` cells of row `row`, starting `r` columns left of
/// column `cx` and wrapping around the row.
pub open spec fn row_sum(data: Seq<u32>, w: int, row: int, cx: int, r: int, k: int) -> int
    decreases k,
{
    if k <= 0 {
        0
    } else {
        row_sum(data, w, row, cx, r, k - 1) + data[row * w + wrap(cx + (k - 1) - r, w)]
    }
}

/// Sum of the first `k` rows of the `(2r+1) x (2r+1)` box centred on
/// `(cx, cy)`, wrapping around both axes.
pub open spec fn box_sum(data: Seq<u32>, w: int, h: int, cx: int, cy: int, r: int, k: int) -> int
    decreases k,
{
    if k <= 0 {
        0
    } else {
        box_sum(data, w, h, cx, cy, r, k - 1) + row_sum(
            data,
            w,
            wrap(cy + (k - 1) - r, h),
            cx,
            r,
            2 * r + 1,
        )
    }
}

/// The value cell `(cx, cy)` takes after one diffusion pass: the mean of
/// the surrounding `(2r+1) x (2r+1)` box, times `decay / DECAY_ONE`, rounded
/// down and capped at the largest trail value.
pub open spec fn diffused(data: Seq<u32>, w: int, h: int, cx: int, cy: int, r: int, decay: int) -> int {
    let side = 2 * r + 1;
    let v = box_sum(data, w, h, cx, cy, r, side) * decay / (side * side * DECAY_ONE);
    if v > u32::MAX { u32::MAX as int } else { v }
}

pub(crate) proof fn lemma_mod_shift(a: int, k: int, m: int)
    requires
        m > 0,
    ensures
        (a + k * m) % m == a % m,
        0 <= a % m < m,
{
    vstd::arithmetic::div_mod::lemma_fundamental_div_mod(a, m);
    vstd::arithmetic::div_mod::lemma_mod_bound(a, m);
    assert(a + k * m == (a / m + k) * m + a % m) by (nonlinear_arith)
        requires a == m * (a / m) + a % m;
    vstd::arithmetic::div_mod::lemma_fundamental_div_mod_converse(a + k * m, m, a / m + k, a % m);
}

proof fn lemma_row_major_lt(px: int, py: int, w: int, cy: int)
    requires
        0 <= px < w,
        0 <= py < cy,
    ensures
        py * w + px < cy * w,
{
    assert(py * w + px < (py + 1) * w) by (nonlinear_arith) requires px < w;
    assert((py + 1) * w <= cy * w) by (nonlinear_arith) requires py + 1 <= cy, w >= 0;
}

/// `(c + t - r) mod n`, computed without going below zero.
fn wrap_offset(c: usize, t: usize, r: usize, n: usize) -> (o: usize)
    requires
        c < n <= MAX_DIM,
        t <= 2 * r,
        r < MAX_DIM,
    ensures
        o as int == wrap(c + t - r, n as int),
        o < n,
{
    let rm = r % n;
    proof {
        vstd::arithmetic::div_mod::lemma_fundamental_div_mod(r as int, n as int);
        lemma_mod_shift((c + t + n - rm) as int, -(1 + r as int / n as int), n as int);
        assert((c + t + n - rm) as int + (-(1 + r as int / n as int)) * n == c + t - r)
            by (nonlinear_arith)
            requires r as int == n as int * (r as int / n as int) + rm as int;
    }
    (c + n - rm + t) % n
}

impl Grid {
    /// One diffusion pass: every cell becomes the decayed mean of the box of
    /// radius `radius` around it, read from the trail as it was before the
    /// pass.
    pub fn diffuse(&mut self, radius: usize)
        requires
            old(self).wf(),
            radius < MAX_DIM,
        ensures
            final(self).wf(),
            final(self).width == old(self).width,
            final(self).height == old(self).height,
            final(self).config == old(self).config,
            final(self).buf@ == old(self).buf@,
            forall|cx: int, cy: int|
                0 <= cx < old(self).width && 0 <= cy < old(self).height ==> #[trigger] final(self).data@[cy * old(self).width + cx] == diffused(
                    old(self).data@,
                    old(self).width as int,
                    old(self).height as int,
                    cx,
                    cy,
                    radius as int,
                    old(self).config.decay_factor as int,
                ),
    {
        let w = self.width;
        let h = self.height;
        proof {
            lemma_dim_bound(w);
            lemma_dim_bound(h);
            lemma_dim_product(w, h);
        }
        let side: usize = 2 * radius + 1;
        let decay = self.config.decay_factor;
        let mut out: Vec<u32> = Vec::new();
        let mut cy: usize = 0;
        while cy < h
            invariant
                self.wf(),
                w == self.width,
                h == self.height,
                1 <= w <= MAX_DIM,
                1 <= h <= MAX_DIM,
                radius < MAX_DIM,
                side == 2 * radius + 1,
                decay == self.config.decay_factor,
                0 <= cy <= h,
                out@.len() == cy * w,
                forall|px: int, py: int|
                    0 <= px < w && 0 <= py < cy ==> #[trigger] out@[py * w + px] == diffused(
                        self.data@,
                        w as int,
                        h as int,
                        px,
                        py,
                        radius as int,
                        decay as int,
                    ),
            decreases h - cy,
        {
            let mut cx: usize = 0;
            while cx < w
                invariant
                    self.wf(),
                    w == self.width,
                    h == self.height,
                    1 <= w <= MAX_DIM,
                    1 <= h <= MAX_DIM,
                    radius < MAX_DIM,
                    side == 2 * radius + 1,
                    decay == self.config.decay_factor,
                    0 <= cy < h,
                    0 <= cx <= w,
                    out@.len() == cy * w + cx,
                    forall|px: int, py: int|
                        0 <= px < w && 0 <= py < cy ==> #[trigger] out@[py * w + px] == diffused(
                            self.data@,
                            w as int,
                            h as int,
                            px,
                            py,
                            radius as int,
                            decay as int,
                        ),
                    forall|px: int|
                        0 <= px < cx ==> #[trigger] out@[cy * w + px] == diffused(
                            self.data@,
                            w as int,
                            h as int,
                            px,
                            cy as int,
                            radius as int,
                            decay as int,
                        ),
                decreases w - cx,
            {
                let total = self.box_total(cx, cy, radius);
                proof {
                    assert(total * decay < 0x1_0000_0000_0000_0000_0000_0000) by (nonlinear_arith)
                        requires total <= side * side * u32::MAX, side <= 0x1_0000, decay <= u32::MAX;
                    assert(side * side * DECAY_ONE <= 0x1_0000_0000_0000) by (nonlinear_arith)
                        requires 1 <= side <= 0x1_0000, DECAY_ONE == 0x1_0000;
                    assert(side * side * DECAY_ONE > 0) by (nonlinear_arith)
                        requires 1 <= side, DECAY_ONE == 0x1_0000;
                }
                let scaled: u128 = total * (decay as u128);
                let denom: u128 = (side as u128) * (side as u128) * (DECAY_ONE as u128);
                let v: u128 = scaled / denom;
                let cell: u32 = if v > u32::MAX as u128 { u32::MAX } else { v as u32 };
                let ghost prev = out@;
                out.push(cell);
                proof {
                    assert forall|px: int, py: int|
                        0 <= px < w && 0 <= py < cy implies #[trigger] out@[py * w + px] == diffused(
                            self.data@, w as int, h as int, px, py, radius as int, decay as int,
                        ) by {
                        lemma_row_major_lt(px, py, w as int, cy as int);
                        assert(out@[py * w + px] == prev[py * w + px]);
                    }
                    assert forall|px: int|
                        0 <= px < cx + 1 implies #[trigger] out@[cy * w + px] == diffused(
                            self.data@, w as int, h as int, px, cy as int, radius as int, decay as int,
                        ) by {
                        if px < cx {
                            assert(out@[cy * w + px] == prev[cy * w + px]);
                        }
                    }
                }
                cx = cx + 1;
            }
            proof {
                assert((cy + 1) * w == cy * w + w) by (nonlinear_arith);
                assert forall|px: int, py: int|
                    0 <= px < w && 0 <= py < cy + 1 implies #[trigger] out@[py * w + px] == diffused(
                        self.data@, w as int, h as int, px, py, radius as int, decay as int,
                    ) by {
                    if py == cy {
                        assert(out@[cy * w + px] == diffused(
                            self.data@, w as int, h as int, px, cy as int, radius as int, decay as int));
                    }
                }
            }
            cy = cy + 1;
        }
        proof {
            assert(h * w == w * h) by (nonlinear_arith);
            assert forall|cx: int, cy: int|
                0 <= cx < w && 0 <= cy < h implies #[trigger] out@[cy * w + cx] == diffused(
                    self.data@, w as int, h as int, cx, cy, radius as int, decay as int,
                ) by {}
        }
        self.data = out;
    }

    /// The undecayed sum over the `(2r+1) x (2r+1)` box around `(cx, cy)`.
    fn box_total(&self, cx: usize, cy: usize, radius: usize) -> (s: u128)
        requires
            self.wf(),
            cx < self.width,
            cy < self.height,
            radius < MAX_DIM,
        ensures
            s as int == box_sum(
                self.data@,
                self.width as int,
                self.height as int,
                cx as int,
                cy as int,
                radius as int,
                2 * radius + 1,
            ),
            s as int <= (2 * radius + 1) * (2 * radius + 1) * u32::MAX,
    {
        let w = self.width;
        let h = self.height;
        proof {
            lemma_dim_bound(w);
            lemma_dim_bound(h);
            lemma_dim_product(w, h);
        }
        let side: usize = 2 * radius + 1;
        let mut total: u128 = 0;
        let mut dy: usize = 0;
        while dy < side
            invariant
                self.wf(),
                w == self.width,
                h == self.height,
                1 <= w <= MAX_DIM,
                1 <= h <= MAX_DIM,
                cx < w,
                cy < h,
                w * h <= 0x4000_0000,
                radius < MAX_DIM,
                side == 2 * radius + 1,
                0 <= dy <= side,
                total as int == box_sum(self.data@, w as int, h as int, cx as int, cy as int, radius as int, dy as int),
                total as int <= dy * side * u32::MAX,
            decreases side - dy,
        {
            let row = wrap_offset(cy, dy, radius, h);
            let mut rs: u128 = 0;
            let mut dx: usize = 0;
            while dx < side
                invariant
                    self.wf(),
                    w == self.width,
                    h == self.height,
                    1 <= w <= MAX_DIM,
                    1 <= h <= MAX_DIM,
                    cx < w,
                    row < h,
                    w * h <= 0x4000_0000,
                    radius < MAX_DIM,
                    side == 2 * radius + 1,
                    0 <= dx <= side,
                    rs as int == row_sum(self.data@, w as int, row as int, cx as int, radius as int, dx as int),
                    rs as int <= dx * u32::MAX,
                decreases side - dx,
            {
                let col = wrap_offset(cx, dx, radius, w);
                proof {
                    assert(row * w + col < w * h) by (nonlinear_arith)
                        requires row < h, col < w;
                }
                let v = self.data[row * w + col];
                rs = rs + v as u128;
                dx = dx + 1;
            }
            proof {
                assert((dy + 1) * side * u32::MAX == dy * side * u32::MAX + side * u32::MAX)
                    by (nonlinear_arith);
            }
            proof {
                assert(dy * side * u32::MAX + side * u32::MAX <= side * side * u32::MAX)
                    by (nonlinear_arith) requires dy < side;
                assert(side * side * u32::MAX < 0x1_0000_0000_0000_0000_0000_0000) by (nonlinear_arith)
                    requires side <= 0x1_0000;
            }
            total = total + rs;
            dy = dy + 1;
        }
        total
    }
}

} // verus!

verus! {

/// `r` is the `k`-th smallest value (from 0) of the values `m`: some
/// ordering of them puts `r` at position `k`, nothing larger before it and
/// nothing smaller after it.
pub open spec fn is_order_statistic(m: Multiset<u32>, k: int, r: u32) -> bool {
    exists|p: Seq<u32>|
        #![trigger p.to_multiset()]
        p.to_multiset() == m && 0 <= k < p.len() && p[k] == r && (forall|i: int|
            0 <= i < k ==> #[trigger] p[i] <= r) && (forall|i: int|
            k < i < p.len() ==> #[trigger] p[i] >= r)
}

/// The rank that fraction `num / den` selects among `len` values: the last
/// one for a fraction of one, else `len * num / den` rounded down.
pub open spec fn quantile_rank(len: int, num: int, den: int) -> int {
    if num == den {
        len - 1
    } else {
        len * num / den
    }
}

/// Relies on `slice::select_nth_unstable`: it reorders the values so that
/// the one at `index` is where a sort would put it, with no larger value
/// before and no smaller value after it. It panics when `index` is out of
/// bounds.
#[verifier::external_body]
fn select_nth(v: &mut Vec<u32>, index: usize)
    requires
        index < old(v)@.len(),
    ensures
        final(v)@.len() == old(v)@.len(),
        final(v)@.to_multiset() == old(v)@.to_multiset(),
        forall|i: int| 0 <= i < index ==> #[trigger] final(v)@[i] <= final(v)@[index as int],
        forall|i: int| index < i < final(v)@.len() ==> #[trigger] final(v)@[i] >= final(v)@[index as int],
{
    v.select_nth_unstable(index);
}

impl Grid {
    /// The trail value at fraction `num / den` of the way through the sorted
    /// trail values.
    pub fn quantile(&self, num: u64, den: u64) -> (r: u32)
        requires
            self.wf(),
            0 < den,
            num <= den,
        ensures
            is_order_statistic(
                self.data@.to_multiset(),
                quantile_rank(self.data@.len() as int, num as int, den as int),
                r,
            ),
    {
        proof { lemma_dim_product(self.width, self.height); }
        let len = self.data.len();
        let index: usize = if num == den {
            len - 1
        } else {
            proof {
                assert((len as int) * (num as int) / (den as int) < len) by (nonlinear_arith)
                    requires num < den, 0 < den, len > 0;
                assert((len as int) * (num as int) / (den as int) >= 0) by (nonlinear_arith)
                    requires 0 < den, len > 0, num >= 0;
                assert((len as int) * (num as int) < 0x1_0000_0000_0000_0000_0000_0000) by (nonlinear_arith)
                    requires len <= 0x4000_0000, num <= u64::MAX;
            }
            ((len as u128) * (num as u128) / (den as u128)) as usize
        };
        let mut sorted = self.data.clone();
        select_nth(&mut sorted, index);
        let r = sorted[index];
        proof {
            assert(sorted@.to_multiset() == self.data@.to_multiset());
        }
        r
    }
}

} // verus!
