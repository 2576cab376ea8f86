use vstd::prelude::*;
use vstd::multiset::Multiset;
use crate::grid::{
    cell_of, diffused, is_order_statistic, quantile_rank, sat_add, weighted_sum, wrap, box_sum,
    row_sum, Grid, DECAY_ONE, SUBCELLS,
};

verus! {

broadcast use vstd::seq_lib::group_to_multiset_ensures;

/// Shifting a coordinate by whole periods of the torus addresses the same
/// cell, as long as neither coordinate lies more than one period below zero.
pub proof fn lemma_index_periodic(g: Grid, x: int, y: int, k: int)
    requires
        g.wf(),
        x + g.width * SUBCELLS >= 0,
        x + k * g.width * SUBCELLS + g.width * SUBCELLS >= 0,
        y + g.height * SUBCELLS >= 0,
        y + k * g.height * SUBCELLS + g.height * SUBCELLS >= 0,
    ensures
        g.index_of(x + k * g.width * SUBCELLS, y) == g.index_of(x, y),
        g.index_of(x, y + k * g.height * SUBCELLS) == g.index_of(x, y),
{
    crate::grid::lemma_dim_bound(g.width);
    crate::grid::lemma_dim_bound(g.height);
    lemma_cell_periodic(x, g.width as int, k);
    lemma_cell_periodic(y, g.height as int, k);
}

proof fn lemma_cell_periodic(x: int, n: int, k: int)
    requires
        n >= 1,
        x + n * SUBCELLS >= 0,
        x + k * n * SUBCELLS + n * SUBCELLS >= 0,
    ensures
        cell_of(x + k * n * SUBCELLS, n) == cell_of(x, n),
{
    let s = SUBCELLS as int;
    let a = x + n * s;
    vstd::arithmetic::div_mod::lemma_fundamental_div_mod(a, s);
    vstd::arithmetic::div_mod::lemma_mod_bound(a, s);
    assert(a + k * n * s == (a / s + k * n) * s + a % s) by (nonlinear_arith)
        requires a == s * (a / s) + a % s;
    vstd::arithmetic::div_mod::lemma_fundamental_div_mod_converse(a + k * n * s, s, a / s + k * n, a % s);
    crate::grid::lemma_mod_shift(a / s, k, n);
    assert(x + k * n * s + n * s == a + k * n * s);
}

/// With one population whose self-attraction is one, the combined signal
/// equals the trail.
pub proof fn lemma_combine_identity(row: Seq<i32>, grids: Seq<Grid>, c: int)
    requires
        grids.len() == 1,
        row.len() == 1,
        row[0] == 1,
    ensures
        weighted_sum(row, grids, c, 1) == grids[0].data@[c],
{
    assert(weighted_sum(row, grids, c, 0) == 0);
}

/// Depositing `v` into a cell of an all-zero trail and diffusing with
/// radius zero leaves `v * decay / DECAY_ONE` (rounded down) in that cell.
pub proof fn lemma_deposit_then_diffuse(g: Grid, x: int, y: int, decay: u32)
    requires
        g.wf(),
        decay <= DECAY_ONE,
        forall|i: int| 0 <= i < g.data@.len() ==> #[trigger] g.data@[i] == 0,
    ensures
        ({
            let i = g.index_of(x, y);
            let d = g.data@.update(i, sat_add(g.data@[i], g.config.deposition_amount));
            diffused(
                d,
                g.width as int,
                g.height as int,
                cell_of(x, g.width as int),
                cell_of(y, g.height as int),
                0,
                decay as int,
            ) == g.config.deposition_amount * decay / (DECAY_ONE as int)
        }),
{
    let w = g.width as int;
    let h = g.height as int;
    crate::grid::lemma_dim_bound(g.width);
    crate::grid::lemma_dim_bound(g.height);
    let cx = cell_of(x, w);
    let cy = cell_of(y, h);
    vstd::arithmetic::div_mod::lemma_mod_bound((x + w * SUBCELLS) / (SUBCELLS as int), w);
    vstd::arithmetic::div_mod::lemma_mod_bound((y + h * SUBCELLS) / (SUBCELLS as int), h);
    assert(0 <= cx < w && 0 <= cy < h);
    let i = g.index_of(x, y);
    assert(0 <= i < w * h) by (nonlinear_arith) requires i == cy * w + cx, 0 <= cx < w, 0 <= cy < h;
    let v = g.config.deposition_amount;
    let d = g.data@.update(i, sat_add(g.data@[i], v));
    vstd::arithmetic::div_mod::lemma_small_mod(cx as nat, w as nat);
    vstd::arithmetic::div_mod::lemma_small_mod(cy as nat, h as nat);
    assert(wrap(cy, h) == cy);
    assert(wrap(cx, w) == cx);
    assert(row_sum(d, w, cy, cx, 0, 0) == 0);
    assert(row_sum(d, w, cy, cx, 0, 1) == d[i]);
    assert(box_sum(d, w, h, cx, cy, 0, 0) == 0);
    assert(box_sum(d, w, h, cx, cy, 0, 1) == v);
    assert(v * decay / (DECAY_ONE as int) <= v) by (nonlinear_arith)
        requires 0 <= v, 0 <= decay <= DECAY_ONE, DECAY_ONE == 0x1_0000;
}

} // verus!

verus! {

/// How many of the values in `s` are at most `v`.
pub open spec fn count_at_most(s: Seq<u32>, v: u32) -> nat
    decreases s.len(),
{
    if s.len() == 0 {
        0
    } else {
        count_at_most(s.drop_last(), v) + if s.last() <= v { 1nat } else { 0nat }
    }
}

proof fn lemma_count_remove(s: Seq<u32>, j: int, v: u32)
    requires
        0 <= j < s.len(),
    ensures
        count_at_most(s, v) == count_at_most(s.remove(j), v) + if s[j] <= v { 1nat } else { 0nat },
    decreases s.len(),
{
    if j == s.len() - 1 {
        assert(s.remove(j) =~= s.drop_last());
    } else {
        let t = s.remove(j);
        assert(t.drop_last() =~= s.drop_last().remove(j));
        assert(t.last() == s.last());
        lemma_count_remove(s.drop_last(), j, v);
    }
}

proof fn lemma_count_permutation(s1: Seq<u32>, s2: Seq<u32>, v: u32)
    requires
        s1.to_multiset() == s2.to_multiset(),
    ensures
        count_at_most(s1, v) == count_at_most(s2, v),
    decreases s1.len(),
{
    if s1.len() == 0 {
        assert(s1.to_multiset().len() == 0);
        assert(s2.to_multiset().len() == 0);
        assert(s2.len() == 0);
    } else {
        let x = s1.last();
        assert(s1.drop_last().push(x) =~= s1);
        assert(s1.to_multiset().count(x) > 0);
        assert(s2.contains(x));
        let j = choose|j: int| 0 <= j < s2.len() && s2[j] == x;
        lemma_count_remove(s2, j, v);
        assert(s1.drop_last().to_multiset() =~= s2.remove(j).to_multiset());
        lemma_count_permutation(s1.drop_last(), s2.remove(j), v);
    }
}

/// At least `k` values of `s` are at most `v` when its first `k` are.
proof fn lemma_count_prefix(s: Seq<u32>, k: int, v: u32)
    requires
        0 <= k <= s.len(),
        forall|i: int| 0 <= i < k ==> #[trigger] s[i] <= v,
    ensures
        count_at_most(s, v) >= k,
    decreases s.len(),
{
    if s.len() > 0 {
        if k == s.len() {
            lemma_count_prefix(s.drop_last(), k - 1, v);
        } else {
            lemma_count_prefix(s.drop_last(), k, v);
        }
    }
}

/// At most `k` values of `s` are at most `v` when every value from position
/// `k` on exceeds `v`.
proof fn lemma_count_suffix(s: Seq<u32>, k: int, v: u32)
    requires
        0 <= k <= s.len(),
        forall|i: int| k <= i < s.len() ==> #[trigger] s[i] > v,
    ensures
        count_at_most(s, v) <= k,
    decreases s.len(),
{
    if s.len() > 0 {
        if k == s.len() {
            lemma_count_bound(s.drop_last(), v);
        } else {
            lemma_count_suffix(s.drop_last(), k, v);
        }
    }
}

proof fn lemma_count_bound(s: Seq<u32>, v: u32)
    ensures
        count_at_most(s, v) <= s.len(),
    decreases s.len(),
{
    if s.len() > 0 {
        lemma_count_bound(s.drop_last(), v);
    }
}

/// The value of rank zero is the least of the values.
pub proof fn lemma_rank_zero_is_min(m: Multiset<u32>, r: u32)
    requires
        is_order_statistic(m, 0, r),
    ensures
        m.count(r) > 0,
        forall|v: u32| m.count(v) > 0 ==> r <= v,
{
    let p = choose|p: Seq<u32>|
        #![trigger p.to_multiset()]
        p.to_multiset() == m && 0 <= 0 < p.len() && p[0] == r && (forall|i: int|
            0 <= i < 0 ==> #[trigger] p[i] <= r) && (forall|i: int|
            0 < i < p.len() ==> #[trigger] p[i] >= r);
    assert(p.contains(r));
    assert forall|v: u32| m.count(v) > 0 implies r <= v by {
        assert(p.contains(v));
    }
}

/// The value of the last rank is the greatest of the values.
pub proof fn lemma_last_rank_is_max(m: Multiset<u32>, r: u32)
    requires
        is_order_statistic(m, m.len() - 1, r),
    ensures
        m.count(r) > 0,
        forall|v: u32| m.count(v) > 0 ==> v <= r,
{
    let k = m.len() - 1;
    let p = choose|p: Seq<u32>|
        #![trigger p.to_multiset()]
        p.to_multiset() == m && 0 <= k < p.len() && p[k] == r && (forall|i: int|
            0 <= i < k ==> #[trigger] p[i] <= r) && (forall|i: int|
            k < i < p.len() ==> #[trigger] p[i] >= r);
    assert(p.contains(r));
    assert forall|v: u32| m.count(v) > 0 implies v <= r by {
        assert(p.contains(v));
    }
}

/// A higher rank never selects a smaller value.
pub proof fn lemma_rank_monotone(m: Multiset<u32>, k1: int, r1: u32, k2: int, r2: u32)
    requires
        k1 <= k2,
        is_order_statistic(m, k1, r1),
        is_order_statistic(m, k2, r2),
    ensures
        r1 <= r2,
{
    let p1 = choose|p: Seq<u32>|
        #![trigger p.to_multiset()]
        p.to_multiset() == m && 0 <= k1 < p.len() && p[k1] == r1 && (forall|i: int|
            0 <= i < k1 ==> #[trigger] p[i] <= r1) && (forall|i: int|
            k1 < i < p.len() ==> #[trigger] p[i] >= r1);
    let p2 = choose|p: Seq<u32>|
        #![trigger p.to_multiset()]
        p.to_multiset() == m && 0 <= k2 < p.len() && p[k2] == r2 && (forall|i: int|
            0 <= i < k2 ==> #[trigger] p[i] <= r2) && (forall|i: int|
            k2 < i < p.len() ==> #[trigger] p[i] >= r2);
    if r2 < r1 {
        lemma_count_prefix(p2, k2 + 1, r2);
        lemma_count_suffix(p1, k1, r2);
        lemma_count_permutation(p1, p2, r2);
    }
}

/// A larger fraction selects a rank at least as high.
pub proof fn lemma_quantile_rank_monotone(len: int, num1: int, den1: int, num2: int, den2: int)
    requires
        len >= 1,
        0 < den1,
        0 < den2,
        0 <= num1 <= den1,
        0 <= num2 <= den2,
        num1 * den2 <= num2 * den1,
    ensures
        0 <= quantile_rank(len, num1, den1) <= quantile_rank(len, num2, den2) < len,
{
    if num1 < den1 {
        assert(len * num1 / den1 < len) by (nonlinear_arith)
            requires num1 < den1, 0 < den1, len >= 1, num1 >= 0;
        assert(len * num1 / den1 >= 0) by (nonlinear_arith) requires 0 < den1, len >= 1, num1 >= 0;
    }
    if num2 < den2 {
        assert(len * num2 / den2 < len) by (nonlinear_arith)
            requires num2 < den2, 0 < den2, len >= 1, num2 >= 0;
        assert(num1 < den1) by (nonlinear_arith)
            requires num1 * den2 <= num2 * den1, num2 < den2, 0 < den1, num1 <= den1;
        let q1 = len * num1 / den1;
        vstd::arithmetic::div_mod::lemma_fundamental_div_mod(len * num1, den1);
        vstd::arithmetic::div_mod::lemma_mod_bound(len * num1, den1);
        assert(q1 * den1 <= len * num1);
        assert(q1 * den2 <= len * num2) by (nonlinear_arith)
            requires q1 * den1 <= len * num1, num1 * den2 <= num2 * den1, 0 < den1, 0 < den2, len >= 1;
        vstd::arithmetic::div_mod::lemma_div_is_ordered(q1 * den2, len * num2, den2);
        vstd::arithmetic::div_mod::lemma_div_multiples_vanish(q1, den2);
    }
}

} // verus!

verus! {

/// The quantile at fraction zero is the least trail value and the one at
/// fraction one is the greatest.
pub proof fn lemma_quantile_extremes(data: Seq<u32>, den: int, lo: u32, hi: u32)
    requires
        data.len() > 0,
        den > 0,
        is_order_statistic(data.to_multiset(), quantile_rank(data.len() as int, 0, den), lo),
        is_order_statistic(data.to_multiset(), quantile_rank(data.len() as int, den, den), hi),
    ensures
        data.contains(lo),
        data.contains(hi),
        forall|i: int| 0 <= i < data.len() ==> lo <= #[trigger] data[i] <= hi,
{
    assert(quantile_rank(data.len() as int, 0, den) == 0);
    assert(data.to_multiset().len() == data.len());
    lemma_rank_zero_is_min(data.to_multiset(), lo);
    lemma_last_rank_is_max(data.to_multiset(), hi);
    assert forall|i: int| 0 <= i < data.len() implies lo <= #[trigger] data[i] <= hi by {
        assert(data.contains(data[i]));
        assert(data.to_multiset().count(data[i]) > 0);
    }
}

/// The quantile never decreases as the fraction grows.
pub proof fn lemma_quantile_monotone(
    data: Seq<u32>,
    num1: int,
    den1: int,
    r1: u32,
    num2: int,
    den2: int,
    r2: u32,
)
    requires
        data.len() > 0,
        0 < den1,
        0 < den2,
        0 <= num1 <= den1,
        0 <= num2 <= den2,
        num1 * den2 <= num2 * den1,
        is_order_statistic(data.to_multiset(), quantile_rank(data.len() as int, num1, den1), r1),
        is_order_statistic(data.to_multiset(), quantile_rank(data.len() as int, num2, den2), r2),
    ensures
        r1 <= r2,
{
    let len = data.len() as int;
    lemma_quantile_rank_monotone(len, num1, den1, num2, den2);
    lemma_rank_monotone(
        data.to_multiset(),
        quantile_rank(len, num1, den1),
        r1,
        quantile_rank(len, num2, den2),
        r2,
    );
}

} // verus!
