use vstd::prelude::*;
use vstd::arithmetic::div_mod::{
    lemma_fundamental_div_mod, lemma_fundamental_div_mod_converse, lemma_mod_pos_bound,
};

use crate::currency::{eur_model, usd_model, DenomModel};
use crate::strategy::{count_total, greedy_counts, weighted_sum};

verus! {

/// Greedy coin count for the sub-dollar part of the USD table.
pub open spec fn usd_g_r(r: int) -> int {
    r / 25 + (r % 25) / 10 + ((r % 25) % 10) / 5 + ((r % 25) % 10) % 5
}

/// Greedy coin count over the USD table, written as chained quotients.
pub open spec fn usd_g(t: int) -> int {
    t / 100 + usd_g_r(t % 100)
}

/// Adding one dollar adds exactly one greedy coin.
proof fn lemma_usd_step_100(t: int)
    requires
        t >= 0,
    ensures
        usd_g(t + 100) <= usd_g(t) + 1,
{
    let q = t / 100;
    let r = t % 100;
    lemma_fundamental_div_mod(t, 100);
    lemma_mod_pos_bound(t, 100);
    lemma_fundamental_div_mod_converse(t + 100, 100, q + 1, r);
}

/// The bounded facts behind each sub-dollar step, one coin value per lemma
/// so that each query stays small.
#[verifier::rlimit(100)]
proof fn lemma_usd_r_step_1(r: int)
    requires
        0 <= r < 100,
    ensures
        r + 1 < 100 ==> usd_g_r(r + 1) <= usd_g_r(r) + 1,
        r + 1 >= 100 ==> usd_g_r(r + 1 - 100) <= usd_g_r(r),
{
}

#[verifier::rlimit(100)]
proof fn lemma_usd_r_step_5(r: int)
    requires
        0 <= r < 100,
    ensures
        r + 5 < 100 ==> usd_g_r(r + 5) <= usd_g_r(r) + 1,
        r + 5 >= 100 ==> usd_g_r(r + 5 - 100) <= usd_g_r(r),
{
}

#[verifier::rlimit(100)]
proof fn lemma_usd_r_step_10(r: int)
    requires
        0 <= r < 100,
    ensures
        r + 10 < 100 ==> usd_g_r(r + 10) <= usd_g_r(r) + 1,
        r + 10 >= 100 ==> usd_g_r(r + 10 - 100) <= usd_g_r(r),
{
}

#[verifier::rlimit(100)]
proof fn lemma_usd_r_step_25(r: int)
    requires
        0 <= r < 100,
    ensures
        r + 25 < 100 ==> usd_g_r(r + 25) <= usd_g_r(r) + 1,
        r + 25 >= 100 ==> usd_g_r(r + 25 - 100) <= usd_g_r(r),
{
}

/// Adding one sub-dollar coin adds at most one greedy coin.
proof fn lemma_usd_step_small(t: int, v: int)
    requires
        t >= 0,
        v == 1 || v == 5 || v == 10 || v == 25,
    ensures
        usd_g(t + v) <= usd_g(t) + 1,
{
    let q = t / 100;
    let r = t % 100;
    lemma_fundamental_div_mod(t, 100);
    lemma_mod_pos_bound(t, 100);
    if v == 1 {
        lemma_usd_r_step_1(r);
    } else if v == 5 {
        lemma_usd_r_step_5(r);
    } else if v == 10 {
        lemma_usd_r_step_10(r);
    } else {
        lemma_usd_r_step_25(r);
    }
    if r + v < 100 {
        lemma_fundamental_div_mod_converse(t + v, 100, q, r + v);
        assert(usd_g(t + v) == q + usd_g_r(r + v));
    } else {
        lemma_fundamental_div_mod_converse(t + v, 100, q + 1, r + v - 100);
        assert(usd_g(t + v) == q + 1 + usd_g_r(r + v - 100));
    }
}

/// Any bag of USD coins is matched or beaten by the greedy count of its value.
proof fn lemma_usd_scalar(a: int, b: int, c: int, d: int, e: int)
    requires
        a >= 0,
        b >= 0,
        c >= 0,
        d >= 0,
        e >= 0,
    ensures
        usd_g(100 * a + 25 * b + 10 * c + 5 * d + e) <= a + b + c + d + e,
    decreases a + b + c + d + e,
{
    let t = 100 * a + 25 * b + 10 * c + 5 * d + e;
    if a > 0 {
        lemma_usd_scalar(a - 1, b, c, d, e);
        lemma_usd_step_100(t - 100);
    } else if b > 0 {
        lemma_usd_scalar(a, b - 1, c, d, e);
        lemma_usd_step_small(t - 25, 25);
    } else if c > 0 {
        lemma_usd_scalar(a, b, c - 1, d, e);
        lemma_usd_step_small(t - 10, 10);
    } else if d > 0 {
        lemma_usd_scalar(a, b, c, d - 1, e);
        lemma_usd_step_small(t - 5, 5);
    } else if e > 0 {
        lemma_usd_scalar(a, b, c, d, e - 1);
        lemma_usd_step_small(t - 1, 1);
    } else {
        assert(usd_g(0) == 0);
    }
}

/// The head of a count sequence adds directly onto the total.
proof fn lemma_ct_cons(x: int, s: Seq<int>)
    ensures
        count_total(seq![x] + s) == x + count_total(s),
{
    assert((seq![x] + s)[0] == x);
    assert((seq![x] + s).drop_first() =~= s);
}

/// Over the USD table the greedy counts total exactly the chained quotients.
proof fn lemma_usd_total(d: Seq<DenomModel>, t: int)
    requires
        d.len() == 5,
        d[0].cents == 100,
        d[1].cents == 25,
        d[2].cents == 10,
        d[3].cents == 5,
        d[4].cents == 1,
        t >= 0,
    ensures
        count_total(greedy_counts(d, t)) == usd_g(t),
{
    let d1 = d.drop_first();
    let d2 = d1.drop_first();
    let d3 = d2.drop_first();
    let d4 = d3.drop_first();
    let d5 = d4.drop_first();
    assert(d1[0] == d[1]);
    assert(d2[0] == d[2]);
    assert(d3[0] == d[3]);
    assert(d4[0] == d[4]);
    assert(d5.len() == 0);
    let r1 = t % 100;
    let r2 = r1 % 25;
    let r3 = r2 % 10;
    let r4 = r3 % 5;
    lemma_mod_pos_bound(t, 100);
    lemma_mod_pos_bound(r1, 25);
    lemma_mod_pos_bound(r2, 10);
    lemma_mod_pos_bound(r3, 5);
    assert(greedy_counts(d, t) == seq![t / 100] + greedy_counts(d1, r1));
    assert(greedy_counts(d1, r1) == seq![r1 / 25] + greedy_counts(d2, r2));
    assert(greedy_counts(d2, r2) == seq![r2 / 10] + greedy_counts(d3, r3));
    assert(greedy_counts(d3, r3) == seq![r3 / 5] + greedy_counts(d4, r4));
    assert(greedy_counts(d4, r4) == seq![r4 / 1] + greedy_counts(d5, r4 % 1));
    assert(greedy_counts(d5, r4 % 1) == Seq::<int>::empty());
    assert(r4 / 1 == r4 && r4 % 1 == 0) by {
        lemma_fundamental_div_mod(r4, 1);
        lemma_mod_pos_bound(r4, 1);
    }
    assert(count_total(Seq::<int>::empty()) == 0);
    lemma_ct_cons(r4 / 1, greedy_counts(d5, r4 % 1));
    lemma_ct_cons(r3 / 5, greedy_counts(d4, r4));
    lemma_ct_cons(r2 / 10, greedy_counts(d3, r3));
    lemma_ct_cons(r1 / 25, greedy_counts(d2, r2));
    lemma_ct_cons(t / 100, greedy_counts(d1, r1));
}

/// Greedy optimality for the five-denomination USD reference table: no
/// combination of counts that sums to `t` uses fewer coins in total than the
/// greedy breakdown of `t`.
pub proof fn lemma_greedy_optimal_usd(d: Seq<DenomModel>, t: int, counts: Seq<int>)
    requires
        d.len() == 5,
        d[0].cents == 100,
        d[1].cents == 25,
        d[2].cents == 10,
        d[3].cents == 5,
        d[4].cents == 1,
        0 <= t,
        counts.len() == 5,
        forall|i: int| 0 <= i < 5 ==> #[trigger] counts[i] >= 0,
        weighted_sum(d, counts) == t,
    ensures
        count_total(greedy_counts(d, t)) <= count_total(counts),
{
    let d1 = d.drop_first();
    let d2 = d1.drop_first();
    let d3 = d2.drop_first();
    let d4 = d3.drop_first();
    let d5 = d4.drop_first();
    assert(d1[0] == d[1]);
    assert(d2[0] == d[2]);
    assert(d3[0] == d[3]);
    assert(d4[0] == d[4]);
    let cs1 = counts.drop_first();
    let cs2 = cs1.drop_first();
    let cs3 = cs2.drop_first();
    let cs4 = cs3.drop_first();
    let cs5 = cs4.drop_first();
    assert(cs1[0] == counts[1]);
    assert(cs2[0] == counts[2]);
    assert(cs3[0] == counts[3]);
    assert(cs4[0] == counts[4]);
    assert(cs5.len() == 0);
    assert(weighted_sum(d5, cs5) == 0);
    assert(weighted_sum(d4, cs4) == 1 * counts[4] + weighted_sum(d5, cs5));
    assert(weighted_sum(d3, cs3) == 5 * counts[3] + weighted_sum(d4, cs4));
    assert(weighted_sum(d2, cs2) == 10 * counts[2] + weighted_sum(d3, cs3));
    assert(weighted_sum(d1, cs1) == 25 * counts[1] + weighted_sum(d2, cs2));
    assert(weighted_sum(d, counts) == 100 * counts[0] + weighted_sum(d1, cs1));
    lemma_usd_scalar(counts[0], counts[1], counts[2], counts[3], counts[4]);
    lemma_usd_total(d, t);
    assert(count_total(cs5) == 0);
    assert(count_total(cs4) == counts[4] + count_total(cs5));
    assert(count_total(cs3) == counts[3] + count_total(cs4));
    assert(count_total(cs2) == counts[2] + count_total(cs3));
    assert(count_total(cs1) == counts[1] + count_total(cs2));
    assert(count_total(counts) == counts[0] + count_total(cs1));
}

/// Greedy coin count for the sub-two-euro part of the EUR table.
pub open spec fn eur_g_r(r: int) -> int {
    r / 100 + (r % 100) / 50 + ((r % 100) % 50) / 20 + (((r % 100) % 50) % 20) / 10 + ((((r % 100)
        % 50) % 20) % 10) / 5 + (((((r % 100) % 50) % 20) % 10) % 5) / 2 + (((((r % 100) % 50)
        % 20) % 10) % 5) % 2
}

/// Greedy coin count over the EUR table, written as chained quotients.
pub open spec fn eur_g(t: int) -> int {
    t / 200 + eur_g_r(t % 200)
}

/// Adding a two-euro coin adds exactly one greedy coin.
proof fn lemma_eur_step_200(t: int)
    requires
        t >= 0,
    ensures
        eur_g(t + 200) <= eur_g(t) + 1,
{
    let q = t / 200;
    let r = t % 200;
    lemma_fundamental_div_mod(t, 200);
    lemma_mod_pos_bound(t, 200);
    lemma_fundamental_div_mod_converse(t + 200, 200, q + 1, r);
}

/// The sub-two-euro steps share one skeleton: the two bounded facts about
/// `eur_g_r` are proved by the caller for its own coin value.
proof fn lemma_eur_step_frame(t: int, v: int)
    requires
        t >= 0,
        0 < v < 200,
        t % 200 + v < 200 ==> eur_g_r(t % 200 + v) <= eur_g_r(t % 200) + 1,
        t % 200 + v >= 200 ==> eur_g_r(t % 200 + v - 200) <= eur_g_r(t % 200),
    ensures
        eur_g(t + v) <= eur_g(t) + 1,
{
    let q = t / 200;
    let r = t % 200;
    lemma_fundamental_div_mod(t, 200);
    lemma_mod_pos_bound(t, 200);
    if r + v < 200 {
        lemma_fundamental_div_mod_converse(t + v, 200, q, r + v);
        assert(eur_g(t + v) == q + eur_g_r(r + v));
    } else {
        lemma_fundamental_div_mod_converse(t + v, 200, q + 1, r + v - 200);
        assert(eur_g(t + v) == q + 1 + eur_g_r(r + v - 200));
    }
}

#[verifier::rlimit(100)]
proof fn lemma_eur_r_step_1(r: int)
    requires
        0 <= r < 200,
    ensures
        r + 1 < 200 ==> eur_g_r(r + 1) <= eur_g_r(r) + 1,
        r + 1 >= 200 ==> eur_g_r(r + 1 - 200) <= eur_g_r(r),
{
}

proof fn lemma_eur_step_1(t: int)
    requires
        t >= 0,
    ensures
        eur_g(t + 1) <= eur_g(t) + 1,
{
    let r = t % 200;
    lemma_mod_pos_bound(t, 200);
    lemma_eur_r_step_1(r);
    lemma_eur_step_frame(t, 1);
}

#[verifier::rlimit(100)]
proof fn lemma_eur_r_step_2(r: int)
    requires
        0 <= r < 200,
    ensures
        r + 2 < 200 ==> eur_g_r(r + 2) <= eur_g_r(r) + 1,
        r + 2 >= 200 ==> eur_g_r(r + 2 - 200) <= eur_g_r(r),
{
}

proof fn lemma_eur_step_2(t: int)
    requires
        t >= 0,
    ensures
        eur_g(t + 2) <= eur_g(t) + 1,
{
    let r = t % 200;
    lemma_mod_pos_bound(t, 200);
    lemma_eur_r_step_2(r);
    lemma_eur_step_frame(t, 2);
}

#[verifier::rlimit(100)]
proof fn lemma_eur_r_step_5(r: int)
    requires
        0 <= r < 200,
    ensures
        r + 5 < 200 ==> eur_g_r(r + 5) <= eur_g_r(r) + 1,
        r + 5 >= 200 ==> eur_g_r(r + 5 - 200) <= eur_g_r(r),
{
}

proof fn lemma_eur_step_5(t: int)
    requires
        t >= 0,
    ensures
        eur_g(t + 5) <= eur_g(t) + 1,
{
    let r = t % 200;
    lemma_mod_pos_bound(t, 200);
    lemma_eur_r_step_5(r);
    lemma_eur_step_frame(t, 5);
}

#[verifier::rlimit(100)]
proof fn lemma_eur_r_step_10(r: int)
    requires
        0 <= r < 200,
    ensures
        r + 10 < 200 ==> eur_g_r(r + 10) <= eur_g_r(r) + 1,
        r + 10 >= 200 ==> eur_g_r(r + 10 - 200) <= eur_g_r(r),
{
}

proof fn lemma_eur_step_10(t: int)
    requires
        t >= 0,
    ensures
        eur_g(t + 10) <= eur_g(t) + 1,
{
    let r = t % 200;
    lemma_mod_pos_bound(t, 200);
    lemma_eur_r_step_10(r);
    lemma_eur_step_frame(t, 10);
}

#[verifier::rlimit(100)]
proof fn lemma_eur_r_step_20(r: int)
    requires
        0 <= r < 200,
    ensures
        r + 20 < 200 ==> eur_g_r(r + 20) <= eur_g_r(r) + 1,
        r + 20 >= 200 ==> eur_g_r(r + 20 - 200) <= eur_g_r(r),
{
}

proof fn lemma_eur_step_20(t: int)
    requires
        t >= 0,
    ensures
        eur_g(t + 20) <= eur_g(t) + 1,
{
    let r = t % 200;
    lemma_mod_pos_bound(t, 200);
    lemma_eur_r_step_20(r);
    lemma_eur_step_frame(t, 20);
}

#[verifier::rlimit(100)]
proof fn lemma_eur_r_step_50(r: int)
    requires
        0 <= r < 200,
    ensures
        r + 50 < 200 ==> eur_g_r(r + 50) <= eur_g_r(r) + 1,
        r + 50 >= 200 ==> eur_g_r(r + 50 - 200) <= eur_g_r(r),
{
}

proof fn lemma_eur_step_50(t: int)
    requires
        t >= 0,
    ensures
        eur_g(t + 50) <= eur_g(t) + 1,
{
    let r = t % 200;
    lemma_mod_pos_bound(t, 200);
    lemma_eur_r_step_50(r);
    lemma_eur_step_frame(t, 50);
}

#[verifier::rlimit(100)]
proof fn lemma_eur_r_step_100(r: int)
    requires
        0 <= r < 200,
    ensures
        r + 100 < 200 ==> eur_g_r(r + 100) <= eur_g_r(r) + 1,
        r + 100 >= 200 ==> eur_g_r(r + 100 - 200) <= eur_g_r(r),
{
}

proof fn lemma_eur_step_100(t: int)
    requires
        t >= 0,
    ensures
        eur_g(t + 100) <= eur_g(t) + 1,
{
    let r = t % 200;
    lemma_mod_pos_bound(t, 200);
    lemma_eur_r_step_100(r);
    lemma_eur_step_frame(t, 100);
}

/// Any bag of EUR coins is matched or beaten by the greedy count of its value.
proof fn lemma_eur_scalar(a: int, b: int, c: int, d: int, e: int, f: int, g: int, h: int)
    requires
        a >= 0,
        b >= 0,
        c >= 0,
        d >= 0,
        e >= 0,
        f >= 0,
        g >= 0,
        h >= 0,
    ensures
        eur_g(200 * a + 100 * b + 50 * c + 20 * d + 10 * e + 5 * f + 2 * g + h) <= a + b + c + d
            + e + f + g + h,
    decreases a + b + c + d + e + f + g + h,
{
    let t = 200 * a + 100 * b + 50 * c + 20 * d + 10 * e + 5 * f + 2 * g + h;
    if a > 0 {
        lemma_eur_scalar(a - 1, b, c, d, e, f, g, h);
        lemma_eur_step_200(t - 200);
    } else if b > 0 {
        lemma_eur_scalar(a, b - 1, c, d, e, f, g, h);
        lemma_eur_step_100(t - 100);
    } else if c > 0 {
        lemma_eur_scalar(a, b, c - 1, d, e, f, g, h);
        lemma_eur_step_50(t - 50);
    } else if d > 0 {
        lemma_eur_scalar(a, b, c, d - 1, e, f, g, h);
        lemma_eur_step_20(t - 20);
    } else if e > 0 {
        lemma_eur_scalar(a, b, c, d, e - 1, f, g, h);
        lemma_eur_step_10(t - 10);
    } else if f > 0 {
        lemma_eur_scalar(a, b, c, d, e, f - 1, g, h);
        lemma_eur_step_5(t - 5);
    } else if g > 0 {
        lemma_eur_scalar(a, b, c, d, e, f, g - 1, h);
        lemma_eur_step_2(t - 2);
    } else if h > 0 {
        lemma_eur_scalar(a, b, c, d, e, f, g, h - 1);
        lemma_eur_step_1(t - 1);
    } else {
        assert(eur_g(0) == 0);
    }
}

/// Over the EUR table the greedy counts total exactly the chained quotients.
proof fn lemma_eur_total(d: Seq<DenomModel>, t: int)
    requires
        d.len() == 8,
        d[0].cents == 200,
        d[1].cents == 100,
        d[2].cents == 50,
        d[3].cents == 20,
        d[4].cents == 10,
        d[5].cents == 5,
        d[6].cents == 2,
        d[7].cents == 1,
        t >= 0,
    ensures
        count_total(greedy_counts(d, t)) == eur_g(t),
{
    let d1 = d.drop_first();
    let d2 = d1.drop_first();
    let d3 = d2.drop_first();
    let d4 = d3.drop_first();
    let d5 = d4.drop_first();
    let d6 = d5.drop_first();
    let d7 = d6.drop_first();
    let d8 = d7.drop_first();
    assert(d1[0] == d[1]);
    assert(d2[0] == d[2]);
    assert(d3[0] == d[3]);
    assert(d4[0] == d[4]);
    assert(d5[0] == d[5]);
    assert(d6[0] == d[6]);
    assert(d7[0] == d[7]);
    assert(d8.len() == 0);
    let r1 = t % 200;
    let r2 = r1 % 100;
    let r3 = r2 % 50;
    let r4 = r3 % 20;
    let r5 = r4 % 10;
    let r6 = r5 % 5;
    let r7 = r6 % 2;
    lemma_mod_pos_bound(t, 200);
    lemma_mod_pos_bound(r1, 100);
    lemma_mod_pos_bound(r2, 50);
    lemma_mod_pos_bound(r3, 20);
    lemma_mod_pos_bound(r4, 10);
    lemma_mod_pos_bound(r5, 5);
    lemma_mod_pos_bound(r6, 2);
    assert(greedy_counts(d, t) == seq![t / 200] + greedy_counts(d1, r1));
    assert(greedy_counts(d1, r1) == seq![r1 / 100] + greedy_counts(d2, r2));
    assert(greedy_counts(d2, r2) == seq![r2 / 50] + greedy_counts(d3, r3));
    assert(greedy_counts(d3, r3) == seq![r3 / 20] + greedy_counts(d4, r4));
    assert(greedy_counts(d4, r4) == seq![r4 / 10] + greedy_counts(d5, r5));
    assert(greedy_counts(d5, r5) == seq![r5 / 5] + greedy_counts(d6, r6));
    assert(greedy_counts(d6, r6) == seq![r6 / 2] + greedy_counts(d7, r7));
    assert(greedy_counts(d7, r7) == seq![r7 / 1] + greedy_counts(d8, r7 % 1));
    assert(greedy_counts(d8, r7 % 1) == Seq::<int>::empty());
    assert(r7 / 1 == r7 && r7 % 1 == 0) by {
        lemma_fundamental_div_mod(r7, 1);
        lemma_mod_pos_bound(r7, 1);
    }
    assert(count_total(Seq::<int>::empty()) == 0);
    lemma_ct_cons(r7 / 1, greedy_counts(d8, r7 % 1));
    lemma_ct_cons(r6 / 2, greedy_counts(d7, r7));
    lemma_ct_cons(r5 / 5, greedy_counts(d6, r6));
    lemma_ct_cons(r4 / 10, greedy_counts(d5, r5));
    lemma_ct_cons(r3 / 20, greedy_counts(d4, r4));
    lemma_ct_cons(r2 / 50, greedy_counts(d3, r3));
    lemma_ct_cons(r1 / 100, greedy_counts(d2, r2));
    lemma_ct_cons(t / 200, greedy_counts(d1, r1));
}

/// Greedy optimality for the eight-denomination EUR reference table: no
/// combination of counts that sums to `t` uses fewer coins in total than the
/// greedy breakdown of `t`.
pub proof fn lemma_greedy_optimal_eur(d: Seq<DenomModel>, t: int, counts: Seq<int>)
    requires
        d.len() == 8,
        d[0].cents == 200,
        d[1].cents == 100,
        d[2].cents == 50,
        d[3].cents == 20,
        d[4].cents == 10,
        d[5].cents == 5,
        d[6].cents == 2,
        d[7].cents == 1,
        0 <= t,
        counts.len() == 8,
        forall|i: int| 0 <= i < 8 ==> #[trigger] counts[i] >= 0,
        weighted_sum(d, counts) == t,
    ensures
        count_total(greedy_counts(d, t)) <= count_total(counts),
{
    let d1 = d.drop_first();
    let d2 = d1.drop_first();
    let d3 = d2.drop_first();
    let d4 = d3.drop_first();
    let d5 = d4.drop_first();
    let d6 = d5.drop_first();
    let d7 = d6.drop_first();
    let d8 = d7.drop_first();
    assert(d1[0] == d[1]);
    assert(d2[0] == d[2]);
    assert(d3[0] == d[3]);
    assert(d4[0] == d[4]);
    assert(d5[0] == d[5]);
    assert(d6[0] == d[6]);
    assert(d7[0] == d[7]);
    let cs1 = counts.drop_first();
    let cs2 = cs1.drop_first();
    let cs3 = cs2.drop_first();
    let cs4 = cs3.drop_first();
    let cs5 = cs4.drop_first();
    let cs6 = cs5.drop_first();
    let cs7 = cs6.drop_first();
    let cs8 = cs7.drop_first();
    assert(cs1[0] == counts[1]);
    assert(cs2[0] == counts[2]);
    assert(cs3[0] == counts[3]);
    assert(cs4[0] == counts[4]);
    assert(cs5[0] == counts[5]);
    assert(cs6[0] == counts[6]);
    assert(cs7[0] == counts[7]);
    assert(cs8.len() == 0);
    assert(weighted_sum(d8, cs8) == 0);
    assert(weighted_sum(d7, cs7) == 1 * counts[7] + weighted_sum(d8, cs8));
    assert(weighted_sum(d6, cs6) == 2 * counts[6] + weighted_sum(d7, cs7));
    assert(weighted_sum(d5, cs5) == 5 * counts[5] + weighted_sum(d6, cs6));
    assert(weighted_sum(d4, cs4) == 10 * counts[4] + weighted_sum(d5, cs5));
    assert(weighted_sum(d3, cs3) == 20 * counts[3] + weighted_sum(d4, cs4));
    assert(weighted_sum(d2, cs2) == 50 * counts[2] + weighted_sum(d3, cs3));
    assert(weighted_sum(d1, cs1) == 100 * counts[1] + weighted_sum(d2, cs2));
    assert(weighted_sum(d, counts) == 200 * counts[0] + weighted_sum(d1, cs1));
    lemma_eur_scalar(
        counts[0],
        counts[1],
        counts[2],
        counts[3],
        counts[4],
        counts[5],
        counts[6],
        counts[7],
    );
    lemma_eur_total(d, t);
    assert(count_total(cs8) == 0);
    assert(count_total(cs7) == counts[7] + count_total(cs8));
    assert(count_total(cs6) == counts[6] + count_total(cs7));
    assert(count_total(cs5) == counts[5] + count_total(cs6));
    assert(count_total(cs4) == counts[4] + count_total(cs5));
    assert(count_total(cs3) == counts[3] + count_total(cs4));
    assert(count_total(cs2) == counts[2] + count_total(cs3));
    assert(count_total(cs1) == counts[1] + count_total(cs2));
    assert(count_total(counts) == counts[0] + count_total(cs1));
}

/// Greedy optimality over the USD table as shipped: the greedy breakdown of
/// any representable target uses no more coins than any other count table
/// that sums to it.
pub proof fn lemma_usd_table_greedy_optimal(t: int, counts: Seq<int>)
    requires
        0 <= t,
        counts.len() == 5,
        forall|i: int| 0 <= i < 5 ==> #[trigger] counts[i] >= 0,
        weighted_sum(usd_model().denominations, counts) == t,
    ensures
        count_total(greedy_counts(usd_model().denominations, t)) <= count_total(counts),
{
    let d = usd_model().denominations;
    assert(d.len() == 5 && d[0].cents == 100 && d[1].cents == 25 && d[2].cents == 10
        && d[3].cents == 5 && d[4].cents == 1);
    lemma_greedy_optimal_usd(d, t, counts);
}

/// Greedy optimality over the EUR table as shipped.
pub proof fn lemma_eur_table_greedy_optimal(t: int, counts: Seq<int>)
    requires
        0 <= t,
        counts.len() == 8,
        forall|i: int| 0 <= i < 8 ==> #[trigger] counts[i] >= 0,
        weighted_sum(eur_model().denominations, counts) == t,
    ensures
        count_total(greedy_counts(eur_model().denominations, t)) <= count_total(counts),
{
    let d = eur_model().denominations;
    assert(d.len() == 8 && d[0].cents == 200 && d[1].cents == 100 && d[2].cents == 50
        && d[3].cents == 20 && d[4].cents == 10 && d[5].cents == 5 && d[6].cents == 2
        && d[7].cents == 1);
    lemma_greedy_optimal_eur(d, t, counts);
}

} // verus!
