use vstd::prelude::*;
use vstd::arithmetic::div_mod::{
    lemma_div_nonincreasing, lemma_div_pos_is_pos, lemma_fundamental_div_mod, lemma_mod_pos_bound,
};
use vstd::arithmetic::mul::lemma_mul_nonnegative;
use crate::currency::{denoms_well_formed, lemma_well_formed_positive, Currency, DenomModel};
use crate::strategy::{
    bd_model, breakdown_from_counts, breakdown_sum, greedy_counts, lemma_bfc_append,
    lemma_bfc_zero, lemma_bs_append, lemma_bs_single, lemma_from_counts_props, lemma_snoc_step,
    valid_breakdown, weighted_sum, Breakdown, ChangeStrategy,
};

verus! {

/// Greedy algorithm: walk the denominations largest to smallest and let each
/// take as much of the remainder as it can. For tables with the greedy-optimal
/// property (the USD and EUR tables have it) this uses the fewest coins.
pub struct GreedyStrategy;

/// Greedy counts are defined for every denomination and never exceed the
/// remainder they start from.
pub proof fn lemma_greedy_counts_bounds(d: Seq<DenomModel>, t: int)
    requires
        forall|i: int| 0 <= i < d.len() ==> #[trigger] d[i].cents >= 1,
        0 <= t,
    ensures
        greedy_counts(d, t).len() == d.len(),
        forall|k: int| 0 <= k < d.len() ==> 0 <= #[trigger] greedy_counts(d, t)[k] <= t,
    decreases d.len(),
{
    if d.len() > 0 {
        let c0 = d[0].cents;
        let q = t / c0;
        let r = t % c0;
        lemma_div_pos_is_pos(t, c0);
        lemma_div_nonincreasing(t, c0);
        lemma_mod_pos_bound(t, c0);
        assert(r <= t) by {
            lemma_fundamental_div_mod(t, c0);
            lemma_mul_nonnegative(c0, q);
        }
        assert(forall|i: int|
            0 <= i < d.drop_first().len() ==> #[trigger] d.drop_first()[i].cents >= 1);
        lemma_greedy_counts_bounds(d.drop_first(), r);
        let gcs = greedy_counts(d, t);
        let rest = greedy_counts(d.drop_first(), r);
        assert forall|k: int| 0 <= k < d.len() implies 0 <= #[trigger] gcs[k] <= t by {
            if k > 0 {
                assert(gcs[k] == rest[k - 1]);
            }
        }
    }
}

/// With a zero remainder the greedy walk takes nothing anywhere.
pub proof fn lemma_greedy_counts_zero(d: Seq<DenomModel>)
    requires
        forall|i: int| 0 <= i < d.len() ==> #[trigger] d[i].cents >= 1,
    ensures
        greedy_counts(d, 0).len() == d.len(),
        forall|k: int| 0 <= k < d.len() ==> #[trigger] greedy_counts(d, 0)[k] == 0,
    decreases d.len(),
{
    if d.len() > 0 {
        let c0 = d[0].cents;
        lemma_div_pos_is_pos(0, c0);
        lemma_div_nonincreasing(0, c0);
        assert(0int % c0 == 0) by {
            lemma_fundamental_div_mod(0, c0);
        }
        assert(forall|i: int|
            0 <= i < d.drop_first().len() ==> #[trigger] d.drop_first()[i].cents >= 1);
        lemma_greedy_counts_zero(d.drop_first());
        let gcs = greedy_counts(d, 0);
        let rest = greedy_counts(d.drop_first(), 0);
        assert forall|k: int| 0 <= k < d.len() implies #[trigger] gcs[k] == 0 by {
            if k > 0 {
                assert(gcs[k] == rest[k - 1]);
            }
        }
    }
}

/// Because a well-formed table ends in the one-minor-unit denomination, the
/// greedy counts always add back up to exactly the target.
pub proof fn lemma_greedy_counts_sum(d: Seq<DenomModel>, t: int)
    requires
        denoms_well_formed(d),
        0 <= t,
    ensures
        weighted_sum(d, greedy_counts(d, t)) == t,
    decreases d.len(),
{
    lemma_well_formed_positive(d);
    let c0 = d[0].cents;
    let gcs = greedy_counts(d, t);
    let rest = greedy_counts(d.drop_first(), t % c0);
    assert(gcs == seq![t / c0] + rest);
    assert(gcs[0] == t / c0);
    assert(gcs.drop_first() =~= rest);
    lemma_fundamental_div_mod(t, c0);
    lemma_mod_pos_bound(t, c0);
    if d.len() == 1 {
        assert(c0 == 1);
        assert(weighted_sum(d.drop_first(), gcs.drop_first()) == 0);
        assert(weighted_sum(d, gcs) == c0 * (t / c0) + weighted_sum(
            d.drop_first(),
            gcs.drop_first(),
        ));
    } else {
        let db = d.drop_first();
        assert(denoms_well_formed(db)) by {
            assert(db[db.len() - 1] == d[d.len() - 1]);
            assert forall|i: int, j: int| 0 <= i < j < db.len() implies db[i].cents
                > db[j].cents by {
                assert(db[i] == d[i + 1]);
                assert(db[j] == d[j + 1]);
            }
        }
        lemma_greedy_counts_sum(db, t % c0);
    }
}

/// Compute the greedy breakdown of `cents` over the currency's table.
///
/// The result is exactly the breakdown the greedy count table describes, and
/// it sums to `cents`.
pub fn greedy_change(cents: u32, currency: &Currency) -> (r: Breakdown)
    requires
        currency.well_formed(),
    ensures
        bd_model(r@) == breakdown_from_counts(
            currency@.denominations,
            greedy_counts(currency@.denominations, cents as int),
        ),
        breakdown_sum(bd_model(r@)) == cents as int,
        valid_breakdown(currency@.denominations, bd_model(r@), cents as int),
        cents == 0 ==> r@.len() == 0,
{
    let ghost d = currency@.denominations;
    let ghost gcs = greedy_counts(d, cents as int);
    proof {
        lemma_well_formed_positive(d);
        lemma_greedy_counts_bounds(d, cents as int);
    }
    let mut result: Breakdown = Vec::new();
    let mut rem: u32 = cents;
    let mut i: usize = 0;
    let n: usize = currency.denominations.len();
    proof {
        assert(d.skip(0) =~= d);
        assert(gcs.skip(0) =~= gcs);
        assert(d.take(0) =~= Seq::<DenomModel>::empty());
        assert(gcs.take(0) =~= Seq::<int>::empty());
        assert(bd_model(result@) =~= Seq::<(DenomModel, int)>::empty());
        assert(breakdown_from_counts(d.take(0), gcs.take(0)) == Seq::<(DenomModel, int)>::empty());
        assert(breakdown_sum(bd_model(result@)) == 0);
    }
    while i < n
        invariant
            currency.well_formed(),
            n == currency.denominations@.len(),
            d == currency@.denominations,
            gcs == greedy_counts(d, cents as int),
            gcs.len() == n,
            i <= n,
            rem <= cents,
            greedy_counts(d.skip(i as int), rem as int) == gcs.skip(i as int),
            bd_model(result@) == breakdown_from_counts(d.take(i as int), gcs.take(i as int)),
            breakdown_sum(bd_model(result@)) + rem == cents as int,
            i == n ==> bd_model(result@) == breakdown_from_counts(d, gcs),
        ensures
            bd_model(result@) == breakdown_from_counts(d, gcs),
            breakdown_sum(bd_model(result@)) + rem == cents as int,
        decreases n - i,
    {
        if rem == 0 {
            proof {
                lemma_well_formed_positive(d);
                let ds = d.skip(i as int);
                assert forall|k: int| 0 <= k < ds.len() implies #[trigger] ds[k].cents >= 1 by {
                    assert(ds[k] == d[k + i as int]);
                }
                lemma_greedy_counts_zero(d.skip(i as int));
                lemma_bfc_zero(d.skip(i as int), gcs.skip(i as int));
                lemma_bfc_append(d.take(i as int), gcs.take(i as int), d.skip(i as int), gcs.skip(
                    i as int,
                ));
                assert(d.take(i as int) + d.skip(i as int) =~= d);
                assert(gcs.take(i as int) + gcs.skip(i as int) =~= gcs);
                assert(breakdown_from_counts(d.take(i as int), gcs.take(i as int))
                    + breakdown_from_counts(d.skip(i as int), gcs.skip(i as int)) =~= bd_model(
                    result@,
                ));
            }
            break;
        }
        let denom_ref = &currency.denominations[i];
        let c: u32 = denom_ref.cents;
        proof {
            assert(d[i as int] == currency.denominations@[i as int]@);
            lemma_well_formed_positive(d);
            assert(d[i as int].cents >= 1);
        }
        let count: u32 = rem / c;
        let ghost ds = d.skip(i as int);
        let ghost old_rem = rem;
        let ghost old_result = result@;
        proof {
            assert(ds[0] == d[i as int]);
            assert(ds.drop_first() =~= d.skip(i as int + 1));
            assert(greedy_counts(ds, rem as int) == seq![rem as int / c as int] + greedy_counts(
                ds.drop_first(),
                rem as int % c as int,
            ));
            assert(gcs[i as int] == gcs.skip(i as int)[0]);
            assert(gcs[i as int] == rem as int / c as int);
            assert(gcs.skip(i as int).drop_first() =~= gcs.skip(i as int + 1));
            assert((seq![rem as int / c as int] + greedy_counts(
                ds.drop_first(),
                rem as int % c as int,
            )).drop_first() =~= greedy_counts(ds.drop_first(), rem as int % c as int));
            lemma_fundamental_div_mod(rem as int, c as int);
            lemma_mod_pos_bound(rem as int, c as int);
            lemma_div_pos_is_pos(rem as int, c as int);
            assert(count as int == rem as int / c as int);
            assert(count as int * c as int <= rem as int);
        }
        if count > 0 {
            result.push((denom_ref.clone(), count));
            rem = rem - count * c;
        }
        proof {
            let gi = gcs[i as int];
            assert(gi == count as int);
            let q = old_rem as int / c as int;
            let r2 = old_rem as int % c as int;
            lemma_fundamental_div_mod(old_rem as int, c as int);
            assert(old_rem as int == c as int * q + r2);
            assert(count as int == q);
            if count > 0 {
                assert(rem as int == old_rem as int - count as int * c as int);
                assert(count as int * c as int == c as int * q) by (nonlinear_arith)
                    requires
                        count as int == q,
                ;
                assert(rem as int == r2);
            } else {
                assert(q == 0);
                assert(c as int * q == 0) by (nonlinear_arith)
                    requires
                        q == 0,
                ;
                assert(rem as int == r2);
            }
            assert(rem as int == old_rem as int % c as int);
            assert(d.take(i as int + 1) =~= d.take(i as int) + seq![d[i as int]]);
            assert(gcs.take(i as int + 1) =~= gcs.take(i as int) + seq![gi]);
            lemma_snoc_step(d.take(i as int), gcs.take(i as int), d[i as int], gi);
            if count > 0 {
                assert(result@.len() == old_result.len() + 1);
                assert(result@[old_result.len() as int].0@ == d[i as int]);
                assert(result@[old_result.len() as int].1 == count);
                assert(bd_model(result@) =~= bd_model(old_result).push((d[i as int], gi)));
                assert(bd_model(result@) =~= bd_model(old_result) + seq![(d[i as int], gi)]);
                lemma_bs_append(bd_model(old_result), seq![(d[i as int], gi)]);
                lemma_bs_single((d[i as int], gi));
            }
            assert(bd_model(result@) == breakdown_from_counts(
                d.take(i as int + 1),
                gcs.take(i as int + 1),
            ));
            if i + 1 == n {
                assert(d.take(n as int) =~= d);
                assert(gcs.take(n as int) =~= gcs);
            }
        }
        i = i + 1;
    }
    proof {
        lemma_greedy_counts_sum(d, cents as int);
        lemma_from_counts_props(d, gcs);
        assert(rem == 0);
        if cents == 0 {
            lemma_well_formed_positive(d);
            lemma_greedy_counts_zero(d);
            lemma_bfc_zero(d, gcs);
            assert(bd_model(result@).len() == 0);
            assert(result@.len() == 0);
        }
        assert(valid_breakdown(d, bd_model(result@), cents as int)) by {
            assert({
                &&& gcs.len() == d.len()
                &&& (forall|k: int| 0 <= k < gcs.len() ==> 0 <= #[trigger] gcs[k] <= u32::MAX)
                &&& bd_model(result@) == breakdown_from_counts(d, gcs)
                &&& weighted_sum(d, gcs) == cents as int
            });
        }
    }
    result
}

impl ChangeStrategy for GreedyStrategy {
    fn make_change(&mut self, cents: u32, currency: &Currency) -> (r: Breakdown) {
        greedy_change(cents, currency)
    }
}

} // verus!
