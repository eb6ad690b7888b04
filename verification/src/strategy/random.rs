use vstd::prelude::*;
use vstd::arithmetic::div_mod::{
    lemma_div_pos_is_pos, lemma_fundamental_div_mod, lemma_mod_pos_bound,
};
use vstd::arithmetic::mul::lemma_mul_inequality;
use crate::currency::{lemma_well_formed_positive, Currency, DenomModel};
use crate::strategy::{
    bd_model, breakdown_from_counts, breakdown_sum, lemma_bfc_append, lemma_bfc_zero,
    lemma_snoc_step, lemma_valid_breakdown_props, lemma_ws_append, valid_breakdown, weighted_sum,
    Breakdown, ChangeStrategy,
};

verus! {

#[verifier::external_type_specification]
#[verifier::external_body]
pub struct ExStdRng(rand::rngs::StdRng);

/// Relies on rand::Rng::gen_range over the range 0..=max: the drawn value lies
/// in that inclusive range, which is never empty. Nothing more is assumed of
/// the draw, so every proof downstream holds for every possible outcome.
#[verifier::external_body]
fn rand_range_u32(rng: &mut rand::rngs::StdRng, max: u32) -> (r: u32)
    ensures
        r <= max,
{
    rand::Rng::gen_range(rng, 0..=max)
}

/// Randomized change algorithm: every denomination but the last draws a count
/// between zero and the most it could take; the final one-minor-unit
/// denomination absorbs whatever remains, which is what guarantees the exact
/// sum for every possible sequence of draws.
pub struct RandomStrategy {
    rng: rand::rngs::StdRng,
}

impl RandomStrategy {
    pub fn new(rng: rand::rngs::StdRng) -> (s: Self) {
        RandomStrategy { rng }
    }
}

/// Break `cents` into denominations of the currency, choosing counts at
/// random except for the final remainder-absorbing denomination.
///
/// Whatever the random source returns, the result is a breakdown of some
/// count table that sums exactly to `cents`.
pub fn random_change(rng: &mut rand::rngs::StdRng, cents: u32, currency: &Currency) -> (r:
    Breakdown)
    requires
        currency.well_formed(),
    ensures
        valid_breakdown(currency@.denominations, bd_model(r@), cents as int),
        breakdown_sum(bd_model(r@)) == cents as int,
        cents == 0 ==> r@.len() == 0,
{
    let ghost d = currency@.denominations;
    proof {
        lemma_well_formed_positive(d);
    }
    let mut result: Breakdown = Vec::new();
    let mut rem: u32 = cents;
    let mut i: usize = 0;
    let n: usize = currency.denominations.len();
    let ghost mut counts: Seq<int> = Seq::empty();
    proof {
        assert(d.take(0) =~= Seq::<DenomModel>::empty());
        assert(bd_model(result@) =~= Seq::<(DenomModel, int)>::empty());
        assert(breakdown_from_counts(d.take(0), counts) == Seq::<(DenomModel, int)>::empty());
        assert(weighted_sum(d.take(0), counts) == 0);
    }
    while i < n
        invariant
            currency.well_formed(),
            n == currency.denominations@.len(),
            d == currency@.denominations,
            i <= n,
            rem <= cents,
            counts.len() == i,
            forall|j: int| 0 <= j < counts.len() ==> 0 <= #[trigger] counts[j] <= u32::MAX,
            bd_model(result@) == breakdown_from_counts(d.take(i as int), counts),
            weighted_sum(d.take(i as int), counts) + rem == cents as int,
            i == n ==> rem == 0,
            i == n ==> valid_breakdown(d, bd_model(result@), cents as int),
            cents == 0 ==> result@.len() == 0,
        ensures
            valid_breakdown(d, bd_model(result@), cents as int),
            cents == 0 ==> result@.len() == 0,
        decreases n - i,
    {
        if rem == 0 {
            proof {
                let pad = Seq::new((n - i) as nat, |k: int| 0);
                let cs = counts + pad;
                lemma_well_formed_positive(d);
                lemma_bfc_zero(d.skip(i as int), pad);
                lemma_bfc_append(d.take(i as int), counts, d.skip(i as int), pad);
                lemma_ws_append(d.take(i as int), counts, d.skip(i as int), pad);
                assert(d.take(i as int) + d.skip(i as int) =~= d);
                assert(breakdown_from_counts(d.take(i as int), counts) + breakdown_from_counts(
                    d.skip(i as int),
                    pad,
                ) =~= bd_model(result@));
                assert(valid_breakdown(d, bd_model(result@), cents as int)) by {
                    assert({
                        &&& cs.len() == d.len()
                        &&& (forall|j: int| 0 <= j < cs.len() ==> 0 <= #[trigger] cs[j] <= u32::MAX)
                        &&& bd_model(result@) == breakdown_from_counts(d, cs)
                        &&& weighted_sum(d, cs) == cents as int
                    });
                }
                lemma_valid_breakdown_props(d, bd_model(result@), cents as int);
            }
            break;
        }
        let denom_ref = &currency.denominations[i];
        let c: u32 = denom_ref.cents;
        proof {
            assert(d[i as int] == currency.denominations@[i as int]@);
            lemma_well_formed_positive(d);
            assert(d[i as int].cents >= 1);
        }
        let max: u32 = rem / c;
        proof {
            lemma_fundamental_div_mod(rem as int, c as int);
            lemma_mod_pos_bound(rem as int, c as int);
            lemma_div_pos_is_pos(rem as int, c as int);
        }
        let count: u32 = if max == 0 {
            0
        } else if i + 1 == n {
            max
        } else {
            rand_range_u32(rng, max)
        };
        proof {
            assert(count <= max);
            lemma_mul_inequality(count as int, max as int, c as int);
            assert(max as int * c as int <= rem as int);
            assert(count as int * c as int <= rem as int);
        }
        let ghost old_rem = rem;
        let ghost old_result = result@;
        if count > 0 {
            result.push((denom_ref.clone(), count));
            rem = rem - count * c;
        }
        proof {
            if i + 1 == n {
                assert(d[i as int].cents == 1);
                if max > 0 {
                    assert(count == max);
                    assert(max as int == old_rem as int / (c as int));
                    assert(rem == 0);
                } else {
                    assert(old_rem as int / (c as int) == 0);
                    assert(old_rem == 0);
                }
            }
            let gi = count as int;
            assert(d.take(i as int + 1) =~= d.take(i as int) + seq![d[i as int]]);
            assert(counts + seq![gi] =~= counts.push(gi));
            lemma_snoc_step(d.take(i as int), counts, d[i as int], gi);
            if count > 0 {
                assert(result@.len() == old_result.len() + 1);
                assert(result@[old_result.len() as int].0@ == d[i as int]);
                assert(result@[old_result.len() as int].1 == count);
                assert(bd_model(result@) =~= bd_model(old_result).push((d[i as int], gi)));
                assert(bd_model(result@) =~= bd_model(old_result) + seq![(d[i as int], gi)]);
            }
            counts = counts.push(gi);
            assert(bd_model(result@) == breakdown_from_counts(d.take(i as int + 1), counts));
            assert(weighted_sum(d.take(i as int + 1), counts) + rem == cents as int);
            if i + 1 == n {
                assert(d.take(n as int) =~= d);
                assert(valid_breakdown(d, bd_model(result@), cents as int)) by {
                    assert({
                        &&& counts.len() == d.len()
                        &&& (forall|j: int|
                            0 <= j < counts.len() ==> 0 <= #[trigger] counts[j] <= u32::MAX)
                        &&& bd_model(result@) == breakdown_from_counts(d, counts)
                        &&& weighted_sum(d, counts) == cents as int
                    });
                }
            }
        }
        i = i + 1;
    }
    proof {
        lemma_valid_breakdown_props(d, bd_model(result@), cents as int);
    }
    result
}

impl ChangeStrategy for RandomStrategy {
    fn make_change(&mut self, cents: u32, currency: &Currency) -> (r: Breakdown) {
        random_change(&mut self.rng, cents, currency)
    }
}

} // verus!
