use vstd::prelude::*;
use crate::currency::{lemma_well_formed_positive, Currency};
use crate::parse::Transaction;
use crate::strategy::greedy::{greedy_change, lemma_greedy_counts_zero};
use crate::strategy::random::random_change;
use crate::strategy::{
    bd_model, breakdown_from_counts, breakdown_sum, greedy_counts, lemma_bfc_zero, valid_breakdown,
    weighted_sum, Breakdown,
};

verus! {

/// Whether the dispatch rule sends a transaction to the random strategy:
/// a positive divisor that exactly divides the owed amount.
pub open spec fn selects_random(transaction: Transaction, divisor: u32) -> bool {
    divisor > 0 && transaction.owed_cents as int % divisor as int == 0
}

/// Determine change for a transaction, dispatching to the appropriate
/// strategy.
///
/// If the owed amount is an exact multiple of a positive `divisor`, the
/// randomized strategy runs; otherwise, and always when `divisor` is zero,
/// the deterministic greedy strategy runs. Either way the breakdown sums
/// exactly to the change, and a zero change yields an empty breakdown.
pub fn make_change_for(
    transaction: &Transaction,
    currency: &Currency,
    divisor: u32,
    rng: &mut rand::rngs::StdRng,
) -> (r: Breakdown)
    requires
        currency.well_formed(),
    ensures
        valid_breakdown(currency@.denominations, bd_model(r@), transaction.change_cents as int),
        breakdown_sum(bd_model(r@)) == transaction.change_cents as int,
        transaction.change_cents == 0 ==> r@.len() == 0,
        !selects_random(*transaction, divisor) ==> bd_model(r@) == breakdown_from_counts(
            currency@.denominations,
            greedy_counts(currency@.denominations, transaction.change_cents as int),
        ),
{
    if transaction.change_cents == 0 {
        let r: Breakdown = Vec::new();
        proof {
            let d = currency@.denominations;
            assert(bd_model(r@) =~= Seq::<(crate::currency::DenomModel, int)>::empty());
            lemma_well_formed_positive(d);
            lemma_greedy_counts_zero(d);
            let gcs = greedy_counts(d, 0);
            lemma_bfc_zero(d, gcs);
            assert(valid_breakdown(d, bd_model(r@), 0)) by {
                assert({
                    &&& gcs.len() == d.len()
                    &&& (forall|k: int| 0 <= k < gcs.len() ==> 0 <= #[trigger] gcs[k] <= u32::MAX)
                    &&& bd_model(r@) == breakdown_from_counts(d, gcs)
                    &&& weighted_sum(d, gcs) == 0
                });
            }
        }
        return r;
    }
    if divisor > 0 && transaction.owed_cents % divisor == 0 {
        random_change(rng, transaction.change_cents, currency)
    } else {
        greedy_change(transaction.change_cents, currency)
    }
}

} // verus!
