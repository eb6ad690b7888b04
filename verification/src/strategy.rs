pub mod greedy;
pub mod optimal;
pub mod random;

use vstd::prelude::*;
use crate::currency::{Currency, DenomModel, Denomination};

verus! {

/// A breakdown of change: pairs of (denomination, count), in the currency's
/// order, with every count positive.
pub type Breakdown = Vec<(Denomination, u32)>;

/// The mathematical content of a breakdown: denomination models paired with
/// counts as unbounded integers.
pub open spec fn bd_model(b: Seq<(Denomination, u32)>) -> Seq<(DenomModel, int)> {
    b.map_values(|p: (Denomination, u32)| (p.0@, p.1 as int))
}

/// Sum of value times count over the pairs of a breakdown.
pub open spec fn breakdown_sum(b: Seq<(DenomModel, int)>) -> int
    decreases b.len(),
{
    if b.len() == 0 {
        0
    } else {
        b[0].0.cents * b[0].1 + breakdown_sum(b.drop_first())
    }
}

/// Weighted sum of one count per denomination, paired positionally.
pub open spec fn weighted_sum(d: Seq<DenomModel>, counts: Seq<int>) -> int
    decreases d.len(),
{
    if d.len() == 0 || counts.len() == 0 {
        0
    } else {
        d[0].cents * counts[0] + weighted_sum(d.drop_first(), counts.drop_first())
    }
}

/// Total number of coins in a count table.
pub open spec fn count_total(counts: Seq<int>) -> int
    decreases counts.len(),
{
    if counts.len() == 0 {
        0
    } else {
        counts[0] + count_total(counts.drop_first())
    }
}

/// The breakdown that a per-denomination count table describes: pairs in
/// table order, zero counts omitted.
pub open spec fn breakdown_from_counts(d: Seq<DenomModel>, counts: Seq<int>) -> Seq<
    (DenomModel, int),
>
    decreases d.len(),
{
    if d.len() == 0 || counts.len() == 0 {
        Seq::empty()
    } else {
        let rest = breakdown_from_counts(d.drop_first(), counts.drop_first());
        if counts[0] > 0 {
            seq![(d[0], counts[0])] + rest
        } else {
            rest
        }
    }
}

/// What every change strategy promises of its result: it is described by some
/// per-denomination count table whose weighted sum is exactly the target.
pub open spec fn valid_breakdown(
    d: Seq<DenomModel>,
    b: Seq<(DenomModel, int)>,
    target: int,
) -> bool {
    exists|counts: Seq<int>|
        {
            &&& counts.len() == d.len()
            &&& (forall|i: int| 0 <= i < counts.len() ==> 0 <= #[trigger] counts[i] <= u32::MAX)
            &&& b == breakdown_from_counts(d, counts)
            &&& weighted_sum(d, counts) == target
        }
}

/// The count table the greedy walk produces: largest to smallest, each
/// denomination takes as much of the remainder as it can.
pub open spec fn greedy_counts(d: Seq<DenomModel>, rem: int) -> Seq<int>
    decreases d.len(),
{
    if d.len() == 0 {
        Seq::empty()
    } else {
        seq![rem / d[0].cents] + greedy_counts(d.drop_first(), rem % d[0].cents)
    }
}

/// A strategy for making change. Any implementation returns a breakdown that
/// sums exactly to the target, in the currency's denomination order, with no
/// zero counts, and empty when the target is zero.
pub trait ChangeStrategy {
    fn make_change(&mut self, cents: u32, currency: &Currency) -> (r: Breakdown)
        requires
            currency.well_formed(),
        ensures
            valid_breakdown(currency@.denominations, bd_model(r@), cents as int),
            breakdown_sum(bd_model(r@)) == cents as int,
            cents == 0 ==> r@.len() == 0,
    ;
}

/// Weighted sums add across a positional split of the tables.
pub proof fn lemma_ws_append(d1: Seq<DenomModel>, c1: Seq<int>, d2: Seq<DenomModel>, c2: Seq<int>)
    requires
        d1.len() == c1.len(),
    ensures
        weighted_sum(d1 + d2, c1 + c2) == weighted_sum(d1, c1) + weighted_sum(d2, c2),
    decreases d1.len(),
{
    if d1.len() == 0 {
        assert(d1 + d2 =~= d2);
        assert(c1 + c2 =~= c2);
    } else {
        assert((d1 + d2).drop_first() =~= d1.drop_first() + d2);
        assert((c1 + c2).drop_first() =~= c1.drop_first() + c2);
        lemma_ws_append(d1.drop_first(), c1.drop_first(), d2, c2);
    }
}

/// Breakdowns from counts concatenate across a positional split of the tables.
pub proof fn lemma_bfc_append(d1: Seq<DenomModel>, c1: Seq<int>, d2: Seq<DenomModel>, c2: Seq<int>)
    requires
        d1.len() == c1.len(),
    ensures
        breakdown_from_counts(d1 + d2, c1 + c2) == breakdown_from_counts(d1, c1)
            + breakdown_from_counts(d2, c2),
    decreases d1.len(),
{
    if d1.len() == 0 {
        assert(d1 + d2 =~= d2);
        assert(c1 + c2 =~= c2);
        assert(breakdown_from_counts(d1, c1) + breakdown_from_counts(d2, c2)
            =~= breakdown_from_counts(d2, c2));
    } else {
        assert((d1 + d2).drop_first() =~= d1.drop_first() + d2);
        assert((c1 + c2).drop_first() =~= c1.drop_first() + c2);
        lemma_bfc_append(d1.drop_first(), c1.drop_first(), d2, c2);
        if c1[0] > 0 {
            assert(seq![(d1[0], c1[0])] + (breakdown_from_counts(d1.drop_first(), c1.drop_first())
                + breakdown_from_counts(d2, c2)) =~= (seq![(d1[0], c1[0])]
                + breakdown_from_counts(d1.drop_first(), c1.drop_first()))
                + breakdown_from_counts(d2, c2));
        }
    }
}

/// Breakdown sums add across concatenation.
pub proof fn lemma_bs_append(b1: Seq<(DenomModel, int)>, b2: Seq<(DenomModel, int)>)
    ensures
        breakdown_sum(b1 + b2) == breakdown_sum(b1) + breakdown_sum(b2),
    decreases b1.len(),
{
    if b1.len() == 0 {
        assert(b1 + b2 =~= b2);
    } else {
        assert((b1 + b2).drop_first() =~= b1.drop_first() + b2);
        lemma_bs_append(b1.drop_first(), b2);
    }
}

/// A one-denomination table emits its pair exactly when the count is positive.
pub proof fn lemma_bfc_single(x: DenomModel, c: int)
    ensures
        c > 0 ==> breakdown_from_counts(seq![x], seq![c]) == seq![(x, c)],
        c <= 0 ==> breakdown_from_counts(seq![x], seq![c]) == Seq::<(DenomModel, int)>::empty(),
{
    assert(seq![x].drop_first() =~= Seq::<DenomModel>::empty());
    assert(seq![c].drop_first() =~= Seq::<int>::empty());
    assert(breakdown_from_counts(seq![x].drop_first(), seq![c].drop_first())
        == Seq::<(DenomModel, int)>::empty());
    if c > 0 {
        assert(breakdown_from_counts(seq![x], seq![c]) =~= seq![(x, c)]);
    } else {
        assert(breakdown_from_counts(seq![x], seq![c]) =~= Seq::<(DenomModel, int)>::empty());
    }
}

/// The weighted sum of a one-denomination table.
pub proof fn lemma_ws_single(x: DenomModel, c: int)
    ensures
        weighted_sum(seq![x], seq![c]) == x.cents * c,
{
    assert(seq![x].drop_first() =~= Seq::<DenomModel>::empty());
    assert(seq![c].drop_first() =~= Seq::<int>::empty());
    assert(weighted_sum(seq![x].drop_first(), seq![c].drop_first()) == 0);
}

/// The sum of a one-pair breakdown.
pub proof fn lemma_bs_single(p: (DenomModel, int))
    ensures
        breakdown_sum(seq![p]) == p.0.cents * p.1,
{
    assert(seq![p].drop_first() =~= Seq::<(DenomModel, int)>::empty());
    assert(breakdown_sum(seq![p].drop_first()) == 0);
}

/// Extending the processed prefix by one denomination extends its breakdown by
/// at most one pair and its weighted sum by that denomination's contribution.
pub proof fn lemma_snoc_step(dpre: Seq<DenomModel>, cpre: Seq<int>, x: DenomModel, c: int)
    requires
        dpre.len() == cpre.len(),
    ensures
        c > 0 ==> breakdown_from_counts(dpre + seq![x], cpre + seq![c]) == breakdown_from_counts(
            dpre,
            cpre,
        ) + seq![(x, c)],
        c <= 0 ==> breakdown_from_counts(dpre + seq![x], cpre + seq![c]) == breakdown_from_counts(
            dpre,
            cpre,
        ),
        weighted_sum(dpre + seq![x], cpre + seq![c]) == weighted_sum(dpre, cpre) + x.cents * c,
{
    lemma_bfc_append(dpre, cpre, seq![x], seq![c]);
    lemma_ws_append(dpre, cpre, seq![x], seq![c]);
    lemma_bfc_single(x, c);
    lemma_ws_single(x, c);
    if c <= 0 {
        assert(breakdown_from_counts(dpre, cpre) + Seq::<(DenomModel, int)>::empty()
            =~= breakdown_from_counts(dpre, cpre));
    }
}

/// An all-zero count table describes the empty breakdown and sums to zero.
pub proof fn lemma_bfc_zero(d: Seq<DenomModel>, counts: Seq<int>)
    requires
        counts.len() == d.len(),
        forall|i: int| 0 <= i < counts.len() ==> #[trigger] counts[i] == 0,
    ensures
        breakdown_from_counts(d, counts) == Seq::<(DenomModel, int)>::empty(),
        weighted_sum(d, counts) == 0,
    decreases d.len(),
{
    if d.len() > 0 {
        lemma_bfc_zero(d.drop_first(), counts.drop_first());
    }
}

/// Every pair a count table emits has a positive count and a denomination of
/// the table, and the emitted pairs sum to the table's weighted sum.
pub proof fn lemma_from_counts_props(d: Seq<DenomModel>, counts: Seq<int>)
    requires
        counts.len() == d.len(),
        forall|i: int| 0 <= i < counts.len() ==> #[trigger] counts[i] >= 0,
    ensures
        breakdown_sum(breakdown_from_counts(d, counts)) == weighted_sum(d, counts),
        forall|k: int|
            0 <= k < breakdown_from_counts(d, counts).len()
                ==> (#[trigger] breakdown_from_counts(d, counts)[k]).1 > 0 && d.contains(
                breakdown_from_counts(d, counts)[k].0,
            ),
    decreases d.len(),
{
    if d.len() == 0 {
    } else {
        let db = d.drop_first();
        let cb = counts.drop_first();
        lemma_from_counts_props(db, cb);
        let rest = breakdown_from_counts(db, cb);
        assert forall|x: DenomModel| db.contains(x) implies d.contains(x) by {
            let j = choose|j: int| 0 <= j < db.len() && db[j] == x;
            assert(d[j + 1] == x);
        }
        assert(weighted_sum(d, counts) == d[0].cents * counts[0] + weighted_sum(db, cb));
        if counts[0] > 0 {
            let b = breakdown_from_counts(d, counts);
            assert(b =~= seq![(d[0], counts[0])] + rest);
            assert(b.drop_first() =~= rest);
            assert(b[0] == (d[0], counts[0]));
            assert(breakdown_sum(b) == b[0].0.cents * b[0].1 + breakdown_sum(rest));
            assert(d.contains(d[0])) by {
                assert(d[0] == d[0]);
            }
            assert forall|k: int| 0 <= k < b.len() implies (#[trigger] b[k]).1 > 0 && d.contains(
                b[k].0,
            ) by {
                if k > 0 {
                    assert(b[k] == rest[k - 1]);
                }
            }
        } else {
            assert(breakdown_from_counts(d, counts) == rest);
            assert(d[0].cents * counts[0] == 0);
        }
    }
}

/// Any breakdown a strategy may return sums exactly to the target, emits only
/// positive counts, and uses only denominations of the table.
pub proof fn lemma_valid_breakdown_props(
    d: Seq<DenomModel>,
    b: Seq<(DenomModel, int)>,
    target: int,
)
    requires
        valid_breakdown(d, b, target),
    ensures
        breakdown_sum(b) == target,
        forall|k: int| 0 <= k < b.len() ==> (#[trigger] b[k]).1 > 0 && d.contains(b[k].0),
{
    let counts = choose|counts: Seq<int>|
        {
            &&& counts.len() == d.len()
            &&& (forall|i: int| 0 <= i < counts.len() ==> 0 <= #[trigger] counts[i] <= u32::MAX)
            &&& b == breakdown_from_counts(d, counts)
            &&& weighted_sum(d, counts) == target
        };
    lemma_from_counts_props(d, counts);
}

} // verus!
