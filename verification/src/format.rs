use vstd::prelude::*;
use vstd::arithmetic::div_mod::{lemma_div_decreases, lemma_div_pos_is_pos};
use crate::currency::{Currency, DenomModel};
use crate::parse::Transaction;
use crate::strategy::{bd_model, Breakdown};

verus! {

/// The character of one decimal digit.
pub open spec fn digit_char(d: int) -> char {
    if d == 0 {
        '0'
    } else if d == 1 {
        '1'
    } else if d == 2 {
        '2'
    } else if d == 3 {
        '3'
    } else if d == 4 {
        '4'
    } else if d == 5 {
        '5'
    } else if d == 6 {
        '6'
    } else if d == 7 {
        '7'
    } else if d == 8 {
        '8'
    } else {
        '9'
    }
}

/// The decimal rendering of a non-negative number, no leading zeros.
pub open spec fn dec_str(n: int) -> Seq<char>
    decreases n,
{
    if n < 10 {
        seq![digit_char(n)]
    } else {
        dec_str(n / 10) + seq![digit_char(n % 10)]
    }
}

/// "`count` `name`", singular name exactly for a count of one.
pub open spec fn entry_str(p: (DenomModel, int)) -> Seq<char> {
    dec_str(p.1) + " "@ + (if p.1 == 1 {
        p.0.singular
    } else {
        p.0.plural
    })
}

/// Comma-prefixed entries for every pair after the first.
pub open spec fn breakdown_tail_str(b: Seq<(DenomModel, int)>) -> Seq<char>
    decreases b.len(),
{
    if b.len() == 0 {
        Seq::empty()
    } else {
        ","@ + entry_str(b[0]) + breakdown_tail_str(b.drop_first())
    }
}

/// The output line for a breakdown: its entries joined by commas, or the
/// distinguished text for the empty breakdown.
pub open spec fn breakdown_str(b: Seq<(DenomModel, int)>) -> Seq<char> {
    if b.len() == 0 {
        "no change"@
    } else {
        entry_str(b[0]) + breakdown_tail_str(b.drop_first())
    }
}

/// A symbol-prefixed amount with two decimal places.
pub open spec fn amount_str(c: int, sym: Seq<char>) -> Seq<char> {
    sym + dec_str(c / 100) + "."@ + seq![digit_char((c % 100) / 10), digit_char((c % 100) % 10)]
}

/// The verbose report line for one transaction.
pub open spec fn verbose_str(
    tx: Transaction,
    b: Seq<(DenomModel, int)>,
    sym: Seq<char>,
    is_random: bool,
) -> Seq<char> {
    "Owed "@ + amount_str(tx.owed_cents as int, sym) + ", Paid "@ + amount_str(
        tx.paid_cents as int,
        sym,
    ) + " -> "@ + breakdown_str(b) + (if is_random {
        " (random)"@
    } else {
        Seq::<char>::empty()
    })
}

/// The text of one decimal digit.
fn digit_str(d: u32) -> (r: &'static str)
    requires
        d < 10,
    ensures
        r@ == seq![digit_char(d as int)],
{
    let r: &'static str = match d {
        0 => "0",
        1 => "1",
        2 => "2",
        3 => "3",
        4 => "4",
        5 => "5",
        6 => "6",
        7 => "7",
        8 => "8",
        _ => "9",
    };
    proof {
        reveal_strlit("0");
        reveal_strlit("1");
        reveal_strlit("2");
        reveal_strlit("3");
        reveal_strlit("4");
        reveal_strlit("5");
        reveal_strlit("6");
        reveal_strlit("7");
        reveal_strlit("8");
        reveal_strlit("9");
        assert(r@ =~= seq![digit_char(d as int)]);
    }
    r
}

/// Render a number in decimal.
fn u32_to_string(n: u32) -> (r: String)
    ensures
        r@ == dec_str(n as int),
    decreases n,
{
    if n < 10 {
        String::from_str(digit_str(n))
    } else {
        proof {
            lemma_div_decreases(n as int, 10);
            lemma_div_pos_is_pos(n as int, 10);
        }
        let q = u32_to_string(n / 10);
        q.concat(digit_str(n % 10))
    }
}

/// One breakdown entry appended on the right extends the joined text by a
/// comma and that entry.
proof fn lemma_tail_str_push(b: Seq<(DenomModel, int)>, p: (DenomModel, int))
    ensures
        breakdown_tail_str(b.push(p)) == breakdown_tail_str(b) + (","@ + entry_str(p)),
    decreases b.len(),
{
    let bp = b.push(p);
    if b.len() == 0 {
        assert(bp[0] == p);
        assert(bp.drop_first() =~= Seq::<(DenomModel, int)>::empty());
        assert(breakdown_tail_str(bp.drop_first()) == Seq::<char>::empty());
        assert(breakdown_tail_str(bp) =~= breakdown_tail_str(b) + (","@ + entry_str(p)));
    } else {
        assert(bp[0] == b[0]);
        assert(bp.drop_first() =~= b.drop_first().push(p));
        lemma_tail_str_push(b.drop_first(), p);
        assert(breakdown_tail_str(bp) == ","@ + entry_str(b[0]) + (breakdown_tail_str(
            b.drop_first(),
        ) + (","@ + entry_str(p))));
        assert(","@ + entry_str(b[0]) + (breakdown_tail_str(b.drop_first()) + (","@ + entry_str(
            p,
        ))) =~= (","@ + entry_str(b[0]) + breakdown_tail_str(b.drop_first())) + (","@ + entry_str(
            p,
        )));
    }
}

/// A non-empty breakdown extended on the right extends its text on the right.
proof fn lemma_breakdown_str_push(b: Seq<(DenomModel, int)>, p: (DenomModel, int))
    requires
        b.len() >= 1,
    ensures
        breakdown_str(b.push(p)) == breakdown_str(b) + (","@ + entry_str(p)),
{
    let bp = b.push(p);
    assert(bp[0] == b[0]);
    assert(bp.drop_first() =~= b.drop_first().push(p));
    lemma_tail_str_push(b.drop_first(), p);
    assert(entry_str(b[0]) + (breakdown_tail_str(b.drop_first()) + (","@ + entry_str(p)))
        =~= (entry_str(b[0]) + breakdown_tail_str(b.drop_first())) + (","@ + entry_str(p)));
}

/// Append one entry's text to the output.
fn append_entry(out: &mut String, denom_singular: &str, denom_plural: &str, count: u32)
    ensures
        final(out)@ == old(out)@ + dec_str(count as int) + " "@ + (if count == 1 {
            denom_singular@
        } else {
            denom_plural@
        }),
{
    let num = u32_to_string(count);
    out.append(num.as_str());
    out.append(" ");
    if count == 1 {
        out.append(denom_singular);
    } else {
        out.append(denom_plural);
    }
}

/// Format a breakdown into the output line.
///
/// Entries render as "`count` `name`" with the singular name for a count of
/// one, joined by commas with no spaces; the empty breakdown renders as
/// "no change".
pub fn format_breakdown(breakdown: &Breakdown) -> (r: String)
    ensures
        r@ == breakdown_str(bd_model(breakdown@)),
{
    let ghost m = bd_model(breakdown@);
    if breakdown.len() == 0 {
        return String::from_str("no change");
    }
    let mut out = String::new();
    let first = &breakdown[0];
    append_entry(&mut out, first.0.singular.as_str(), first.0.plural.as_str(), first.1);
    proof {
        assert(m[0] == (breakdown@[0].0@, breakdown@[0].1 as int));
        assert(out@ == entry_str(m[0]));
        assert(m.take(1).drop_first() =~= Seq::<(DenomModel, int)>::empty());
        assert(m.take(1)[0] == m[0]);
        assert(out@ == breakdown_str(m.take(1)));
    }
    let mut i: usize = 1;
    while i < breakdown.len()
        invariant
            1 <= i <= breakdown@.len(),
            m == bd_model(breakdown@),
            m.len() == breakdown@.len(),
            out@ == breakdown_str(m.take(i as int)),
        decreases breakdown@.len() - i,
    {
        out.append(",");
        let entry = &breakdown[i];
        append_entry(&mut out, entry.0.singular.as_str(), entry.0.plural.as_str(), entry.1);
        proof {
            assert(m[i as int] == (breakdown@[i as int].0@, breakdown@[i as int].1 as int));
            assert(m.take(i as int).len() >= 1);
            lemma_breakdown_str_push(m.take(i as int), m[i as int]);
            assert(m.take(i as int).push(m[i as int]) =~= m.take(i as int + 1));
            assert(out@ == breakdown_str(m.take(i as int)) + (","@ + entry_str(m[i as int])));
            assert(breakdown_str(m.take(i as int)) + (","@ + entry_str(m[i as int]))
                =~= breakdown_str(m.take(i as int)) + ","@ + entry_str(m[i as int]));
        }
        i = i + 1;
    }
    proof {
        assert(m.take(m.len() as int) =~= m);
    }
    out
}

/// Format minor units with a currency symbol: 213 with "$" is "$2.13".
pub fn format_amount(cents: u32, symbol: &str) -> (r: String)
    ensures
        r@ == amount_str(cents as int, symbol@),
{
    let mut out = String::from_str(symbol);
    let whole = u32_to_string(cents / 100);
    out.append(whole.as_str());
    out.append(".");
    let sub = cents % 100;
    out.append(digit_str(sub / 10));
    out.append(digit_str(sub % 10));
    proof {
        assert(out@ =~= amount_str(cents as int, symbol@));
    }
    out
}

/// Format a transaction with its breakdown for verbose output, labelling
/// randomized lines.
pub fn format_verbose(
    transaction: &Transaction,
    breakdown: &Breakdown,
    currency: &Currency,
    is_random: bool,
) -> (r: String)
    ensures
        r@ == verbose_str(*transaction, bd_model(breakdown@), currency@.symbol, is_random),
{
    let mut out = String::from_str("Owed ");
    let owed = format_amount(transaction.owed_cents, currency.symbol.as_str());
    out.append(owed.as_str());
    out.append(", Paid ");
    let paid = format_amount(transaction.paid_cents, currency.symbol.as_str());
    out.append(paid.as_str());
    out.append(" -> ");
    let change = format_breakdown(breakdown);
    out.append(change.as_str());
    if is_random {
        out.append(" (random)");
    }
    proof {
        assert(out@ =~= verbose_str(
            *transaction,
            bd_model(breakdown@),
            currency@.symbol,
            is_random,
        ));
    }
    out
}

} // verus!
