use vstd::prelude::*;
use crate::error::CashRegisterError;

verus! {

/// A validated transaction: how much was owed, paid, and returned, in minor
/// units.
#[derive(Debug, Clone, Copy, PartialEq, Eq, Structural)]
pub struct Transaction {
    pub owed_cents: u32,
    pub paid_cents: u32,
    pub change_cents: u32,
}

impl Transaction {
    /// The payment covers what is owed and the change is their difference.
    pub open spec fn well_formed(&self) -> bool {
        &&& self.owed_cents <= self.paid_cents
        &&& self.change_cents == self.paid_cents - self.owed_cents
    }
}

/// The whitespace the parser strips from the ends of a token.
pub open spec fn is_space(c: char) -> bool {
    c == ' ' || c == '\t' || c == '\n' || c == '\r'
}

/// A decimal digit.
pub open spec fn is_digit(c: char) -> bool {
    48 <= c as int <= 57
}

pub open spec fn digit_val(c: char) -> int {
    c as int - 48
}

pub open spec fn all_digits(s: Seq<char>) -> bool {
    forall|i: int| 0 <= i < s.len() ==> is_digit(#[trigger] s[i])
}

/// Numeric value of a digit string, most significant digit first.
pub open spec fn digits_val(s: Seq<char>) -> int
    decreases s.len(),
{
    if s.len() == 0 {
        0
    } else {
        digits_val(s.drop_last()) * 10 + digit_val(s.last())
    }
}

/// Index of the first occurrence of `c` in `s`, or `s.len()` if absent.
pub open spec fn first_index_of(s: Seq<char>, c: char) -> int
    decreases s.len(),
{
    if s.len() == 0 {
        0
    } else if s[0] == c {
        0
    } else {
        1 + first_index_of(s.drop_first(), c)
    }
}

pub open spec fn drop_leading_spaces(s: Seq<char>) -> Seq<char>
    decreases s.len(),
{
    if s.len() > 0 && is_space(s[0]) {
        drop_leading_spaces(s.drop_first())
    } else {
        s
    }
}

pub open spec fn drop_trailing_spaces(s: Seq<char>) -> Seq<char>
    decreases s.len(),
{
    if s.len() > 0 && is_space(s.last()) {
        drop_trailing_spaces(s.drop_last())
    } else {
        s
    }
}

/// Surrounding whitespace removed.
pub open spec fn trim_spec(s: Seq<char>) -> Seq<char> {
    drop_trailing_spaces(drop_leading_spaces(s))
}

/// The amount grammar. After trimming, a token is either all digits (a
/// whole-unit amount, worth one hundred minor units each), or digits, one
/// `.`, and one or two fractional digits; a single fractional digit counts
/// tenths of a unit. Values that do not fit in `u32` are rejected.
pub open spec fn parse_amount_spec(s: Seq<char>) -> Option<u32> {
    let t = trim_spec(s);
    if t.len() == 0 {
        None
    } else {
        let k = first_index_of(t, '.');
        if k == t.len() {
            if all_digits(t) && digits_val(t) * 100 <= u32::MAX {
                Some((digits_val(t) * 100) as u32)
            } else {
                None
            }
        } else {
            let w = t.take(k);
            let f = t.skip(k + 1);
            if w.len() > 0 && all_digits(w) && 1 <= f.len() <= 2 && all_digits(f) {
                let cents = if f.len() == 1 {
                    digits_val(f) * 10
                } else {
                    digits_val(f)
                };
                if digits_val(w) * 100 + cents <= u32::MAX {
                    Some((digits_val(w) * 100 + cents) as u32)
                } else {
                    None
                }
            } else {
                None
            }
        }
    }
}

/// The value of a digit string is never negative.
proof fn lemma_digits_val_nonneg(s: Seq<char>)
    requires
        all_digits(s),
    ensures
        digits_val(s) >= 0,
    decreases s.len(),
{
    if s.len() > 0 {
        assert(all_digits(s.drop_last())) by {
            assert(forall|i: int| 0 <= i < s.len() - 1 ==> s.drop_last()[i] == s[i]);
        }
        lemma_digits_val_nonneg(s.drop_last());
        assert(is_digit(s.last()));
    }
}

/// Extending a digit string to the right can only grow its value.
proof fn lemma_digits_val_mono(s: Seq<char>, j: int)
    requires
        all_digits(s),
        0 <= j <= s.len(),
    ensures
        digits_val(s.take(j)) <= digits_val(s),
    decreases s.len() - j,
{
    assert(all_digits(s.take(j))) by {
        assert(forall|i: int| 0 <= i < j ==> s.take(j)[i] == s[i]);
    }
    if j == s.len() {
        assert(s.take(j) =~= s);
    } else {
        assert(s.take(j + 1).drop_last() =~= s.take(j));
        assert(s.take(j + 1).last() == s[j]);
        lemma_digits_val_nonneg(s.take(j));
        assert(is_digit(s[j]));
        assert(digits_val(s.take(j + 1)) == digits_val(s.take(j)) * 10 + digit_val(s[j]));
        lemma_digits_val_mono(s, j + 1);
    }
}

/// A digit string of at most two digits is worth at most 99.
proof fn lemma_digits_val_two(s: Seq<char>)
    requires
        all_digits(s),
        s.len() <= 2,
    ensures
        0 <= digits_val(s) <= 99,
{
    lemma_digits_val_nonneg(s);
    if s.len() == 1 {
        assert(digits_val(s.drop_last()) == 0);
        assert(is_digit(s.last()));
    } else if s.len() == 2 {
        let h = s.drop_last();
        assert(all_digits(h)) by {
            assert(forall|i: int| 0 <= i < 1 ==> h[i] == s[i]);
        }
        assert(h.drop_last().len() == 0);
        assert(digits_val(h.drop_last()) == 0);
        assert(digits_val(h) == digit_val(h.last()));
        assert(is_digit(h.last()));
        assert(is_digit(s.last()));
    }
}

/// A left-to-right scan that stops at the first hit computes `first_index_of`.
proof fn lemma_first_index(s: Seq<char>, c: char, k: int)
    requires
        0 <= k <= s.len(),
        forall|j: int| 0 <= j < k ==> s[j] != c,
        k < s.len() ==> s[k] == c,
    ensures
        first_index_of(s, c) == k,
    decreases k,
{
    if s.len() == 0 {
    } else if k == 0 {
    } else {
        assert(s[0] != c);
        let sb = s.drop_first();
        assert(forall|j: int| 0 <= j < k - 1 ==> sb[j] == s[j + 1]);
        assert(k - 1 < sb.len() ==> sb[k - 1] == s[k]);
        lemma_first_index(sb, c, k - 1);
    }
}

/// A scan past leading spaces computes `drop_leading_spaces`.
proof fn lemma_drop_leading(s: Seq<char>, start: int)
    requires
        0 <= start <= s.len(),
        forall|j: int| 0 <= j < start ==> is_space(#[trigger] s[j]),
        start < s.len() ==> !is_space(s[start]),
    ensures
        drop_leading_spaces(s) == s.skip(start),
    decreases start,
{
    if start == 0 {
        assert(s.skip(0) =~= s);
    } else {
        assert(is_space(s[0]));
        let sb = s.drop_first();
        assert(forall|j: int| 0 <= j < start - 1 ==> sb[j] == s[j + 1]);
        assert(start - 1 < sb.len() ==> sb[start - 1] == s[start]);
        lemma_drop_leading(sb, start - 1);
        assert(sb.skip(start - 1) =~= s.skip(start));
    }
}

/// A scan back over trailing spaces computes `drop_trailing_spaces`.
proof fn lemma_drop_trailing(s: Seq<char>, m: int)
    requires
        0 <= m <= s.len(),
        forall|j: int| m <= j < s.len() ==> is_space(#[trigger] s[j]),
        m > 0 ==> !is_space(s[m - 1]),
    ensures
        drop_trailing_spaces(s) == s.take(m),
    decreases s.len() - m,
{
    if m == s.len() {
        if s.len() > 0 {
            assert(!is_space(s.last()));
        }
        assert(s.take(m) =~= s);
    } else {
        assert(is_space(s.last()));
        let sb = s.drop_last();
        assert(forall|j: int| m <= j < sb.len() ==> sb[j] == s[j]);
        assert(m > 0 ==> sb[m - 1] == s[m - 1]);
        lemma_drop_trailing(sb, m);
        assert(sb.take(m) =~= s.take(m));
    }
}

/// Compute the bounds of the trimmed region of `s`.
fn trim_bounds(s: &str) -> (r: (usize, usize))
    ensures
        r.0 <= r.1 <= s@.len(),
        trim_spec(s@) == s@.subrange(r.0 as int, r.1 as int),
        r.0 < r.1 ==> !is_space(s@[r.0 as int]) && !is_space(s@[r.1 - 1]),
        forall|j: int| 0 <= j < r.0 ==> is_space(#[trigger] s@[j]),
        forall|j: int| r.1 <= j < s@.len() ==> is_space(#[trigger] s@[j]),
{
    let n = s.unicode_len();
    let mut start: usize = 0;
    while start < n && is_space_char(s.get_char(start))
        invariant
            n == s@.len(),
            start <= n,
            forall|j: int| 0 <= j < start ==> is_space(#[trigger] s@[j]),
        decreases n - start,
    {
        start = start + 1;
    }
    if start == n {
        proof {
            lemma_drop_leading(s@, n as int);
            assert(s@.skip(n as int) =~= Seq::<char>::empty());
            lemma_drop_trailing(Seq::<char>::empty(), 0);
            assert(s@.subrange(n as int, n as int) =~= Seq::<char>::empty());
        }
        return (n, n);
    }
    let mut end: usize = n;
    while end > start && is_space_char(s.get_char(end - 1))
        invariant
            n == s@.len(),
            start <= end <= n,
            start < n,
            !is_space(s@[start as int]),
            forall|j: int| end <= j < n ==> is_space(#[trigger] s@[j]),
        decreases end,
    {
        end = end - 1;
    }
    proof {
        lemma_drop_leading(s@, start as int);
        let t1 = s@.skip(start as int);
        assert(forall|j: int|
            end - start <= j < t1.len() ==> is_space(#[trigger] t1[j]) == is_space(
                s@[j + start as int],
            ));
        assert(end > start);
        assert(!is_space(s@[end - 1]));
        assert(t1[end - start - 1] == s@[end - 1]);
        lemma_drop_trailing(t1, end - start as int);
        assert(t1.take(end - start as int) =~= s@.subrange(start as int, end as int));
    }
    (start, end)
}

/// Whether a character is whitespace the parser strips.
fn is_space_char(c: char) -> (r: bool)
    ensures
        r == is_space(c),
{
    c == ' ' || c == '\t' || c == '\n' || c == '\r'
}

/// A freshly owned copy of the trimmed content of `s`.
fn trimmed_copy(s: &str) -> (r: String)
    ensures
        r@ == trim_spec(s@),
{
    let (start, end) = trim_bounds(s);
    let sub = s.substring_char(start, end);
    String::from_str(sub)
}

/// Find the first occurrence of `c` in `s` within `[from, to)`, or `to`.
fn find_char(s: &str, from: usize, to: usize, c: char) -> (k: usize)
    requires
        from <= to <= s@.len(),
    ensures
        from <= k <= to,
        first_index_of(s@.subrange(from as int, to as int), c) == k - from,
        k < to ==> s@[k as int] == c,
        forall|j: int| from <= j < k ==> s@[j] != c,
{
    let mut k: usize = from;
    while k < to && s.get_char(k) != c
        invariant
            from <= k <= to,
            to <= s@.len(),
            forall|j: int| from <= j < k ==> s@[j] != c,
        decreases to - k,
    {
        k = k + 1;
    }
    proof {
        let t = s@.subrange(from as int, to as int);
        assert(forall|j: int| 0 <= j < t.len() ==> t[j] == s@[j + from as int]);
        lemma_first_index(t, c, k - from as int);
    }
    k
}

/// Parse the digit run `s[from..to]` as a number, if it is one that fits.
///
/// Returns the value exactly when the range is non-empty, all digits, and
/// its value fits in `u32`.
fn parse_digits_range(s: &str, from: usize, to: usize) -> (r: Option<u32>)
    requires
        from <= to <= s@.len(),
    ensures
        ({
            let t = s@.subrange(from as int, to as int);
            &&& (t.len() > 0 && all_digits(t) && digits_val(t) <= u32::MAX ==> (r matches Some(v)
                && v == digits_val(t)))
            &&& (!(t.len() > 0 && all_digits(t) && digits_val(t) <= u32::MAX) ==> r is None)
        }),
{
    let ghost t = s@.subrange(from as int, to as int);
    if from == to {
        return None;
    }
    let mut acc: u64 = 0;
    let mut i: usize = from;
    while i < to
        invariant
            from <= i <= to,
            to <= s@.len(),
            t == s@.subrange(from as int, to as int),
            acc <= u32::MAX,
            all_digits(t.take(i - from as int)),
            acc as int == digits_val(t.take(i - from as int)),
        decreases to - i,
    {
        let c = s.get_char(i);
        let cv = c as u32;
        proof {
            assert(t[i - from as int] == s@[i as int]);
        }
        if cv < 48 || cv > 57 {
            proof {
                assert(!is_digit(s@[i as int]));
                assert(!all_digits(t));
            }
            return None;
        }
        let d: u64 = (cv - 48) as u64;
        proof {
            assert(t.take(i + 1 - from as int).drop_last() =~= t.take(i - from as int));
            assert(t.take(i + 1 - from as int).last() == t[i - from as int]);
            assert(all_digits(t.take(i + 1 - from as int))) by {
                assert(forall|j: int|
                    0 <= j < i + 1 - from ==> t.take(i + 1 - from as int)[j] == t[j]);
            }
        }
        acc = acc * 10 + d;
        if acc > u32::MAX as u64 {
            proof {
                if all_digits(t) {
                    lemma_digits_val_mono(t, i + 1 - from as int);
                }
            }
            return None;
        }
        i = i + 1;
    }
    proof {
        assert(t.take(to - from as int) =~= t);
        lemma_digits_val_nonneg(t);
    }
    Some(acc as u32)
}

/// Parse a monetary string like "2.13" into minor units (213).
///
/// String manipulation on exact integers, so no floating-point error can
/// arise. Accepts whole amounts ("3") and amounts with one or two decimal
/// places; a single decimal digit counts tenths ("3.1" is 310). Returns an
/// error exactly when the amount grammar rejects the input.
pub fn parse_dollars_to_cents(s: &str) -> (r: Result<u32, String>)
    ensures
        parse_amount_spec(s@) matches Some(v) ==> r matches Ok(rv) && rv == v,
        parse_amount_spec(s@) is None ==> r is Err,
{
    let (start, end) = trim_bounds(s);
    let ghost t = trim_spec(s@);
    if start == end {
        return Err(String::from_str("empty amount"));
    }
    let k = find_char(s, start, end, '.');
    proof {
        assert(t == s@.subrange(start as int, end as int));
    }
    if k == end {
        // Whole-unit amount.
        match parse_digits_range(s, start, end) {
            Some(v) => {
                if v <= u32::MAX / 100 {
                    proof {
                        assert(v * 100 <= u32::MAX);
                    }
                    Ok(v * 100)
                } else {
                    proof {
                        assert(digits_val(t) * 100 > u32::MAX);
                    }
                    Err(String::from_str("amount too large"))
                }
            },
            None => Err(String::from_str("not a number")),
        }
    } else {
        let ghost w = t.take(k - start as int);
        let ghost f = t.skip(k + 1 - start as int);
        proof {
            assert(w =~= s@.subrange(start as int, k as int));
            assert(f =~= s@.subrange(k + 1, end as int));
        }
        let flen = end - (k + 1);
        if flen == 0 || flen > 2 {
            return Err(String::from_str("wrong number of decimal places"));
        }
        let whole = match parse_digits_range(s, start, k) {
            Some(v) => v,
            None => {
                proof {
                    if parse_amount_spec(s@) is Some {
                        lemma_digits_val_nonneg(w);
                        lemma_digits_val_nonneg(f);
                    }
                }
                return Err(String::from_str("invalid whole part"));
            },
        };
        let frac = match parse_digits_range(s, k + 1, end) {
            Some(v) => v,
            None => {
                proof {
                    if all_digits(f) {
                        lemma_digits_val_two(f);
                    }
                }
                return Err(String::from_str("invalid fractional part"));
            },
        };
        proof {
            lemma_digits_val_two(f);
        }
        let cents: u32 = if flen == 1 {
            frac * 10
        } else {
            frac
        };
        let total: u64 = whole as u64 * 100 + cents as u64;
        if total > u32::MAX as u64 {
            return Err(String::from_str("amount too large"));
        }
        Ok(total as u32)
    }
}

/// The detail text of a malformed-line error.
pub open spec fn malformed_detail(t: Seq<char>) -> Seq<char> {
    "expected \"owed,paid\" but got \""@ + t + "\""@
}

/// What parsing one line promises: the outcome for a given line text and
/// 1-indexed line number, case by case.
pub open spec fn line_result_matches(
    r: Result<Transaction, CashRegisterError>,
    line: Seq<char>,
    num: int,
) -> bool {
    let t = trim_spec(line);
    let k = first_index_of(t, ',');
    if k == t.len() {
        r matches Err(CashRegisterError::MalformedLine { line: l, detail }) && l == num && detail@
            == malformed_detail(t)
    } else {
        let owed_tok = t.take(k);
        let paid_tok = t.skip(k + 1);
        match (parse_amount_spec(owed_tok), parse_amount_spec(paid_tok)) {
            (Option::None, _) => r matches Err(CashRegisterError::InvalidAmount { line: l, input })
                && l == num && input@ == trim_spec(owed_tok),
            (Option::Some(_), Option::None) => r matches Err(
                CashRegisterError::InvalidAmount { line: l, input },
            ) && l == num && input@ == trim_spec(paid_tok),
            (Option::Some(ow), Option::Some(pa)) => if pa < ow {
                r matches Err(CashRegisterError::Underpayment { line: l, owed, paid }) && l == num
                    && owed@ == trim_spec(owed_tok) && paid@ == trim_spec(paid_tok)
            } else {
                r matches Ok(tx) && tx.owed_cents == ow && tx.paid_cents == pa && tx.change_cents
                    == pa - ow
            },
        }
    }
}

/// Parse a single line like "2.13,3.00" into a Transaction.
///
/// The line is trimmed and split at its first comma; each side must match
/// the amount grammar, and the payment must cover the owed amount.
pub fn parse_line(line: &str, line_number: usize) -> (r: Result<Transaction, CashRegisterError>)
    ensures
        line_result_matches(r, line@, line_number as int),
        r matches Ok(tx) ==> tx.well_formed(),
{
    let (start, end) = trim_bounds(line);
    let ghost t = trim_spec(line@);
    let k = find_char(line, start, end, ',');
    if k == end {
        let mut detail = String::from_str("expected \"owed,paid\" but got \"");
        let trimmed = line.substring_char(start, end);
        detail.append(trimmed);
        detail.append("\"");
        proof {
            assert(detail@ =~= malformed_detail(t));
        }
        return Err(CashRegisterError::MalformedLine { line: line_number, detail });
    }
    let owed_str = line.substring_char(start, k);
    let paid_str = line.substring_char(k + 1, end);
    proof {
        assert(owed_str@ =~= t.take(k - start as int));
        assert(paid_str@ =~= t.skip(k + 1 - start as int));
    }
    let owed_cents = match parse_dollars_to_cents(owed_str) {
        Ok(v) => v,
        Err(_) => {
            return Err(
                CashRegisterError::InvalidAmount {
                    line: line_number,
                    input: trimmed_copy(owed_str),
                },
            );
        },
    };
    let paid_cents = match parse_dollars_to_cents(paid_str) {
        Ok(v) => v,
        Err(_) => {
            return Err(
                CashRegisterError::InvalidAmount {
                    line: line_number,
                    input: trimmed_copy(paid_str),
                },
            );
        },
    };
    if paid_cents < owed_cents {
        return Err(
            CashRegisterError::Underpayment {
                line: line_number,
                owed: trimmed_copy(owed_str),
                paid: trimmed_copy(paid_str),
            },
        );
    }
    Ok(Transaction { owed_cents, paid_cents, change_cents: paid_cents - owed_cents })
}

/// The input split at newlines; a trailing newline ends the last line rather
/// than opening an empty one.
pub open spec fn split_lines(s: Seq<char>) -> Seq<Seq<char>>
    decreases s.len(),
{
    if s.len() == 0 {
        Seq::empty()
    } else {
        let k = first_index_of(s, '\n');
        if k < 0 || k >= s.len() {
            seq![s]
        } else {
            seq![s.take(k)] + split_lines(s.skip(k + 1))
        }
    }
}

/// A line that survives trimming.
pub open spec fn non_blank(l: Seq<char>) -> bool {
    trim_spec(l).len() > 0
}

/// The positions of the non-blank lines, in order.
pub open spec fn non_blank_indices(lines: Seq<Seq<char>>) -> Seq<int>
    decreases lines.len(),
{
    if lines.len() == 0 {
        Seq::empty()
    } else {
        let rest = non_blank_indices(lines.drop_first()).map_values(|x: int| x + 1);
        if non_blank(lines[0]) {
            seq![0] + rest
        } else {
            rest
        }
    }
}

/// Every recorded index points at a line of the sequence.
proof fn lemma_nbi_bounds(lines: Seq<Seq<char>>)
    ensures
        forall|j: int|
            0 <= j < non_blank_indices(lines).len() ==> 0 <= #[trigger] non_blank_indices(
                lines,
            )[j] < lines.len(),
    decreases lines.len(),
{
    if lines.len() > 0 {
        lemma_nbi_bounds(lines.drop_first());
        let rest0 = non_blank_indices(lines.drop_first());
        let rest = rest0.map_values(|x: int| x + 1);
        assert(forall|j: int| 0 <= j < rest.len() ==> rest[j] == rest0[j] + 1);
        let nbi = non_blank_indices(lines);
        assert forall|j: int| 0 <= j < nbi.len() implies 0 <= #[trigger] nbi[j] < lines.len() by {
            if non_blank(lines[0]) {
                if j > 0 {
                    assert(nbi[j] == rest[j - 1]);
                }
            } else {
                assert(nbi[j] == rest[j]);
            }
        }
    }
}

/// Appending a line appends its index exactly when it is non-blank.
proof fn lemma_nbi_push(lines: Seq<Seq<char>>, l: Seq<char>)
    ensures
        non_blank(l) ==> non_blank_indices(lines.push(l)) == non_blank_indices(lines) + seq![
            lines.len() as int,
        ],
        !non_blank(l) ==> non_blank_indices(lines.push(l)) == non_blank_indices(lines),
    decreases lines.len(),
{
    let lp = lines.push(l);
    if lines.len() == 0 {
        assert(lp.drop_first() =~= Seq::<Seq<char>>::empty());
        assert(lp[0] == l);
        assert(non_blank_indices(Seq::<Seq<char>>::empty()) == Seq::<int>::empty());
        assert(non_blank_indices(lp.drop_first()).map_values(|x: int| x + 1)
            =~= Seq::<int>::empty());
        if non_blank(l) {
            assert(non_blank_indices(lp) =~= seq![0int]);
            assert(non_blank_indices(lines) + seq![0int] =~= seq![0int]);
        } else {
            assert(non_blank_indices(lp) =~= Seq::<int>::empty());
        }
    } else {
        assert(lp[0] == lines[0]);
        assert(lp.drop_first() =~= lines.drop_first().push(l));
        lemma_nbi_push(lines.drop_first(), l);
        let r0 = non_blank_indices(lines.drop_first());
        let r1 = non_blank_indices(lines.drop_first().push(l));
        if non_blank(l) {
            assert(r1 == r0 + seq![lines.drop_first().len() as int]);
            assert(r1.map_values(|x: int| x + 1) =~= r0.map_values(|x: int| x + 1) + seq![
                lines.len() as int,
            ]);
            if non_blank(lines[0]) {
                assert(non_blank_indices(lp) =~= seq![0int] + r0.map_values(|x: int| x + 1)
                    + seq![lines.len() as int]);
                assert(non_blank_indices(lines) + seq![lines.len() as int] =~= seq![0int]
                    + r0.map_values(|x: int| x + 1) + seq![lines.len() as int]);
            }
        } else {
            assert(r1 == r0);
            assert(r1.map_values(|x: int| x + 1) =~= r0.map_values(|x: int| x + 1));
        }
    }
}

/// Parse every line of the input, skipping blank lines, one result per
/// non-blank line in order, each judged against its own 1-indexed line
/// number so one bad line never hides the others.
pub fn parse_input(input: &str) -> (results: Vec<Result<Transaction, CashRegisterError>>)
    ensures
        ({
            let lines = split_lines(input@);
            let idxs = non_blank_indices(lines);
            &&& results@.len() == idxs.len()
            &&& forall|j: int|
                0 <= j < idxs.len() ==> line_result_matches(
                    #[trigger] results@[j],
                    lines[idxs[j]],
                    idxs[j] + 1,
                )
            &&& forall|j: int|
                0 <= j < idxs.len() ==> ((#[trigger] results@[j]) matches Ok(tx)
                    ==> tx.well_formed())
        }),
{
    let n = input.unicode_len();
    let mut results: Vec<Result<Transaction, CashRegisterError>> = Vec::new();
    let mut pos: usize = 0;
    let mut line_idx: usize = 0;
    let ghost mut processed: Seq<Seq<char>> = Seq::empty();
    proof {
        assert(input@.skip(0) =~= input@);
        assert(Seq::<Seq<char>>::empty() + split_lines(input@) =~= split_lines(input@));
        assert(non_blank_indices(processed) == Seq::<int>::empty());
    }
    while pos < n
        invariant
            n == input@.len(),
            pos <= n,
            line_idx as int == processed.len(),
            processed.len() <= pos,
            split_lines(input@) == processed + split_lines(input@.skip(pos as int)),
            results@.len() == non_blank_indices(processed).len(),
            forall|j: int|
                0 <= j < results@.len() ==> line_result_matches(
                    #[trigger] results@[j],
                    processed[non_blank_indices(processed)[j]],
                    non_blank_indices(processed)[j] + 1,
                ),
            forall|j: int|
                0 <= j < results@.len() ==> ((#[trigger] results@[j]) matches Ok(tx)
                    ==> tx.well_formed()),
        decreases n - pos,
    {
        let k = find_char(input, pos, n, '\n');
        let segment = input.substring_char(pos, k);
        let ghost suffix = input@.skip(pos as int);
        let ghost old_processed = processed;
        proof {
            lemma_nbi_bounds(old_processed);
            assert(suffix.len() > 0);
            assert(forall|j: int| 0 <= j < suffix.len() ==> suffix[j] == input@[j + pos as int]);
            assert(forall|j: int| 0 <= j < k - pos ==> suffix[j] != '\n');
            assert(k < n ==> suffix[k - pos as int] == '\n');
            lemma_first_index(suffix, '\n', k - pos as int);
            assert(segment@ =~= suffix.take(k - pos as int));
            if k == n {
                assert(first_index_of(suffix, '\n') == suffix.len());
                assert(split_lines(suffix) == seq![suffix]);
                assert(segment@ =~= suffix);
                assert(input@.skip(n as int) =~= Seq::<char>::empty());
                assert(split_lines(input@.skip(n as int)) == Seq::<Seq<char>>::empty());
                assert(old_processed + split_lines(suffix) =~= old_processed.push(suffix)
                    + Seq::<Seq<char>>::empty());
                assert(old_processed.push(suffix) + Seq::<Seq<char>>::empty()
                    =~= old_processed.push(suffix));
                assert(split_lines(input@) == old_processed.push(segment@) + split_lines(
                    input@.skip(n as int),
                ));
            } else {
                assert(split_lines(suffix) == seq![suffix.take(k - pos as int)] + split_lines(
                    suffix.skip(k - pos as int + 1),
                ));
                assert(suffix.skip(k - pos as int + 1) =~= input@.skip(k + 1));
                assert(old_processed + (seq![segment@] + split_lines(input@.skip(k + 1)))
                    =~= old_processed.push(segment@) + split_lines(input@.skip(k + 1)));
                assert(split_lines(input@) == old_processed.push(segment@) + split_lines(
                    input@.skip(k + 1),
                ));
            }
            processed = old_processed.push(segment@);
            lemma_nbi_push(old_processed, segment@);
        }
        let (ts, te) = trim_bounds(segment);
        if ts < te {
            proof {
                assert(non_blank(segment@));
                assert(non_blank_indices(processed) == non_blank_indices(old_processed) + seq![
                    old_processed.len() as int,
                ]);
            }
            let line_number = line_idx + 1;
            let r = parse_line(segment, line_number);
            results.push(r);
            proof {
                let nbi_new = non_blank_indices(processed);
                let nbi_old = non_blank_indices(old_processed);
                assert(forall|j: int| 0 <= j < nbi_old.len() ==> nbi_new[j] == nbi_old[j]);
                assert(nbi_new[nbi_old.len() as int] == old_processed.len() as int);
                assert(forall|j: int|
                    0 <= j < old_processed.len() ==> processed[j] == old_processed[j]);
                assert(processed[old_processed.len() as int] == segment@);
            }
        } else {
            proof {
                assert(trim_spec(segment@).len() == 0);
                assert(!non_blank(segment@));
                assert(non_blank_indices(processed) == non_blank_indices(old_processed));
                assert(forall|j: int|
                    0 <= j < old_processed.len() ==> processed[j] == old_processed[j]);
            }
        }
        line_idx = line_idx + 1;
        if k == n {
            pos = n;
        } else {
            pos = k + 1;
        }
    }
    proof {
        assert(input@.skip(n as int) =~= Seq::<char>::empty());
        assert(split_lines(input@.skip(pos as int)) == Seq::<Seq<char>>::empty());
        assert(processed + Seq::<Seq<char>>::empty() =~= processed);
        assert(split_lines(input@) == processed);
    }
    results
}

} // verus!
