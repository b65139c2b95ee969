//! Money kept exactly as integer cents.  A price written "9.99" is 999 cents;
//! a line total is quantity times unit price; an invoice total is the sum of
//! its line totals.  Because cents are integers, the two-decimal rounding that
//! the display format asks for is exact.
use vstd::prelude::*;

use crate::digits::{digit_str, spec_decimal, spec_digit_char, u64_to_string};

verus! {

/// Whether `c` is a decimal digit character.
pub open spec fn spec_is_digit(c: char) -> bool {
    48 <= c as u32 <= 57
}

/// The numeric value of a digit character.
pub open spec fn spec_digit_val(c: char) -> int {
    c as u32 - 48
}

/// Whether every character of `s` is a decimal digit.
pub open spec fn spec_all_digits(s: Seq<char>) -> bool {
    forall|i: int| 0 <= i < s.len() ==> spec_is_digit(#[trigger] s[i])
}

/// The number that a digit string denotes (0 for the empty string).
pub open spec fn spec_digits_val(s: Seq<char>) -> int
    decreases s.len(),
{
    if s.len() == 0 {
        0
    } else {
        spec_digits_val(s.drop_last()) * 10 + spec_digit_val(s.last())
    }
}

/// Index of the first occurrence of `c` in `s`, or -1.
pub open spec fn spec_find_char(s: Seq<char>, c: char) -> int
    decreases s.len(),
{
    if s.len() == 0 {
        -1
    } else if s[0] == c {
        0
    } else {
        let r = spec_find_char(s.skip(1), c);
        if r == -1 {
            -1
        } else {
            1 + r
        }
    }
}

/// The cents denoted by a price text: one or more digits, optionally followed
/// by a point and one or two fraction digits.  `None` when the text is not of
/// that shape.
pub open spec fn spec_parse_price(s: Seq<char>) -> Option<int> {
    let dot = spec_find_char(s, '.');
    if dot == -1 {
        if s.len() >= 1 && spec_all_digits(s) {
            Some(spec_digits_val(s) * 100)
        } else {
            None
        }
    } else {
        let whole = s.take(dot);
        let frac = s.skip(dot + 1);
        if whole.len() >= 1 && spec_all_digits(whole) && 1 <= frac.len() <= 2
            && spec_all_digits(frac) {
            if frac.len() == 1 {
                Some(spec_digits_val(whole) * 100 + spec_digits_val(frac) * 10)
            } else {
                Some(spec_digits_val(whole) * 100 + spec_digits_val(frac))
            }
        } else {
            None
        }
    }
}

/// The number that a quantity text denotes: one or more digits, nothing else.
pub open spec fn spec_parse_quantity(s: Seq<char>) -> Option<int> {
    if s.len() >= 1 && spec_all_digits(s) {
        Some(spec_digits_val(s))
    } else {
        None
    }
}

/// A digit string denotes a non-negative number.
pub proof fn lemma_digits_val_nonneg(s: Seq<char>)
    requires
        spec_all_digits(s),
    ensures
        spec_digits_val(s) >= 0,
    decreases s.len(),
{
    if s.len() > 0 {
        assert(spec_all_digits(s.drop_last())) by {
            assert(forall|i: int|
                0 <= i < s.len() - 1 ==> spec_is_digit(#[trigger] s.drop_last()[i]) == spec_is_digit(
                    s[i],
                ));
        }
        lemma_digits_val_nonneg(s.drop_last());
    }
}

/// Extending a digit string to the right can only keep or grow its value.
pub proof fn lemma_digits_val_prefix(s: Seq<char>, i: int)
    requires
        spec_all_digits(s),
        0 <= i <= s.len(),
    ensures
        spec_digits_val(s) >= spec_digits_val(s.take(i)),
    decreases s.len() - i,
{
    if i < s.len() {
        lemma_digits_val_prefix(s, i + 1);
        let t = s.take(i + 1);
        assert(t.drop_last() =~= s.take(i));
        assert(spec_digits_val(t) == spec_digits_val(s.take(i)) * 10 + spec_digit_val(t.last()));
        assert(forall|k: int|
            0 <= k < i ==> spec_is_digit(#[trigger] s.take(i)[k]) == spec_is_digit(s[k]));
        lemma_digits_val_nonneg(s.take(i));
    } else {
        assert(s.take(i) =~= s);
    }
}

/// Exact line total: quantity times unit price, in cents.
pub open spec fn spec_line_total(quantity: int, price_cents: int) -> int {
    quantity * price_cents
}

/// Exact invoice total: the sum of the line totals of `items`, where an item
/// is a (quantity, price in cents) pair.
pub open spec fn spec_total_cents(items: Seq<(u32, u64)>) -> int
    decreases items.len(),
{
    if items.len() == 0 {
        0
    } else {
        spec_total_cents(items.drop_last()) + spec_line_total(
            items.last().0 as int,
            items.last().1 as int,
        )
    }
}

/// The display notation of an amount of cents: the whole part in decimal,
/// a point, then exactly two fraction digits.
pub open spec fn spec_money(cents: int) -> Seq<char> {
    spec_decimal(cents / 100) + seq!['.'] + seq![
        spec_digit_char((cents % 100) / 10),
        spec_digit_char(cents % 10),
    ]
}

/// Why a numeric text was rejected.
#[derive(Clone, Copy, Debug, PartialEq, Eq, Structural)]
pub enum NumberError {
    /// Not a run of digits (with, for a price, an optional two-decimal point).
    Malformed,
    /// Well-formed, but the value does not fit the machine word.
    TooLarge,
}

/// Renders cents in the two-decimal money notation.
pub fn format_cents(cents: u64) -> (r: String)
    ensures
        r@ == spec_money(cents as int),
{
    let mut s = u64_to_string(cents / 100);
    proof {
        reveal_strlit(".");
    }
    s.append(".");
    s.append(digit_str((cents % 100) / 10));
    s.append(digit_str(cents % 10));
    proof {
        assert((cents as int) % 100 / 10 == ((cents / 100) as int) * 0 + (cents % 100 / 10) as int);
        assert(s@ =~= spec_money(cents as int));
    }
    s
}

/// Reads the digit run `s[from..to]`, rejecting a non-digit or a value beyond
/// the machine word.
pub(crate) fn parse_digit_run(s: &str, from: usize, to: usize) -> (r: Result<u64, NumberError>)
    requires
        from <= to <= s@.len(),
    ensures
        ({
            let part = s@.subrange(from as int, to as int);
            match r {
                Ok(v) => spec_all_digits(part) && spec_digits_val(part) == v as int,
                Err(NumberError::Malformed) => !spec_all_digits(part),
                Err(NumberError::TooLarge) => spec_all_digits(part) && spec_digits_val(part)
                    > u64::MAX,
            }
        }),
{
    let ghost part = s@.subrange(from as int, to as int);
    let mut i: usize = from;
    while i < to
        invariant
            from <= i <= to <= s@.len(),
            part == s@.subrange(from as int, to as int),
            forall|k: int| 0 <= k < i - from ==> spec_is_digit(#[trigger] part[k]),
        decreases to - i,
    {
        let c = s.get_char(i);
        let u = c as u32;
        if u < 48 || u > 57 {
            assert(!spec_is_digit(part[i - from]));
            return Err(NumberError::Malformed);
        }
        i = i + 1;
    }
    assert(spec_all_digits(part));
    let mut acc: u64 = 0;
    i = from;
    while i < to
        invariant
            from <= i <= to <= s@.len(),
            part == s@.subrange(from as int, to as int),
            spec_all_digits(part),
            acc as int == spec_digits_val(part.take(i - from)),
        decreases to - i,
    {
        let c = s.get_char(i);
        proof {
            assert(spec_is_digit(part[i - from]));
            assert(c == part[i - from]);
        }
        let d = (c as u32 - 48) as u64;
        proof {
            let j = i - from;
            assert(part.take(j + 1).drop_last() =~= part.take(j));
            assert(part.take(j + 1).last() == part[j]);
            assert(spec_digits_val(part.take(j + 1)) == acc as int * 10 + d as int);
        }
        if acc > (u64::MAX - d) / 10 {
            proof {
                let j = i - from;
                assert(acc as int * 10 + d as int > u64::MAX) by {
                    assert(acc as int >= (u64::MAX - d as int) / 10 + 1);
                    assert(acc as int * 10 >= ((u64::MAX - d as int) / 10 + 1) * 10) by (nonlinear_arith)
                        requires acc as int >= (u64::MAX - d as int) / 10 + 1;
                    assert(((u64::MAX - d as int) / 10) * 10 > u64::MAX - d as int - 10) by (nonlinear_arith);
                }
                lemma_digits_val_prefix(part, j + 1);
            }
            return Err(NumberError::TooLarge);
        }
        acc = acc * 10 + d;
        i = i + 1;
    }
    proof {
        assert(part.take(to - from) =~= part);
    }
    Ok(acc)
}

/// Reads a price text as cents: one or more digits, optionally a point and
/// one or two fraction digits.  `Err(Malformed)` exactly when the text is not
/// of that shape; `Err(TooLarge)` exactly when the amount does not fit.
pub fn parse_price(s: &str) -> (r: Result<u64, NumberError>)
    ensures
        ({
            let p = spec_parse_price(s@);
            match r {
                Ok(v) => p == Some(v as int),
                Err(NumberError::Malformed) => p is None,
                Err(NumberError::TooLarge) => p is Some && p.unwrap() > u64::MAX,
            }
        }),
{
    let n = s.unicode_len();
    let found = find_dot(s);
    let (dot, has_dot) = match found {
        Some(i) => (i, true),
        None => (0usize, false),
    };
    proof {
        if has_dot {
            lemma_find_char_at(s@, '.', dot as int);
        } else {
            lemma_find_char_none(s@, '.');
        }
    }
    if !has_dot {
        if n == 0 {
            return Err(NumberError::Malformed);
        }
        let w = match parse_digit_run(s, 0, n) {
            Ok(w) => w,
            Err(e) => {
                proof {
                    assert(s@.subrange(0, n as int) =~= s@);
                    if e is TooLarge {
                        lemma_whole_overflow(spec_digits_val(s@), 0);
                    }
                }
                return Err(e);
            },
        };
        proof {
            assert(s@.subrange(0, n as int) =~= s@);
        }
        return scale_whole(w, 0);
    }
    // A point: digits before it, one or two digits after it.
    if dot == 0 || n - dot - 1 < 1 || n - dot - 1 > 2 {
        return Err(NumberError::Malformed);
    }
    proof {
        assert(s@.subrange(dot as int + 1, n as int) =~= s@.skip(dot as int + 1));
        assert(s@.subrange(0, dot as int) =~= s@.take(dot as int));
    }
    let f_raw = match parse_digit_run(s, dot + 1, n) {
        Ok(f) => f,
        Err(NumberError::Malformed) => {
            return Err(NumberError::Malformed);
        },
        Err(NumberError::TooLarge) => {
            proof {
                lemma_two_digits_small(s@.skip(dot as int + 1));
            }
            assert(false);
            return Err(NumberError::TooLarge);
        },
    };
    proof {
        lemma_two_digits_small(s@.skip(dot as int + 1));
    }
    let w = match parse_digit_run(s, 0, dot) {
        Ok(w) => w,
        Err(e) => {
            proof {
                if e is TooLarge {
                    lemma_frac_val_bound(s@, dot as int);
                    lemma_whole_overflow(
                        spec_digits_val(s@.take(dot as int)),
                        spec_frac_val(s@, dot as int),
                    );
                }
            }
            return Err(e);
        },
    };
    let f = if n - dot - 1 == 1 {
        f_raw * 10
    } else {
        f_raw
    };
    scale_whole(w, f)
}

/// The fraction part of a price text in cents, as the specification sees it.
pub open spec fn spec_frac_val(s: Seq<char>, dot: int) -> int {
    let frac = s.skip(dot + 1);
    if frac.len() == 1 {
        spec_digits_val(frac) * 10
    } else {
        spec_digits_val(frac)
    }
}

/// `whole * 100 + frac` as cents, or `TooLarge` exactly when it does not fit.
pub(crate) fn scale_whole(w: u64, f: u64) -> (r: Result<u64, NumberError>)
    requires
        f <= 99,
    ensures
        ({
            let v = w as int * 100 + f as int;
            match r {
                Ok(c) => c as int == v,
                Err(NumberError::Malformed) => false,
                Err(NumberError::TooLarge) => v > u64::MAX,
            }
        }),
{
    if w > u64::MAX / 100 {
        proof {
            assert(w as int * 100 > u64::MAX) by (nonlinear_arith)
                requires w as int >= u64::MAX as int / 100 + 1;
        }
        return Err(NumberError::TooLarge);
    }
    proof {
        assert(w as int * 100 <= (u64::MAX as int / 100) * 100) by (nonlinear_arith)
            requires w as int <= u64::MAX as int / 100;
    }
    let base = w * 100;
    if f > u64::MAX - base {
        return Err(NumberError::TooLarge);
    }
    Ok(base + f)
}

/// A whole part too large for the machine word makes the price too large,
/// whatever the fraction adds.
pub(crate) proof fn lemma_whole_overflow(w: int, f: int)
    requires
        w > u64::MAX,
        f >= 0,
    ensures
        w * 100 + f > u64::MAX,
{
    assert(w * 100 >= w) by (nonlinear_arith)
        requires w >= 0;
}

/// One or two digits denote at most 99.
pub(crate) proof fn lemma_two_digits_small(s: Seq<char>)
    requires
        1 <= s.len() <= 2,
        spec_all_digits(s),
    ensures
        0 <= spec_digits_val(s) <= 99,
        s.len() == 1 ==> spec_digits_val(s) <= 9,
{
    assert(spec_is_digit(s[s.len() - 1]));
    assert(s.last() == s[s.len() - 1]);
    if s.len() == 1 {
        assert(spec_digits_val(s.drop_last()) == 0);
        assert(spec_digits_val(s) == spec_digit_val(s.last()));
    } else {
        let d = s.drop_last();
        assert(spec_is_digit(s[0]));
        assert(d.last() == s[0]);
        assert(spec_digits_val(d.drop_last()) == 0);
        assert(spec_digits_val(d) == spec_digit_val(s[0]));
        assert(spec_digits_val(s) == spec_digits_val(d) * 10 + spec_digit_val(s.last()));
    }
}

/// The fraction of a well-formed price text lies under 100 cents.
proof fn lemma_frac_val_bound(s: Seq<char>, dot: int)
    requires
        0 <= dot < s.len(),
        1 <= s.len() - dot - 1 <= 2,
        spec_all_digits(s.skip(dot + 1)),
    ensures
        0 <= spec_frac_val(s, dot) <= 990,
{
    lemma_two_digits_small(s.skip(dot + 1));
}

/// Finds the first point character, if any.
fn find_dot(s: &str) -> (r: Option<usize>)
    ensures
        match r {
            Some(i) => i < s@.len() && s@[i as int] == '.' && forall|k: int|
                0 <= k < i ==> s@[k] != '.',
            None => forall|k: int| 0 <= k < s@.len() ==> s@[k] != '.',
        },
{
    let n = s.unicode_len();
    let mut i: usize = 0;
    while i < n
        invariant
            0 <= i <= n == s@.len(),
            forall|k: int| 0 <= k < i ==> s@[k] != '.',
        decreases n - i,
    {
        if s.get_char(i) == '.' {
            return Some(i);
        }
        i = i + 1;
    }
    None
}

/// Where the first occurrence of `c` in `s` stands.
pub proof fn lemma_find_char_at(s: Seq<char>, c: char, m: int)
    requires
        0 <= m < s.len(),
        s[m] == c,
        forall|k: int| 0 <= k < m ==> s[k] != c,
    ensures
        spec_find_char(s, c) == m,
    decreases m,
{
    if m > 0 {
        lemma_find_char_at(s.skip(1), c, m - 1);
    }
}

/// Without an occurrence of `c`, the search comes back empty.
pub proof fn lemma_find_char_none(s: Seq<char>, c: char)
    requires
        forall|k: int| 0 <= k < s.len() ==> s[k] != c,
    ensures
        spec_find_char(s, c) == -1,
    decreases s.len(),
{
    if s.len() > 0 {
        lemma_find_char_none(s.skip(1), c);
    }
}

/// Reads a quantity text: one or more digits denoting a number that fits a
/// 32-bit word.
pub fn parse_quantity(s: &str) -> (r: Result<u32, NumberError>)
    ensures
        ({
            let p = spec_parse_quantity(s@);
            match r {
                Ok(v) => p == Some(v as int),
                Err(NumberError::Malformed) => p is None,
                Err(NumberError::TooLarge) => p is Some && p.unwrap() > u32::MAX,
            }
        }),
{
    let n = s.unicode_len();
    if n == 0 {
        return Err(NumberError::Malformed);
    }
    let v = match parse_digit_run(s, 0, n) {
        Ok(v) => v,
        Err(e) => {
            proof {
                assert(s@.subrange(0, n as int) =~= s@);
            }
            return Err(e);
        },
    };
    proof {
        assert(s@.subrange(0, n as int) =~= s@);
    }
    if v > u32::MAX as u64 {
        return Err(NumberError::TooLarge);
    }
    Ok(v as u32)
}

} // verus!
