//! Invoice line items and the structured item record that the command line
//! accepts: a braced record with the keys `description` (quoted text),
//! `quantity` (digits) and `price` (digits with an optional two-decimal
//! point), in any order, each exactly once.
use vstd::prelude::*;

use crate::money::{
    parse_digit_run, scale_whole, spec_all_digits, spec_digits_val, spec_is_digit, NumberError,
};

verus! {

/// One invoice line: a description, a count and a unit price in cents.
#[derive(Debug, PartialEq, Eq)]
pub struct LineItem {
    pub description: String,
    pub quantity: u32,
    pub price_cents: u64,
}

/// Exact invoice total: the sum of quantity times unit price over the lines.
pub open spec fn spec_invoice_total(items: Seq<LineItem>) -> int
    decreases items.len(),
{
    if items.len() == 0 {
        0
    } else {
        spec_invoice_total(items.drop_last()) + items.last().quantity as int
            * items.last().price_cents as int
    }
}

/// A line total is never negative.
pub proof fn lemma_invoice_total_nonneg(items: Seq<LineItem>)
    ensures
        spec_invoice_total(items) >= 0,
    decreases items.len(),
{
    if items.len() > 0 {
        lemma_invoice_total_nonneg(items.drop_last());
        assert(items.last().quantity as int * items.last().price_cents as int >= 0)
            by (nonlinear_arith);
    }
}

/// Lines only add to the total.
pub proof fn lemma_invoice_total_prefix(items: Seq<LineItem>, i: int)
    requires
        0 <= i <= items.len(),
    ensures
        spec_invoice_total(items) >= spec_invoice_total(items.take(i)),
    decreases items.len() - i,
{
    if i < items.len() {
        lemma_invoice_total_prefix(items, i + 1);
        let t = items.take(i + 1);
        assert(t.drop_last() =~= items.take(i));
        assert(t.last() == items[i]);
        assert(items[i].quantity as int * items[i].price_cents as int >= 0) by (nonlinear_arith);
    } else {
        assert(items.take(i) =~= items);
    }
}

/// One line's total: quantity times unit price, or `None` exactly when it
/// does not fit the machine word.
pub fn line_total(quantity: u32, price_cents: u64) -> (r: Option<u64>)
    ensures
        match r {
            Some(v) => v as int == quantity as int * price_cents as int,
            None => quantity as int * price_cents as int > u64::MAX,
        },
{
    let q = quantity as u64;
    if price_cents == 0 {
        proof {
            assert(q as int * price_cents as int == 0) by (nonlinear_arith)
                requires price_cents as int == 0;
        }
        return Some(0);
    }
    if q > u64::MAX / price_cents {
        proof {
            overflow_mul_bound(q as int, price_cents as int, u64::MAX as int);
        }
        return None;
    }
    proof {
        fits_mul_bound(q as int, price_cents as int, u64::MAX as int);
    }
    Some(q * price_cents)
}

/// The invoice total of `items`, or `None` exactly when it does not fit the
/// machine word.
pub fn total_cents(items: &Vec<LineItem>) -> (r: Option<u64>)
    ensures
        match r {
            Some(v) => v as int == spec_invoice_total(items@),
            None => spec_invoice_total(items@) > u64::MAX,
        },
{
    let mut acc: u64 = 0;
    let mut i: usize = 0;
    while i < items.len()
        invariant
            0 <= i <= items@.len(),
            acc as int == spec_invoice_total(items@.take(i as int)),
        decreases items@.len() - i,
    {
        let q = items[i].quantity as u64;
        let p = items[i].price_cents;
        proof {
            let t = items@.take(i + 1);
            assert(t.drop_last() =~= items@.take(i as int));
            assert(t.last() == items@[i as int]);
        }
        let line: u64 = if p == 0 {
            proof {
                assert(q as int * p as int == 0) by (nonlinear_arith)
                    requires p as int == 0;
            }
            0
        } else {
            if q > u64::MAX / p {
                proof {
                    overflow_mul_bound(q as int, p as int, u64::MAX as int);
                    lemma_invoice_total_nonneg(items@.take(i as int));
                    lemma_invoice_total_prefix(items@, i + 1);
                }
                return None;
            }
            proof {
                fits_mul_bound(q as int, p as int, u64::MAX as int);
            }
            q * p
        };
        if line > u64::MAX - acc {
            proof {
                lemma_invoice_total_prefix(items@, i + 1);
            }
            return None;
        }
        acc = acc + line;
        i = i + 1;
    }
    proof {
        assert(items@.take(i as int) =~= items@);
    }
    Some(acc)
}

/// The first index at or after `i` that does not hold a space.
pub open spec fn spec_skip_spaces(s: Seq<char>, i: int) -> int
    decreases s.len() - i,
{
    if i < s.len() && s[i] == ' ' {
        spec_skip_spaces(s, i + 1)
    } else {
        i
    }
}

/// The index of the closing quote at or after `i`; text with an escape or
/// without a closing quote has none.
pub open spec fn spec_string_end(s: Seq<char>, i: int) -> Option<int>
    decreases s.len() - i,
{
    if i >= s.len() {
        None
    } else if s[i] == '"' {
        Some(i)
    } else if s[i] == '\\' {
        None
    } else {
        spec_string_end(s, i + 1)
    }
}

/// The first index at or after `i` that does not hold a digit.
pub open spec fn spec_digits_end(s: Seq<char>, i: int) -> int
    decreases s.len() - i,
{
    if i < s.len() && spec_is_digit(s[i]) {
        spec_digits_end(s, i + 1)
    } else {
        i
    }
}

pub proof fn lemma_digits_end(s: Seq<char>, i: int)
    requires
        0 <= i <= s.len(),
    ensures
        i <= spec_digits_end(s, i) <= s.len(),
        spec_all_digits(s.subrange(i, spec_digits_end(s, i))),
    decreases s.len() - i,
{
    let e = spec_digits_end(s, i);
    if i < s.len() && spec_is_digit(s[i]) {
        lemma_digits_end(s, i + 1);
        assert(forall|k: int|
            0 <= k < e - i ==> #[trigger] s.subrange(i, e)[k] == if k == 0 {
                s[i]
            } else {
                s.subrange(i + 1, e)[k - 1]
            });
    }
}

/// Skips spaces from character index `i`.
fn skip_spaces(s: &str, i: usize) -> (r: usize)
    requires
        i <= s@.len(),
    ensures
        r == spec_skip_spaces(s@, i as int),
        i <= r <= s@.len(),
{
    let n = s.unicode_len();
    let mut j = i;
    while j < n
        invariant
            i <= j <= n == s@.len(),
            spec_skip_spaces(s@, i as int) == spec_skip_spaces(s@, j as int),
        decreases n - j,
    {
        if s.get_char(j) != ' ' {
            return j;
        }
        j = j + 1;
    }
    j
}

/// Finds the closing quote from character index `i`.
fn string_end(s: &str, i: usize) -> (r: Option<usize>)
    requires
        i <= s@.len(),
    ensures
        match r {
            Some(j) => spec_string_end(s@, i as int) == Some(j as int) && i <= j < s@.len(),
            None => spec_string_end(s@, i as int) is None,
        },
{
    let n = s.unicode_len();
    let mut j = i;
    while j < n
        invariant
            i <= j <= n == s@.len(),
            spec_string_end(s@, i as int) == spec_string_end(s@, j as int),
        decreases n - j,
    {
        let c = s.get_char(j);
        if c == '"' {
            return Some(j);
        }
        if c == '\\' {
            return None;
        }
        j = j + 1;
    }
    None
}

/// Skips digits from character index `i`.
fn digits_end(s: &str, i: usize) -> (r: usize)
    requires
        i <= s@.len(),
    ensures
        r == spec_digits_end(s@, i as int),
        i <= r <= s@.len(),
{
    let n = s.unicode_len();
    let mut j = i;
    while j < n
        invariant
            i <= j <= n == s@.len(),
            spec_digits_end(s@, i as int) == spec_digits_end(s@, j as int),
        decreases n - j,
    {
        let u = s.get_char(j) as u32;
        if u < 48 || u > 57 {
            return j;
        }
        j = j + 1;
    }
    j
}

/// Whether two texts hold the same characters.
pub fn str_eq(a: &str, b: &str) -> (r: bool)
    ensures
        r == (a@ == b@),
{
    let n = a.unicode_len();
    if n != b.unicode_len() {
        return false;
    }
    let mut i: usize = 0;
    while i < n
        invariant
            0 <= i <= n == a@.len(),
            b@.len() == n,
            forall|k: int| 0 <= k < i ==> a@[k] == b@[k],
        decreases n - i,
    {
        if a.get_char(i) != b.get_char(i) {
            return false;
        }
        i = i + 1;
    }
    proof {
        assert(a@ =~= b@);
    }
    true
}

/// One parsed key/value pair of the record, as the specification sees it:
/// the key text, the quoted text for a description, the number for a
/// quantity (a count) or a price (cents), and the index after the value.
pub struct PairVal {
    pub key: Seq<char>,
    pub text: Seq<char>,
    pub num: int,
    pub next: int,
}

/// A price value at index `v`: digits, optionally a point and one or two
/// fraction digits; its cents and the index after it.
pub open spec fn spec_price_at(s: Seq<char>, v: int) -> Option<(int, int)> {
    let e = spec_digits_end(s, v);
    if e == v {
        None
    } else {
        let whole = spec_digits_val(s.subrange(v, e));
        if e < s.len() && s[e] == '.' {
            let e2 = spec_digits_end(s, e + 1);
            if 1 <= e2 - (e + 1) <= 2 {
                let f = spec_digits_val(s.subrange(e + 1, e2));
                if e2 - (e + 1) == 1 {
                    Some((whole * 100 + f * 10, e2))
                } else {
                    Some((whole * 100 + f, e2))
                }
            } else {
                None
            }
        } else {
            Some((whole * 100, e))
        }
    }
}

/// One key/value pair at index `i`: a quoted key that must be one of the
/// three field names, a colon, and a value of the key's shape.
pub open spec fn spec_pair(s: Seq<char>, i: int) -> Option<PairVal> {
    if 0 <= i && i < s.len() && s[i] == '"' {
        match spec_string_end(s, i + 1) {
            None => None,
            Some(j) => {
                let key = s.subrange(i + 1, j);
                let c = spec_skip_spaces(s, j + 1);
                if c < s.len() && s[c] == ':' {
                    let v = spec_skip_spaces(s, c + 1);
                    if key == "description"@ {
                        if v < s.len() && s[v] == '"' {
                            match spec_string_end(s, v + 1) {
                                None => None,
                                Some(e) => Some(
                                    PairVal {
                                        key,
                                        text: s.subrange(v + 1, e),
                                        num: 0,
                                        next: e + 1,
                                    },
                                ),
                            }
                        } else {
                            None
                        }
                    } else if key == "quantity"@ {
                        let e = spec_digits_end(s, v);
                        if e > v {
                            Some(
                                PairVal {
                                    key,
                                    text: Seq::empty(),
                                    num: spec_digits_val(s.subrange(v, e)),
                                    next: e,
                                },
                            )
                        } else {
                            None
                        }
                    } else if key == "price"@ {
                        match spec_price_at(s, v) {
                            None => None,
                            Some(cn) => Some(
                                PairVal { key, text: Seq::empty(), num: cn.0, next: cn.1 },
                            ),
                        }
                    } else {
                        None
                    }
                } else {
                    None
                }
            },
        }
    } else {
        None
    }
}

/// The meaning of a whole item record.
pub struct ItemVal {
    pub description: Seq<char>,
    pub quantity: int,
    pub price_cents: int,
}

/// Of three pairs with distinct keys, the one under `key`.
pub open spec fn spec_pick(p1: PairVal, p2: PairVal, p3: PairVal, key: Seq<char>) -> PairVal {
    if p1.key == key {
        p1
    } else if p2.key == key {
        p2
    } else {
        p3
    }
}

/// The meaning of an item record text: a braced record of the three pairs,
/// separated by commas, each key once, in any order, with spaces allowed
/// around the tokens and nothing after the closing brace.
pub open spec fn spec_item_record(s: Seq<char>) -> Option<ItemVal> {
    let i = spec_skip_spaces(s, 0);
    if i < s.len() && s[i] == '{' {
        match spec_pair(s, spec_skip_spaces(s, i + 1)) {
            None => None,
            Some(p1) => {
                let j = spec_skip_spaces(s, p1.next);
                if j < s.len() && s[j] == ',' {
                    match spec_pair(s, spec_skip_spaces(s, j + 1)) {
                        None => None,
                        Some(p2) => {
                            let k = spec_skip_spaces(s, p2.next);
                            if k < s.len() && s[k] == ',' {
                                match spec_pair(s, spec_skip_spaces(s, k + 1)) {
                                    None => None,
                                    Some(p3) => {
                                        let m = spec_skip_spaces(s, p3.next);
                                        if m < s.len() && s[m] == '}' && spec_skip_spaces(s, m + 1)
                                            == s.len() && p1.key != p2.key && p1.key != p3.key
                                            && p2.key != p3.key {
                                            Some(
                                                ItemVal {
                                                    description: spec_pick(
                                                        p1,
                                                        p2,
                                                        p3,
                                                        "description"@,
                                                    ).text,
                                                    quantity: spec_pick(p1, p2, p3, "quantity"@).num,
                                                    price_cents: spec_pick(p1, p2, p3, "price"@).num,
                                                },
                                            )
                                        } else {
                                            None
                                        }
                                    },
                                }
                            } else {
                                None
                            }
                        },
                    }
                } else {
                    None
                }
            },
        }
    } else {
        None
    }
}

/// Why an item record was rejected.
#[derive(Clone, Copy, Debug, PartialEq, Eq, Structural)]
pub enum ItemError {
    /// The text is not a well-formed item record.
    Malformed,
    /// The record is well formed but a number in it does not fit.
    TooLarge,
}

/// One parsed field: the value, or `None` inside when the number is well
/// formed but too large for its machine word.
enum FieldSlot {
    Desc(String),
    Qty(Option<u32>),
    Price(Option<u64>),
}

/// Reads one key/value pair at character index `i`.
fn parse_pair(s: &str, i: usize) -> (r: Result<(FieldSlot, usize), ()>)
    requires
        i <= s@.len(),
    ensures
        ({
            let p = spec_pair(s@, i as int);
            match r {
                Ok(fs) => p is Some && fs.1 == p.unwrap().next && fs.1 <= s@.len() && match fs.0 {
                    FieldSlot::Desc(t) => p.unwrap().key == "description"@ && t@ == p.unwrap().text,
                    FieldSlot::Qty(q) => p.unwrap().key == "quantity"@ && match q {
                        Some(q) => q as int == p.unwrap().num,
                        None => p.unwrap().num > u32::MAX,
                    },
                    FieldSlot::Price(c) => p.unwrap().key == "price"@ && match c {
                        Some(c) => c as int == p.unwrap().num,
                        None => p.unwrap().num > u64::MAX,
                    },
                },
                Err(_) => p is None,
            }
        }),
{
    let n = s.unicode_len();
    if i >= n || s.get_char(i) != '"' {
        return Err(());
    }
    let j = match string_end(s, i + 1) {
        Some(j) => j,
        None => {
            return Err(());
        },
    };
    let key = s.substring_char(i + 1, j);
    let c = skip_spaces(s, j + 1);
    if c >= n || s.get_char(c) != ':' {
        return Err(());
    }
    let v = skip_spaces(s, c + 1);
    if str_eq(key, "description") {
        if v >= n || s.get_char(v) != '"' {
            return Err(());
        }
        let e = match string_end(s, v + 1) {
            Some(e) => e,
            None => {
                return Err(());
            },
        };
        let text = s.substring_char(v + 1, e).to_owned();
        Ok((FieldSlot::Desc(text), e + 1))
    } else if str_eq(key, "quantity") {
        let e = digits_end(s, v);
        if e == v {
            return Err(());
        }
        proof {
            lemma_digits_end(s@, v as int);
        }
        match parse_digit_run(s, v, e) {
            Ok(q) => {
                if q > u32::MAX as u64 {
                    Ok((FieldSlot::Qty(None), e))
                } else {
                    Ok((FieldSlot::Qty(Some(q as u32)), e))
                }
            },
            Err(_) => Ok((FieldSlot::Qty(None), e)),
        }
    } else if str_eq(key, "price") {
        match price_at(s, v) {
            Ok((c, nx)) => Ok((FieldSlot::Price(Some(c)), nx)),
            Err(NumberError::Malformed) => Err(()),
            Err(NumberError::TooLarge) => {
                let nx = price_next(s, v);
                Ok((FieldSlot::Price(None), nx))
            },
        }
    } else {
        Err(())
    }
}

/// The index after a well-formed price value at `v`.
fn price_next(s: &str, v: usize) -> (r: usize)
    requires
        v <= s@.len(),
        spec_price_at(s@, v as int) is Some,
    ensures
        r as int == spec_price_at(s@, v as int).unwrap().1,
        r <= s@.len(),
{
    proof {
        lemma_digits_end(s@, v as int);
    }
    let e = digits_end(s, v);
    let n = s.unicode_len();
    if e < n && s.get_char(e) == '.' {
        proof {
            lemma_digits_end(s@, e as int + 1);
        }
        digits_end(s, e + 1)
    } else {
        e
    }
}

/// Reads a price value at character index `v`.
fn price_at(s: &str, v: usize) -> (r: Result<(u64, usize), NumberError>)
    requires
        v <= s@.len(),
    ensures
        ({
            let p = spec_price_at(s@, v as int);
            match r {
                Ok(cn) => p == Some((cn.0 as int, cn.1 as int)) && cn.1 <= s@.len(),
                Err(NumberError::Malformed) => p is None,
                Err(NumberError::TooLarge) => p is Some && p.unwrap().0 > u64::MAX,
            }
        }),
{
    let n = s.unicode_len();
    let e = digits_end(s, v);
    if e == v {
        return Err(NumberError::Malformed);
    }
    proof {
        lemma_digits_end(s@, v as int);
    }
    if e < n && s.get_char(e) == '.' {
        let e2 = digits_end(s, e + 1);
        proof {
            lemma_digits_end(s@, e as int + 1);
        }
        if e2 - (e + 1) < 1 || e2 - (e + 1) > 2 {
            return Err(NumberError::Malformed);
        }
        let f_raw = match parse_digit_run(s, e + 1, e2) {
            Ok(f) => f,
            Err(_) => {
                proof {
                    crate::money::lemma_two_digits_small(s@.subrange(e as int + 1, e2 as int));
                }
                assert(false);
                return Err(NumberError::Malformed);
            },
        };
        proof {
            crate::money::lemma_two_digits_small(s@.subrange(e as int + 1, e2 as int));
        }
        let w = match parse_digit_run(s, v, e) {
            Ok(w) => w,
            Err(_) => {
                proof {
                    let fv = if e2 - (e + 1) == 1 {
                        spec_digits_val(s@.subrange(e as int + 1, e2 as int)) * 10
                    } else {
                        spec_digits_val(s@.subrange(e as int + 1, e2 as int))
                    };
                    crate::money::lemma_whole_overflow(
                        spec_digits_val(s@.subrange(v as int, e as int)),
                        fv,
                    );
                }
                return Err(NumberError::TooLarge);
            },
        };
        let f = if e2 - (e + 1) == 1 {
            f_raw * 10
        } else {
            f_raw
        };
        match scale_whole(w, f) {
            Ok(c) => Ok((c, e2)),
            Err(_) => Err(NumberError::TooLarge),
        }
    } else {
        let w = match parse_digit_run(s, v, e) {
            Ok(w) => w,
            Err(_) => {
                proof {
                    crate::money::lemma_whole_overflow(
                        spec_digits_val(s@.subrange(v as int, e as int)),
                        0,
                    );
                }
                return Err(NumberError::TooLarge);
            },
        };
        match scale_whole(w, 0) {
            Ok(c) => Ok((c, e)),
            Err(_) => Err(NumberError::TooLarge),
        }
    }
}

/// Reads a whole item record.  `Err(Malformed)` exactly when the text is not
/// of the record shape; `Err(TooLarge)` exactly when it is, but a number in
/// it does not fit its machine word.
pub fn parse_item(s: &str) -> (r: Result<LineItem, ItemError>)
    ensures
        ({
            let p = spec_item_record(s@);
            match r {
                Ok(it) => p == Some(
                    ItemVal {
                        description: it.description@,
                        quantity: it.quantity as int,
                        price_cents: it.price_cents as int,
                    },
                ),
                Err(ItemError::Malformed) => p is None,
                Err(ItemError::TooLarge) => p is Some && (p.unwrap().quantity > u32::MAX
                    || p.unwrap().price_cents > u64::MAX),
            }
        }),
{
    let n = s.unicode_len();
    let i = skip_spaces(s, 0);
    if i >= n || s.get_char(i) != '{' {
        return Err(ItemError::Malformed);
    }
    let mut desc: Option<String> = None;
    let mut qty: Option<Option<u32>> = None;
    let mut price: Option<Option<u64>> = None;

    let (f1, nx1) = match parse_pair(s, skip_spaces(s, i + 1)) {
        Ok(p) => p,
        Err(_) => {
            return Err(ItemError::Malformed);
        },
    };
    match f1 {
        FieldSlot::Desc(t) => {
            desc = Some(t);
        },
        FieldSlot::Qty(q) => {
            qty = Some(q);
        },
        FieldSlot::Price(c) => {
            price = Some(c);
        },
    }
    let j = skip_spaces(s, nx1);
    if j >= n || s.get_char(j) != ',' {
        return Err(ItemError::Malformed);
    }
    let (f2, nx2) = match parse_pair(s, skip_spaces(s, j + 1)) {
        Ok(p) => p,
        Err(_) => {
            return Err(ItemError::Malformed);
        },
    };
    match f2 {
        FieldSlot::Desc(t) => {
            if desc.is_some() {
                return Err(ItemError::Malformed);
            }
            desc = Some(t);
        },
        FieldSlot::Qty(q) => {
            if qty.is_some() {
                return Err(ItemError::Malformed);
            }
            qty = Some(q);
        },
        FieldSlot::Price(c) => {
            if price.is_some() {
                return Err(ItemError::Malformed);
            }
            price = Some(c);
        },
    }
    let k = skip_spaces(s, nx2);
    if k >= n || s.get_char(k) != ',' {
        return Err(ItemError::Malformed);
    }
    let (f3, nx3) = match parse_pair(s, skip_spaces(s, k + 1)) {
        Ok(p) => p,
        Err(_) => {
            return Err(ItemError::Malformed);
        },
    };
    match f3 {
        FieldSlot::Desc(t) => {
            if desc.is_some() {
                return Err(ItemError::Malformed);
            }
            desc = Some(t);
        },
        FieldSlot::Qty(q) => {
            if qty.is_some() {
                return Err(ItemError::Malformed);
            }
            qty = Some(q);
        },
        FieldSlot::Price(c) => {
            if price.is_some() {
                return Err(ItemError::Malformed);
            }
            price = Some(c);
        },
    }
    let m = skip_spaces(s, nx3);
    if m >= n || s.get_char(m) != '}' {
        return Err(ItemError::Malformed);
    }
    if skip_spaces(s, m + 1) != n {
        return Err(ItemError::Malformed);
    }
    proof {
        reveal_strlit("description");
        reveal_strlit("quantity");
        reveal_strlit("price");
        assert("description"@.len() == 11);
        assert("quantity"@.len() == 8);
        assert("price"@.len() == 5);
    }
    let d = match desc {
        Some(d) => d,
        None => {
            assert(false);
            return Err(ItemError::Malformed);
        },
    };
    let q = match qty {
        Some(q) => q,
        None => {
            assert(false);
            return Err(ItemError::Malformed);
        },
    };
    let c = match price {
        Some(c) => c,
        None => {
            assert(false);
            return Err(ItemError::Malformed);
        },
    };
    match (q, c) {
        (Some(q), Some(c)) => Ok(LineItem { description: d, quantity: q, price_cents: c }),
        _ => Err(ItemError::TooLarge),
    }
}

/// If `q` lies above `m / p`, then `q * p` lies above `m`.
proof fn overflow_mul_bound(q: int, p: int, m: int)
    requires
        p >= 1,
        m >= 0,
        q > m / p,
    ensures
        q * p > m,
{
    assert((m / p) * p + m % p == m) by {
        vstd::arithmetic::div_mod::lemma_fundamental_div_mod(m, p);
    }
    assert(q * p >= (m / p + 1) * p) by (nonlinear_arith)
        requires p >= 1, q >= m / p + 1;
    assert((m / p + 1) * p == (m / p) * p + p) by (nonlinear_arith);
    assert(m % p < p) by {
        vstd::arithmetic::div_mod::lemma_mod_bound(m, p);
    }
}

/// If `q` lies at or under `m / p`, then `q * p` lies at or under `m`.
proof fn fits_mul_bound(q: int, p: int, m: int)
    requires
        p >= 1,
        m >= 0,
        0 <= q <= m / p,
    ensures
        q * p <= m,
{
    assert((m / p) * p + m % p == m) by {
        vstd::arithmetic::div_mod::lemma_fundamental_div_mod(m, p);
    }
    assert(q * p <= (m / p) * p) by (nonlinear_arith)
        requires p >= 1, 0 <= q <= m / p;
    assert(m % p >= 0) by {
        vstd::arithmetic::div_mod::lemma_mod_bound(m, p);
    }
}

} // verus!
