//! Decimal notation: the spec-level meaning of digit strings and verified
//! formatting of unsigned numbers, including the zero-padded invoice number.
use vstd::prelude::*;

verus! {

/// The character standing for one decimal digit.
pub open spec fn spec_digit_char(d: int) -> char {
    if d == 0 {
        '0'
    } else if d == 1 {
        '1'
    } else if d == 2 {
        '2'
    } else if d == 3 {
        '3'
    } else if d == 4 {
        '4'
    } else if d == 5 {
        '5'
    } else if d == 6 {
        '6'
    } else if d == 7 {
        '7'
    } else if d == 8 {
        '8'
    } else {
        '9'
    }
}

/// Decimal notation of a non-negative number, most significant digit first,
/// without leading zeros (a single zero for 0).
pub open spec fn spec_decimal(n: int) -> Seq<char>
    decreases n,
{
    if n <= 9 {
        seq![spec_digit_char(n)]
    } else {
        spec_decimal(n / 10) + seq![spec_digit_char(n % 10)]
    }
}

/// The invoice-number notation: decimal, left-padded with zeros to five
/// characters.
pub open spec fn spec_padded5(n: int) -> Seq<char> {
    if n <= 9 {
        seq!['0', '0', '0', '0'] + spec_decimal(n)
    } else if n <= 99 {
        seq!['0', '0', '0'] + spec_decimal(n)
    } else if n <= 999 {
        seq!['0', '0'] + spec_decimal(n)
    } else if n <= 9999 {
        seq!['0'] + spec_decimal(n)
    } else {
        spec_decimal(n)
    }
}

/// One decimal digit as a string slice.
pub fn digit_str(d: u64) -> (r: &'static str)
    requires
        d <= 9,
    ensures
        r@ == seq![spec_digit_char(d as int)],
{
    let r: &'static str = if d == 0 {
        proof { reveal_strlit("0"); }
        "0"
    } else if d == 1 {
        proof { reveal_strlit("1"); }
        "1"
    } else if d == 2 {
        proof { reveal_strlit("2"); }
        "2"
    } else if d == 3 {
        proof { reveal_strlit("3"); }
        "3"
    } else if d == 4 {
        proof { reveal_strlit("4"); }
        "4"
    } else if d == 5 {
        proof { reveal_strlit("5"); }
        "5"
    } else if d == 6 {
        proof { reveal_strlit("6"); }
        "6"
    } else if d == 7 {
        proof { reveal_strlit("7"); }
        "7"
    } else if d == 8 {
        proof { reveal_strlit("8"); }
        "8"
    } else {
        proof { reveal_strlit("9"); }
        "9"
    };
    proof {
        assert(r@ =~= seq![spec_digit_char(d as int)]);
    }
    r
}

/// Decimal notation of `n`.
pub fn u64_to_string(n: u64) -> (r: String)
    ensures
        r@ == spec_decimal(n as int),
    decreases n,
{
    if n <= 9 {
        digit_str(n).to_owned()
    } else {
        let mut s = u64_to_string(n / 10);
        s.append(digit_str(n % 10));
        proof {
            assert(s@ =~= spec_decimal(n as int));
        }
        s
    }
}

/// Decimal notation of `n`, zero-padded to at least five characters, as the
/// generated invoice file is named.
pub fn padded5(n: u64) -> (r: String)
    ensures
        r@ == spec_padded5(n as int),
{
    proof {
        reveal_strlit("0000");
        reveal_strlit("000");
        reveal_strlit("00");
        reveal_strlit("0");
    }
    let mut s: String = if n <= 9 {
        "0000".to_owned()
    } else if n <= 99 {
        "000".to_owned()
    } else if n <= 999 {
        "00".to_owned()
    } else if n <= 9999 {
        "0".to_owned()
    } else {
        String::new()
    };
    let d = u64_to_string(n);
    s.append(d.as_str());
    proof {
        assert(s@ =~= spec_padded5(n as int));
    }
    s
}

} // verus!
