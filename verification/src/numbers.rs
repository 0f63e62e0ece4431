//! Decimal text of unsigned numbers: writing and reading.

use vstd::prelude::*;
use vstd::std_specs::iter::IteratorSpec;

verus! {

/// The ten decimal digits.
pub open spec fn digits() -> Seq<char> {
    seq!['0', '1', '2', '3', '4', '5', '6', '7', '8', '9']
}

/// The decimal text of `n`, without sign or leading zeros.
pub open spec fn decimal(n: nat) -> Seq<char>
    decreases n,
{
    if n < 10 {
        seq![digits()[n as int]]
    } else {
        decimal(n / 10).push(digits()[(n % 10) as int])
    }
}

/// A decimal text is not empty.
pub proof fn lemma_decimal_len(n: nat)
    ensures
        decimal(n).len() >= 1,
    decreases n,
{
    if n >= 10 {
        lemma_decimal_len(n / 10);
    }
}

/// Different digits have different characters.
pub proof fn lemma_digits_distinct(a: nat, b: nat)
    requires
        a < 10,
        b < 10,
        digits()[a as int] == digits()[b as int],
    ensures
        a == b,
{
    let d = digits();
    assert(d[0] == '0' && d[1] == '1' && d[2] == '2' && d[3] == '3' && d[4] == '4');
    assert(d[5] == '5' && d[6] == '6' && d[7] == '7' && d[8] == '8' && d[9] == '9');
}

/// Different numbers have different decimal texts.
pub proof fn lemma_decimal_injective(n: nat, m: nat)
    requires
        decimal(n) == decimal(m),
    ensures
        n == m,
    decreases n,
{
    lemma_decimal_len(n / 10);
    lemma_decimal_len(m / 10);
    if n < 10 {
        assert(decimal(n).len() == 1);
        assert(m < 10);
        assert(decimal(n)[0] == digits()[n as int]);
        assert(decimal(m)[0] == digits()[m as int]);
        lemma_digits_distinct(n, m);
    } else {
        assert(decimal(n).len() >= 2);
        assert(m >= 10);
        let front_n = decimal(n / 10);
        let front_m = decimal(m / 10);
        assert(decimal(n).drop_last() =~= front_n);
        assert(decimal(m).drop_last() =~= front_m);
        assert(decimal(n).last() == digits()[(n % 10) as int]);
        assert(decimal(m).last() == digits()[(m % 10) as int]);
        lemma_decimal_injective(n / 10, m / 10);
        lemma_digits_distinct(n % 10, m % 10);
    }
}

/// The text of one decimal digit.
fn digit_text(d: u64) -> (r: &'static str)
    requires
        d < 10,
    ensures
        r@ == seq![digits()[d as int]],
{
    proof {
        reveal_strlit("0");
        reveal_strlit("1");
        reveal_strlit("2");
        reveal_strlit("3");
        reveal_strlit("4");
        reveal_strlit("5");
        reveal_strlit("6");
        reveal_strlit("7");
        reveal_strlit("8");
        reveal_strlit("9");
    }
    let r = if d == 0 {
        "0"
    } else if d == 1 {
        "1"
    } else if d == 2 {
        "2"
    } else if d == 3 {
        "3"
    } else if d == 4 {
        "4"
    } else if d == 5 {
        "5"
    } else if d == 6 {
        "6"
    } else if d == 7 {
        "7"
    } else if d == 8 {
        "8"
    } else {
        "9"
    };
    assert(r@ =~= seq![digits()[d as int]]);
    r
}

/// Writes `n` in decimal.
pub fn decimal_string(n: u64) -> (r: String)
    ensures
        r@ == decimal(n as nat),
    decreases n,
{
    if n < 10 {
        String::from_str(digit_text(n))
    } else {
        let mut r = decimal_string(n / 10);
        r.append(digit_text(n % 10));
        assert(r@ =~= decimal(n as nat));
        r
    }
}

/// The decimal text of `i`, with a minus sign if it is negative.
pub open spec fn signed_decimal(i: int) -> Seq<char> {
    if i < 0 {
        seq!['-'] + decimal((-i) as nat)
    } else {
        decimal(i as nat)
    }
}

/// Writes `i` in decimal, with a minus sign if it is negative.
pub fn signed_decimal_string(i: i32) -> (r: String)
    ensures
        r@ == signed_decimal(i as int),
{
    if i < 0 {
        let mut r = String::from_str("-");
        let digits = decimal_string((0 - (i as i64)) as u64);
        r.append(digits.as_str());
        proof {
            reveal_strlit("-");
            assert(r@ =~= signed_decimal(i as int));
        }
        r
    } else {
        decimal_string(i as u64)
    }
}

/// `c` is one of the ten decimal digits.
pub open spec fn is_digit(c: char) -> bool {
    48 <= c as u32 <= 57
}

/// The value of the digit `c`.
pub open spec fn digit_value(c: char) -> nat {
    (c as u32 - 48) as nat
}

/// Every character of `s` is a decimal digit.
pub open spec fn all_digits(s: Seq<char>) -> bool {
    forall|i: int| 0 <= i < s.len() ==> is_digit(#[trigger] s[i])
}

/// The number that the digits of `s` write in decimal.
pub open spec fn digits_value(s: Seq<char>) -> nat
    decreases s.len(),
{
    if s.len() == 0 {
        0
    } else {
        digits_value(s.drop_last()) * 10 + digit_value(s.last())
    }
}

/// `s` without a leading plus sign.
pub open spec fn unsigned_part(s: Seq<char>) -> Seq<char> {
    if s.len() > 0 && s[0] == '+' {
        s.drop_first()
    } else {
        s
    }
}

/// The number that `s` writes: an optional plus sign, then at least one
/// decimal digit and nothing else, with a value that fits 32 bits.
pub open spec fn parsed_u32(s: Seq<char>) -> Option<u32> {
    let d = unsigned_part(s);
    if d.len() > 0 && all_digits(d) && digits_value(d) <= u32::MAX {
        Some(digits_value(d) as u32)
    } else {
        None
    }
}

/// More digits never write a smaller number.
pub proof fn lemma_digits_value_prefix(s: Seq<char>, n: int)
    requires
        0 <= n <= s.len(),
    ensures
        digits_value(s.subrange(0, n)) <= digits_value(s),
    decreases s.len() - n,
{
    if n == s.len() {
        assert(s.subrange(0, n) =~= s);
    } else {
        lemma_digits_value_prefix(s.drop_last(), n);
        assert(s.drop_last().subrange(0, n) =~= s.subrange(0, n));
    }
}

/// Reads an unsigned decimal number of at most 32 bits.
pub fn parse_u32(s: &str) -> (r: Option<u32>)
    ensures
        r == parsed_u32(s@),
{
    let len = s.unicode_len();
    if len == 0 {
        return None;
    }
    let body = if s.get_char(0) == '+' {
        s.substring_char(1, len)
    } else {
        s
    };
    assert(body@ =~= unsigned_part(s@));
    let mut it = body.chars();
    let mut acc: u64 = 0;
    let mut any = false;
    let ghost mut i: int = 0;
    loop
        invariant
            0 <= i <= body@.len(),
            any == (i > 0),
            it.remaining() == body@.skip(i),
            all_digits(body@.subrange(0, i)),
            acc == digits_value(body@.subrange(0, i)),
            acc <= u32::MAX,
            body@ == unsigned_part(s@),
        decreases body@.len() - i,
    {
        match it.next() {
            None => {
                assert(body@.subrange(0, i) =~= body@);
                if !any {
                    return None;
                }
                return Some(acc as u32);
            },
            Some(c) => {
                assert(c == body@[i]);
                let code = c as u32;
                if code < 48 || code > 57 {
                    return None;
                }
                proof {
                    let next = body@.subrange(0, i + 1);
                    assert(next.drop_last() =~= body@.subrange(0, i));
                    assert(next.last() == c);
                    assert forall|k: int| 0 <= k < next.len() implies is_digit(
                        #[trigger] next[k],
                    ) by {
                        if k < i {
                            assert(body@.subrange(0, i)[k] == next[k]);
                        }
                    }
                }
                acc = acc * 10 + (code - 48) as u64;
                if acc > u32::MAX as u64 {
                    proof {
                        lemma_digits_value_prefix(body@, i + 1);
                    }
                    return None;
                }
            },
        }
        any = true;
        proof {
            i = i + 1;
        }
    }
}

} // verus!
