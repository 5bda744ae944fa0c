//! Decimal numbers: reading and writing `u32` values.

use vstd::prelude::*;

verus! {

/// Whether `c` is a decimal digit.
pub open spec fn is_digit(c: char) -> bool {
    '0' <= c && c <= '9'
}

/// The value of a decimal digit.
pub open spec fn digit_value(c: char) -> nat {
    (c as u32 - '0' as u32) as nat
}

/// The value of a string of decimal digits.
pub open spec fn digits_value(s: Seq<char>) -> nat
    decreases s.len(),
{
    if s.len() == 0 {
        0
    } else {
        digits_value(s.drop_last()) * 10 + digit_value(s.last())
    }
}

/// Whether every character of `s` is a decimal digit.
pub open spec fn all_digits(s: Seq<char>) -> bool {
    forall|i: int| 0 <= i < s.len() ==> is_digit(#[trigger] s[i])
}

/// The digits of a number as written by `u32::parse`: an optional `+` sign removed.
pub open spec fn unsigned_digits(t: Seq<char>) -> Seq<char> {
    if t.len() > 0 && t[0] == '+' { t.skip(1) } else { t }
}

/// What `str::parse::<u32>` gives: an optional `+`, then one or more decimal
/// digits whose value fits in 32 bits.
pub open spec fn parse_u32_spec(t: Seq<char>) -> Option<u32> {
    let d = unsigned_digits(t);
    if d.len() > 0 && all_digits(d) && digits_value(d) <= u32::MAX {
        Some(digits_value(d) as u32)
    } else {
        None
    }
}

/// Reads a `u32` written in decimal, as `str::parse::<u32>` does.
pub fn parse_u32(t: &Vec<char>) -> (r: Option<u32>)
    ensures
        r == parse_u32_spec(t@),
{
    let mut i: usize = 0;
    if t.len() > 0 && t[0] == '+' {
        i = 1;
    }
    let ghost d = unsigned_digits(t@);
    let ghost first = i as int;
    assert(d =~= t@.skip(first));
    if i >= t.len() {
        return None;
    }
    let mut value: u32 = 0;
    let mut overflow = false;
    while i < t.len()
        invariant
            0 <= first <= i <= t.len(),
            d == t@.skip(first),
            d == unsigned_digits(t@),
            all_digits(t@.subrange(first, i as int)),
            !overflow ==> value as nat == digits_value(t@.subrange(first, i as int)),
            overflow ==> digits_value(t@.subrange(first, i as int)) > u32::MAX,
        decreases t.len() - i,
    {
        let c = t[i];
        if !('0' <= c && c <= '9') {
            assert(!all_digits(d)) by {
                assert(0 <= i - first < d.len());
                assert(d[i - first] == t@[i as int]);
                assert(!is_digit(d[i - first]));
            }
            return None;
        }
        let ghost prefix = t@.subrange(first, i + 1);
        assert(prefix.drop_last() =~= t@.subrange(first, i as int));
        assert(prefix.last() == c);
        let dv: u32 = (c as u32) - ('0' as u32);
        if !overflow {
            if value > 429496729 || (value == 429496729 && dv > 5) {
                overflow = true;
            } else {
                value = value * 10 + dv;
            }
        }
        i = i + 1;
        assert(all_digits(t@.subrange(first, i as int))) by {
            assert forall|k: int| 0 <= k < i - first implies is_digit(
                #[trigger] t@.subrange(first, i as int)[k],
            ) by {
                if k < i - 1 - first {
                    assert(t@.subrange(first, i as int)[k] == t@.subrange(first, i - 1)[k]);
                }
            }
        }
    }
    assert(t@.subrange(first, t.len() as int) =~= d);
    if overflow {
        None
    } else {
        Some(value)
    }
}

/// What `str::parse::<usize>` gives: an optional `+`, then one or more decimal
/// digits whose value fits in a `usize`.
pub open spec fn parse_usize_spec(t: Seq<char>) -> Option<usize> {
    let d = unsigned_digits(t);
    if d.len() > 0 && all_digits(d) && digits_value(d) <= usize::MAX {
        Some(digits_value(d) as usize)
    } else {
        None
    }
}

/// Reads a `usize` written in decimal, as `str::parse::<usize>` does.
pub fn parse_usize(t: &Vec<char>) -> (r: Option<usize>)
    ensures
        r == parse_usize_spec(t@),
{
    let mut i: usize = 0;
    if t.len() > 0 && t[0] == '+' {
        i = 1;
    }
    let ghost d = unsigned_digits(t@);
    let ghost first = i as int;
    assert(d =~= t@.skip(first));
    if i >= t.len() {
        return None;
    }
    let mut value: usize = 0;
    let mut overflow = false;
    while i < t.len()
        invariant
            0 <= first <= i <= t.len(),
            d == t@.skip(first),
            d == unsigned_digits(t@),
            all_digits(t@.subrange(first, i as int)),
            !overflow ==> value as nat == digits_value(t@.subrange(first, i as int)),
            overflow ==> digits_value(t@.subrange(first, i as int)) > usize::MAX,
        decreases t.len() - i,
    {
        let c = t[i];
        if !('0' <= c && c <= '9') {
            assert(!all_digits(d)) by {
                assert(0 <= i - first < d.len());
                assert(d[i - first] == t@[i as int]);
                assert(!is_digit(d[i - first]));
            }
            return None;
        }
        let ghost prefix = t@.subrange(first, i + 1);
        assert(prefix.drop_last() =~= t@.subrange(first, i as int));
        assert(prefix.last() == c);
        let dv: usize = ((c as u32) - ('0' as u32)) as usize;
        if !overflow {
            if value > (usize::MAX - dv) / 10 {
                assert(value * 10 + dv > usize::MAX) by (nonlinear_arith)
                    requires
                        value > (usize::MAX - dv) / 10,
                        dv <= 9,
                ;
                overflow = true;
            } else {
                assert(value * 10 + dv <= usize::MAX) by (nonlinear_arith)
                    requires
                        value <= (usize::MAX - dv) / 10,
                        dv <= 9,
                ;
                value = value * 10 + dv;
            }
        } else {
            assert(digits_value(prefix) >= digits_value(prefix.drop_last()));
        }
        i = i + 1;
        assert(all_digits(t@.subrange(first, i as int))) by {
            assert forall|k: int| 0 <= k < i - first implies is_digit(
                #[trigger] t@.subrange(first, i as int)[k],
            ) by {
                if k < i - 1 - first {
                    assert(t@.subrange(first, i as int)[k] == t@.subrange(first, i - 1)[k]);
                }
            }
        }
    }
    assert(t@.subrange(first, t.len() as int) =~= d);
    if overflow {
        None
    } else {
        Some(value)
    }
}

/// The digit character of a value below ten.
pub open spec fn digit_char(n: nat) -> char {
    ((n + 48) as u32) as char
}

/// The decimal form of `n`, without sign or leading zeros.
pub open spec fn decimal_spec(n: nat) -> Seq<char>
    decreases n,
{
    if n < 10 {
        seq![digit_char(n)]
    } else {
        decimal_spec(n / 10).push(digit_char(n % 10))
    }
}

/// The digit character of `n`, which is below ten.
pub fn digit_of(n: u32) -> (r: char)
    requires
        n < 10,
    ensures
        r == digit_char(n as nat),
{
    let b: u8 = (n as u8) + 48;
    b as char
}

/// `n` written in decimal, as `format!("{}", n)` writes it.
pub fn decimal(n: u32) -> (r: Vec<char>)
    ensures
        r@ == decimal_spec(n as nat),
    decreases n,
{
    if n < 10 {
        vec![digit_of(n)]
    } else {
        let mut v = decimal(n / 10);
        v.push(digit_of(n % 10));
        v
    }
}

/// The digit character of a value below ten is a digit of that value.
pub proof fn lemma_digit_char(k: nat)
    requires
        k < 10,
    ensures
        is_digit(digit_char(k)),
        digit_value(digit_char(k)) == k,
{
    let u = (k + 48) as u32;
    assert((u as char) as u32 == u);
}

/// A decimal form holds only digits and never starts with a sign.
pub proof fn lemma_decimal_digits(n: nat)
    ensures
        decimal_spec(n).len() > 0,
        all_digits(decimal_spec(n)),
        digits_value(decimal_spec(n)) == n,
    decreases n,
{
    if n < 10 {
        lemma_digit_char(n);
        assert(decimal_spec(n).drop_last() =~= Seq::<char>::empty());
        assert(digits_value(Seq::<char>::empty()) == 0);
    } else {
        lemma_digit_char(n % 10);
        lemma_decimal_digits(n / 10);
        let d = decimal_spec(n);
        assert(d.drop_last() =~= decimal_spec(n / 10));
        assert(d.last() == digit_char(n % 10));
        assert(n == (n / 10) * 10 + n % 10) by (nonlinear_arith);
        assert(forall|i: int| 0 <= i < d.len() - 1 ==> d[i] == decimal_spec(n / 10)[i]);
    }
}

/// Reading the decimal form of a `u32` gives the number back.
pub proof fn lemma_parse_decimal(n: u32)
    ensures
        parse_u32_spec(decimal_spec(n as nat)) == Some(n),
{
    lemma_decimal_digits(n as nat);
    let d = decimal_spec(n as nat);
    assert(is_digit(d[0]));
    assert(unsigned_digits(d) == d);
}

} // verus!
