//! Decimal numbers: reading them from bytes and writing them as text.
use vstd::prelude::*;
use crate::text::string_push;

verus! {

/// The byte is one of `0` to `9` in ASCII.
pub open spec fn is_digit_byte(x: u8) -> bool {
    48 <= x <= 57
}

/// Every byte of `x` is an ASCII digit.
pub open spec fn all_digit_bytes(x: Seq<u8>) -> bool {
    forall|k: int| 0 <= k < x.len() ==> is_digit_byte(#[trigger] x[k])
}

/// The number written by the ASCII digits `x` (most significant first).
pub open spec fn digits_value(x: Seq<u8>) -> nat
    decreases x.len(),
{
    if x.len() == 0 {
        0
    } else {
        digits_value(x.drop_last()) * 10 + ((x.last() - 48) as nat)
    }
}

/// What `u32::from_str` gives for the text whose bytes are `x`: an optional
/// leading `+`, then at least one ASCII digit and nothing else, with a value
/// that fits in a `u32`.
pub open spec fn parse_u32_spec(x: Seq<u8>) -> Option<u32> {
    let d = if x.len() > 0 && x[0] == 43u8 {
        x.drop_first()
    } else {
        x
    };
    if d.len() == 0 || !all_digit_bytes(d) || digits_value(d) > u32::MAX {
        None
    } else {
        Some(digits_value(d) as u32)
    }
}

/// A longer run of digits is worth at least as much as any of its prefixes.
proof fn lemma_digits_value_prefix(x: Seq<u8>, j: int)
    requires
        0 <= j <= x.len(),
        all_digit_bytes(x),
    ensures
        digits_value(x.take(j)) <= digits_value(x),
    decreases x.len() - j,
{
    if j < x.len() {
        lemma_digits_value_prefix(x, j + 1);
        assert(x.take(j + 1).drop_last() =~= x.take(j));
    } else {
        assert(x.take(j) =~= x);
    }
}

/// Reads the decimal number in `b[lo..hi]` as `u32::from_str` does.
pub fn parse_u32_bytes(b: &[u8], lo: usize, hi: usize) -> (r: Option<u32>)
    requires
        lo <= hi <= b@.len(),
    ensures
        r == parse_u32_spec(b@.subrange(lo as int, hi as int)),
{
    let ghost x = b@.subrange(lo as int, hi as int);
    let mut start = lo;
    if hi > lo && b[lo] == 43u8 {
        start = lo + 1;
    }
    let ghost d = b@.subrange(start as int, hi as int);
    assert(d =~= (if x.len() > 0 && x[0] == 43u8 { x.drop_first() } else { x }));
    if start == hi {
        return None;
    }
    let mut v: u32 = 0;
    let mut k = start;
    while k < hi
        invariant
            lo <= start <= k <= hi <= b@.len(),
            x == b@.subrange(lo as int, hi as int),
            d == b@.subrange(start as int, hi as int),
            d == (if x.len() > 0 && x[0] == 43u8 { x.drop_first() } else { x }),
            d.len() > 0,
            all_digit_bytes(d.take(k - start)),
            v as nat == digits_value(d.take(k - start)),
        decreases hi - k,
    {
        let c = b[k];
        if c < 48 || c > 57 {
            assert(!is_digit_byte(d[k - start]));
            return None;
        }
        assert(d.take(k - start + 1).drop_last() =~= d.take(k - start));
        assert(all_digit_bytes(d.take(k - start + 1)));
        match v.checked_mul(10) {
            None => {
                proof {
                    if all_digit_bytes(d) {
                        lemma_digits_value_prefix(d, k - start + 1);
                    }
                }
                return None;
            },
            Some(v10) => match v10.checked_add((c - 48) as u32) {
                None => {
                    proof {
                        if all_digit_bytes(d) {
                            lemma_digits_value_prefix(d, k - start + 1);
                        }
                    }
                    return None;
                },
                Some(v2) => {
                    v = v2;
                },
            },
        }
        k += 1;
    }
    assert(d.take(k - start) =~= d);
    Some(v)
}


/// Ten to the power `n`.
pub open spec fn pow10(n: nat) -> nat
    decreases n,
{
    if n == 0 {
        1
    } else {
        10 * pow10((n - 1) as nat)
    }
}

/// `n` ASCII digits write a number below `10^n`.
pub proof fn lemma_digits_value_bound(x: Seq<u8>)
    requires
        all_digit_bytes(x),
    ensures
        digits_value(x) < pow10(x.len()),
    decreases x.len(),
{
    if x.len() > 0 {
        let y = x.drop_last();
        assert(all_digit_bytes(y)) by {
            assert forall|k: int| 0 <= k < y.len() implies is_digit_byte(#[trigger] y[k]) by {
                assert(y[k] == x[k]);
            }
        }
        lemma_digits_value_bound(y);
        assert(is_digit_byte(x[x.len() - 1]));
    }
}

/// A run of ASCII digits short enough to fit reads as its own value.
pub proof fn lemma_parse_digits(x: Seq<u8>)
    requires
        all_digit_bytes(x),
        1 <= x.len() <= 9,
    ensures
        parse_u32_spec(x) == Some(digits_value(x) as u32),
{
    lemma_digits_value_bound(x);
    reveal_with_fuel(pow10, 10);
    assert(is_digit_byte(x[0]));
}


/// The ASCII digit for `d`, a number below ten.
pub open spec fn digit_char(d: nat) -> char {
    ((d + 48) as u8) as char
}

/// `n` written in decimal, without leading zeros, as `Display` writes it.
pub open spec fn decimal(n: nat) -> Seq<char>
    decreases n,
{
    if n < 10 {
        seq![digit_char(n)]
    } else {
        decimal(n / 10).push(digit_char(n % 10))
    }
}

/// The number that the decimal digits `s` write.
pub open spec fn decimal_value(s: Seq<char>) -> int
    decreases s.len(),
{
    if s.len() == 0 {
        0
    } else {
        decimal_value(s.drop_last()) * 10 + (s.last() as int - 48)
    }
}

/// Reading the decimal text of `n` gives `n` back.
pub proof fn lemma_decimal_value(n: nat)
    ensures
        decimal_value(decimal(n)) == n,
        decimal(n).len() >= 1,
    decreases n,
{
    lemma_digit_char(n % 10);
    if n >= 10 {
        lemma_decimal_value(n / 10);
        assert(decimal(n).drop_last() =~= decimal(n / 10));
        assert((n / 10) * 10 + n % 10 == n) by (nonlinear_arith);
    } else {
        assert(decimal(n).drop_last() =~= Seq::<char>::empty());
        assert(decimal_value(Seq::<char>::empty()) == 0);
    }
}

/// Distinct numbers have distinct decimal texts.
pub proof fn lemma_decimal_injective(a: nat, b: nat)
    requires
        decimal(a) == decimal(b),
    ensures
        a == b,
{
    lemma_decimal_value(a);
    lemma_decimal_value(b);
}

/// Decimal digits hold no `.`, `/` or `_`.
pub proof fn lemma_decimal_digits(n: nat)
    ensures
        forall|k: int|
            0 <= k < decimal(n).len() ==> '0' <= #[trigger] decimal(n)[k] <= '9',
    decreases n,
{
    if n >= 10 {
        lemma_decimal_digits(n / 10);
        assert forall|k: int| 0 <= k < decimal(n).len() implies '0' <= #[trigger] decimal(
            n,
        )[k] <= '9' by {
            if k < decimal(n).len() - 1 {
                assert(decimal(n)[k] == decimal(n / 10)[k]);
            }
        }
    }
}

/// The character of a digit below ten.
proof fn lemma_digit_char(d: nat)
    requires
        d < 10,
    ensures
        digit_char(d) as int == d + 48,
{
}

/// `n` written in decimal.
pub fn decimal_string(n: usize) -> (r: String)
    ensures
        r@ == decimal(n as nat),
{
    let mut digits: Vec<char> = Vec::new();
    let mut m = n;
    loop
        invariant_except_break
            decimal(n as nat) == decimal(m as nat) + digits@.reverse(),
        ensures
            decimal(n as nat) == digits@.reverse(),
        decreases m,
    {
        let ghost old_digits = digits@;
        if m < 10 {
            digits.push(((m + 48) as u8) as char);
            assert(digits@.reverse() =~= seq![digit_char(m as nat)] + old_digits.reverse());
            break;
        }
        let d = m % 10;
        digits.push(((d + 48) as u8) as char);
        assert(digits@.reverse() =~= seq![digit_char(d as nat)] + old_digits.reverse());
        assert(decimal(m as nat) == decimal((m / 10) as nat).push(digit_char((m % 10) as nat)));
        assert(decimal(m as nat) + old_digits.reverse() =~= decimal((m / 10) as nat)
            + digits@.reverse());
        m = m / 10;
    }
    let mut r = String::new();
    let mut i = digits.len();
    while i > 0
        invariant
            i <= digits@.len(),
            r@ == digits@.reverse().take(digits@.len() - i),
        decreases i,
    {
        i -= 1;
        string_push(&mut r, digits[i]);
        assert(r@ =~= digits@.reverse().take(digits@.len() - i));
    }
    assert(digits@.reverse().take(digits@.len() as int) =~= digits@.reverse());
    r
}

} // verus!
