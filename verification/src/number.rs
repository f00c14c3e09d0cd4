//! Numbers in text: reading unsigned integers, writing decimals.

use vstd::prelude::*;
use vstd::slice::slice_subrange;
use crate::text;

verus! {

/// The value of `c` as a digit of base `radix`.
pub open spec fn digit_of(c: char, radix: int) -> Option<int> {
    let d = if '0' <= c <= '9' {
        c as int - '0' as int
    } else if 'a' <= c <= 'z' {
        c as int - 'a' as int + 10
    } else if 'A' <= c <= 'Z' {
        c as int - 'A' as int + 10
    } else {
        radix
    };
    if d < radix {
        Some(d)
    } else {
        None
    }
}

/// The number that a run of digits denotes; `None` when another character
/// occurs in it. The empty run denotes zero.
pub open spec fn digits_value(s: Seq<char>, radix: int) -> Option<int>
    decreases s.len(),
{
    if s.len() == 0 {
        Some(0)
    } else {
        match (digits_value(s.drop_last(), radix), digit_of(s.last(), radix)) {
            (Some(v), Some(d)) => Some(v * radix + d),
            _ => None,
        }
    }
}

/// The number written as an optional `+` and at least one digit, up to `max`.
pub open spec fn unsigned_value(s: Seq<char>, radix: int, max: int) -> Option<int> {
    let digits = if s.len() > 0 && s[0] == '+' {
        s.skip(1)
    } else {
        s
    };
    if digits.len() == 0 {
        None
    } else {
        match digits_value(digits, radix) {
            Some(v) => if v <= max {
                Some(v)
            } else {
                None
            },
            None => None,
        }
    }
}

/// The decimal digit `d`.
pub open spec fn digit_char(d: int) -> char {
    ('0' as int + d) as char
}

/// `n` in decimal, without leading zeros.
pub open spec fn decimal(n: nat) -> Seq<char>
    decreases n,
{
    if n < 10 {
        seq![digit_char(n as int)]
    } else {
        decimal(n / 10).push(digit_char((n % 10) as int))
    }
}

/// `n` in decimal, with a leading `-` when negative.
pub open spec fn signed_decimal(n: int) -> Seq<char> {
    if n < 0 {
        seq!['-'] + decimal((-n) as nat)
    } else {
        decimal(n as nat)
    }
}

/// A digit run is worth at least as much as each of its prefixes.
proof fn lemma_prefix_value(s: Seq<char>, radix: int, i: int)
    requires
        0 <= i <= s.len(),
        radix >= 1,
        digits_value(s, radix) is Some,
    ensures
        digits_value(s.take(i), radix) is Some,
        0 <= digits_value(s.take(i), radix)->0 <= digits_value(s, radix)->0,
    decreases s.len(),
{
    if i == s.len() {
        assert(s.take(i) =~= s);
        if s.len() > 0 {
            lemma_prefix_value(s.drop_last(), radix, s.len() - 1);
            assert(s.drop_last().take(s.len() - 1) =~= s.drop_last());
            let v = digits_value(s.drop_last(), radix)->0;
            assert(0 <= v * radix) by (nonlinear_arith)
                requires
                    0 <= v,
                    radix >= 1,
            ;
        }
    } else {
        lemma_prefix_value(s.drop_last(), radix, i);
        assert(s.drop_last().take(i) =~= s.take(i));
        let v = digits_value(s.drop_last(), radix)->0;
        assert(v <= v * radix) by (nonlinear_arith)
            requires
                0 <= v,
                radix >= 1,
        ;
    }
}

/// The value of `c` as a digit of base `radix`.
pub fn digit(c: char, radix: u64) -> (r: Option<u64>)
    requires
        2 <= radix <= 36,
    ensures
        r matches Some(d) ==> digit_of(c, radix as int) == Some(d as int) && d < radix,
        r is None ==> digit_of(c, radix as int) is None,
{
    let d: u64 = if '0' <= c && c <= '9' {
        c as u64 - '0' as u64
    } else if 'a' <= c && c <= 'z' {
        c as u64 - 'a' as u64 + 10
    } else if 'A' <= c && c <= 'Z' {
        c as u64 - 'A' as u64 + 10
    } else {
        radix
    };
    if d < radix {
        Some(d)
    } else {
        None
    }
}

/// Reads an optional `+` and at least one digit as a number up to `max`.
pub fn parse_unsigned(s: &[char], radix: u64, max: u64) -> (r: Option<u64>)
    requires
        2 <= radix <= 36,
    ensures
        r matches Some(n) ==> unsigned_value(s@, radix as int, max as int) == Some(n as int),
        r is None ==> unsigned_value(s@, radix as int, max as int) is None,
{
    let digits = if s.len() > 0 && s[0] == '+' {
        slice_subrange(s, 1, s.len())
    } else {
        s
    };
    if digits.len() == 0 {
        return None;
    }
    let mut value: u64 = 0;
    let mut i: usize = 0;
    while i < digits.len()
        invariant
            2 <= radix <= 36,
            i <= digits@.len(),
            digits@ == (if s@.len() > 0 && s@[0] == '+' {
                s@.skip(1)
            } else {
                s@
            }),
            value <= max,
            digits_value(digits@.take(i as int), radix as int) == Some(value as int),
        decreases digits@.len() - i,
    {
        let ghost before = digits@.take(i as int);
        let ghost after = digits@.take(i + 1);
        assert(after.drop_last() =~= before);
        proof {
            if digits_value(digits@, radix as int) is Some {
                lemma_prefix_value(digits@, radix as int, i + 1);
            }
        }
        match digit(digits[i], radix) {
            None => {
                return None;
            },
            Some(d) => {
                assert(value * radix <= u64::MAX * 36) by (nonlinear_arith)
                    requires
                        value <= u64::MAX,
                        radix <= 36,
                ;
                let next: u128 = value as u128 * radix as u128 + d as u128;
                if next > max as u128 {
                    return None;
                }
                value = next as u64;
            },
        }
        i = i + 1;
    }
    assert(digits@.take(i as int) =~= digits@);
    Some(value)
}

/// Appends `n` in decimal.
pub fn push_decimal(out: &mut String, n: u64)
    ensures
        final(out)@ == old(out)@ + decimal(n as nat),
    decreases n,
{
    if n >= 10 {
        push_decimal(out, n / 10);
    }
    let d: u8 = (n % 10) as u8;
    out.push((48 + d) as char);
    assert(digit_char(d as int) == (48 + d) as char);
    assert(final(out)@ =~= old(out)@ + decimal(n as nat));
}

/// Appends `n` in decimal, with a leading `-` when negative.
pub fn push_signed(out: &mut String, n: i64)
    ensures
        final(out)@ == old(out)@ + signed_decimal(n as int),
{
    if n < 0 {
        out.push('-');
        push_decimal(out, (-(n as i128)) as u64);
        assert(out@ =~= old(out)@ + signed_decimal(n as int));
    } else {
        push_decimal(out, n as u64);
    }
}

/// A digit run denotes no negative number.
pub proof fn lemma_value_is_natural(s: Seq<char>, radix: int)
    requires
        radix >= 1,
    ensures
        digits_value(s, radix) matches Some(v) ==> v >= 0,
{
    if digits_value(s, radix) is Some {
        lemma_prefix_value(s, radix, s.len() as int);
        assert(s.take(s.len() as int) =~= s);
    }
}

/// A digit run without a superfluous leading zero is the decimal of its value.
pub proof fn lemma_decimal_of_value(s: Seq<char>)
    requires
        s.len() > 0,
        text::all_digits(s),
        s.len() == 1 || s[0] != '0',
    ensures
        digits_value(s, 10) is Some,
        digits_value(s, 10)->0 >= 0,
        s[0] != '0' ==> digits_value(s, 10)->0 > 0,
        decimal(digits_value(s, 10)->0 as nat) == s,
    decreases s.len(),
{
    let init = s.drop_last();
    let d = digit_of(s.last(), 10);
    assert('0' <= s[s.len() - 1] <= '9');
    assert(d is Some && 0 <= d->0 < 10);
    assert(digit_char(d->0) == s.last());
    if s.len() == 1 {
        assert(init =~= seq![]);
        assert(digits_value(init, 10) == Some(0int));
        assert(decimal(d->0 as nat) =~= s);
    } else {
        assert(text::all_digits(init)) by {
            assert forall|i: int| 0 <= i < init.len() implies '0' <= #[trigger] init[i] <= '9' by {
                assert(init[i] == s[i]);
            }
        }
        lemma_decimal_of_value(init);
        let v = digits_value(init, 10)->0;
        let n = v * 10 + d->0;
        assert(v >= 1);
        assert(n / 10 == v && n % 10 == d->0);
        assert(decimal(n as nat) == decimal((n as nat) / 10).push(digit_char(d->0)));
        assert(s =~= init.push(s.last()));
    }
}

} // verus!
