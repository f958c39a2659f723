//! Decimal text of `i32` values, as `i32::to_string` writes it and as
//! `str::parse::<i32>` reads it.
use vstd::prelude::*;

verus! {

/// ASCII code of the decimal digit `d`.
pub open spec fn digit_char(d: nat) -> u8 {
    (48 + d) as u8
}

/// Whether `c` is an ASCII decimal digit.
pub open spec fn is_digit(c: u8) -> bool {
    48 <= c <= 57
}

/// Digits of `n` without leading zeros (`0` is written `"0"`).
pub open spec fn digits_of(n: nat) -> Seq<u8>
    decreases n,
{
    if n < 10 {
        seq![digit_char(n)]
    } else {
        digits_of(n / 10).push(digit_char(n % 10))
    }
}

/// The text `i32::to_string` gives for `v`: a minus sign for negative values,
/// then the digits of the magnitude.
pub open spec fn decimal(v: int) -> Seq<u8> {
    if v < 0 {
        seq![45u8] + digits_of((-v) as nat)
    } else {
        digits_of(v as nat)
    }
}

/// Value of a string of digits, read left to right.
pub open spec fn digits_value(s: Seq<u8>) -> nat
    decreases s.len(),
{
    if s.len() == 0 {
        0
    } else {
        digits_value(s.drop_last()) * 10 + (s.last() - 48) as nat
    }
}

/// Whether every byte of `s` is a decimal digit.
pub open spec fn all_digits(s: Seq<u8>) -> bool {
    forall|i: int| 0 <= i < s.len() ==> is_digit(#[trigger] s[i])
}

/// What `str::parse::<i32>` gives for `s`: an optional `+` or `-` sign, then
/// one or more decimal digits whose signed value fits in an `i32`; anything
/// else is refused.
pub open spec fn parse_i32_spec(s: Seq<u8>) -> Option<i32> {
    let negative = s.len() > 0 && s[0] == 45u8;
    let body = if s.len() > 0 && (s[0] == 45u8 || s[0] == 43u8) {
        s.drop_first()
    } else {
        s
    };
    if body.len() == 0 || !all_digits(body) {
        None
    } else {
        let v: int = if negative {
            -digits_value(body)
        } else {
            digits_value(body) as int
        };
        if i32::MIN <= v <= i32::MAX {
            Some(v as i32)
        } else {
            None
        }
    }
}

/// The digits of `n` are decimal digits and read back as `n`.
pub proof fn lemma_digits_of_all_digits(n: nat)
    ensures
        all_digits(digits_of(n)),
        digits_of(n).len() >= 1,
        digits_value(digits_of(n)) == n,
    decreases n,
{
    if n >= 10 {
        lemma_digits_of_all_digits(n / 10);
        let s = digits_of(n);
        assert(s.drop_last() =~= digits_of(n / 10));
        assert(s.last() == digit_char(n % 10));
        assert((s.last() - 48) as nat == n % 10);
        assert(n == (n / 10) * 10 + n % 10);
        assert forall|i: int| 0 <= i < s.len() implies is_digit(#[trigger] s[i]) by {
            if i < s.len() - 1 {
                assert(s[i] == digits_of(n / 10)[i]);
            }
        }
    } else {
        let s = digits_of(n);
        assert(digit_char(n) == 48 + n);
        assert(s.drop_last() =~= Seq::<u8>::empty());
        assert(digits_value(s.drop_last()) == 0);
        assert(digits_value(s) == digits_value(s.drop_last()) * 10 + (s.last() - 48) as nat);
    }
}

fn push_digits(out: &mut Vec<u8>, n: u32)
    ensures
        final(out)@ == old(out)@ + digits_of(n as nat),
    decreases n,
{
    if n >= 10 {
        push_digits(out, n / 10);
    }
    let d: u8 = (n % 10) as u8;
    out.push(48u8 + d);
    proof {
        if n >= 10 {
            assert(final(out)@ =~= old(out)@ + digits_of(n as nat));
        } else {
            assert(final(out)@ =~= old(out)@ + digits_of(n as nat));
        }
    }
}

/// Writes `v` in decimal, as `i32::to_string` does.
pub fn format_i32(v: i32) -> (text: Vec<u8>)
    ensures
        text@ == decimal(v as int),
{
    let mut out: Vec<u8> = Vec::new();
    if v < 0 {
        out.push(45u8);
        let magnitude: u32 = if v == i32::MIN {
            2147483648u32
        } else {
            (-v) as u32
        };
        push_digits(&mut out, magnitude);
        assert(out@ =~= decimal(v as int));
    } else {
        push_digits(&mut out, v as u32);
        assert(out@ =~= decimal(v as int));
    }
    out
}

proof fn lemma_value_grows(s: Seq<u8>, i: int)
    requires
        0 <= i <= s.len(),
        all_digits(s),
    ensures
        digits_value(s.take(i)) <= digits_value(s),
    decreases s.len() - i,
{
    if i < s.len() {
        lemma_value_grows(s, i + 1);
        assert(s.take(i + 1).drop_last() =~= s.take(i));
    } else {
        assert(s.take(i) =~= s);
    }
}

/// Reads a decimal `i32` as `str::parse::<i32>` does; `None` where it
/// returns an error.
pub fn parse_i32(s: &[u8]) -> (value: Option<i32>)
    ensures
        value == parse_i32_spec(s@),
{
    let negative = s.len() > 0 && s[0] == 45u8;
    let start: usize = if s.len() > 0 && (s[0] == 45u8 || s[0] == 43u8) {
        1
    } else {
        0
    };
    let ghost body = if s@.len() > 0 && (s@[0] == 45u8 || s@[0] == 43u8) {
        s@.drop_first()
    } else {
        s@
    };
    assert(body =~= s@.skip(start as int));
    if start == s.len() {
        return None;
    }
    // Magnitude of the digits read so far; past 2^31 no i32 can result.
    let mut acc: u64 = 0;
    let mut i: usize = start;
    while i < s.len()
        invariant
            start <= i <= s@.len(),
            body == s@.skip(start as int),
            body == (if s@.len() > 0 && (s@[0] == 45u8 || s@[0] == 43u8) {
                s@.drop_first()
            } else {
                s@
            }),
            negative == (s@.len() > 0 && s@[0] == 45u8),
            all_digits(body.take(i - start)),
            acc == digits_value(body.take(i - start)),
            acc <= 2147483648,
        decreases s@.len() - i,
    {
        let c = s[i];
        if c < 48u8 || c > 57u8 {
            assert(body[i - start] == c);
            assert(!is_digit(body[i - start]));
            assert(!all_digits(body));
            return None;
        }
        let next: u64 = acc * 10 + (c - 48u8) as u64;
        proof {
            let k = i - start;
            assert(body.take(k + 1).drop_last() =~= body.take(k));
            assert(body.take(k + 1).last() == c);
            assert(digits_value(body.take(k + 1)) == next);
            assert(all_digits(body.take(k + 1))) by {
                assert forall|j: int| 0 <= j < k + 1 implies is_digit(#[trigger] body.take(k + 1)[j]) by {
                    if j < k {
                        assert(body.take(k + 1)[j] == body.take(k)[j]);
                    }
                }
            }
        }
        if next > 2147483648u64 {
            proof {
                let k = i - start;
                if all_digits(body) {
                    lemma_value_grows(body, k + 1);
                    assert(digits_value(body) > 2147483648);
                }
            }
            return None;
        }
        acc = next;
        i = i + 1;
    }
    assert(body.take(i - start) =~= body);
    if negative {
        let r: i64 = 0i64 - acc as i64;
        Some(r as i32)
    } else if acc > 2147483647u64 {
        None
    } else {
        Some(acc as i32)
    }
}

/// Reading back what `format_i32` writes gives the value that was written.
pub proof fn lemma_parse_decimal(v: i32)
    ensures
        parse_i32_spec(decimal(v as int)) == Some(v),
{
    if v < 0 {
        let m = (-v) as nat;
        lemma_digits_of_all_digits(m);
        let s = decimal(v as int);
        assert(s.drop_first() =~= digits_of(m));
    } else {
        lemma_digits_of_all_digits(v as nat);
        let s = decimal(v as int);
        assert(s[0] != 45u8 && s[0] != 43u8) by {
            assert(is_digit(s[0]));
        }
    }
}

/// `decimal(v)` holds only digits and the minus sign.
pub proof fn lemma_decimal_chars(v: int)
    ensures
        forall|i: int| 0 <= i < decimal(v).len() ==> is_digit(#[trigger] decimal(v)[i]) || decimal(v)[i] == 45u8,
{
    if v < 0 {
        lemma_digits_of_all_digits((-v) as nat);
        let d = digits_of((-v) as nat);
        assert forall|i: int| 0 <= i < decimal(v).len() implies is_digit(#[trigger] decimal(v)[i]) || decimal(v)[i] == 45u8 by {
            if i > 0 {
                assert(decimal(v)[i] == d[i - 1]);
            }
        }
    } else {
        lemma_digits_of_all_digits(v as nat);
    }
}

} // verus!
