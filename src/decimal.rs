//! Decimal numerals as ASCII bytes: writing and reading them, with proofs that
//! reading a written numeral gives back the number.
use vstd::prelude::*;

verus! {

/// An ASCII digit `0`..`9`.
pub open spec fn is_digit(b: u8) -> bool {
    48 <= b <= 57
}

pub open spec fn all_digits(s: Seq<u8>) -> bool {
    forall|i: int| 0 <= i < s.len() ==> is_digit(#[trigger] s[i])
}

/// The number that a run of digits denotes (most significant first).
pub open spec fn digits_value(s: Seq<u8>) -> nat
    decreases s.len(),
{
    if s.len() == 0 {
        0
    } else {
        digits_value(s.drop_last()) * 10 + (s.last() - 48) as nat
    }
}

/// The shortest run of digits that denotes `n`.
pub open spec fn decimal_digits(n: nat) -> Seq<u8>
    decreases n,
{
    if n < 10 {
        seq![(48 + n) as u8]
    } else {
        decimal_digits(n / 10).push((48 + n % 10) as u8)
    }
}

/// The canonical text of an integer: a minus sign for negatives, then digits.
pub open spec fn signed_text(n: int) -> Seq<u8> {
    if n < 0 {
        seq![45u8] + decimal_digits((-n) as nat)
    } else {
        decimal_digits(n as nat)
    }
}

/// The integer that a numeral denotes: an optional `+` or `-` sign followed by
/// at least one digit. `None` when the text is no such numeral.
pub open spec fn signed_value(s: Seq<u8>) -> Option<int> {
    if s.len() > 0 && (s[0] == 45 || s[0] == 43) {
        let d = s.drop_first();
        if d.len() > 0 && all_digits(d) {
            if s[0] == 45 {
                Some(-(digits_value(d) as int))
            } else {
                Some(digits_value(d) as int)
            }
        } else {
            None
        }
    } else if s.len() > 0 && all_digits(s) {
        Some(digits_value(s) as int)
    } else {
        None
    }
}

pub open spec fn fits_i64(v: int) -> bool {
    i64::MIN <= v <= i64::MAX
}

/// What reading a numeral as an `i64` gives: its value where it is a numeral
/// and the value fits.
pub open spec fn i64_of(s: Seq<u8>) -> Option<i64> {
    match signed_value(s) {
        Some(v) => if fits_i64(v) {
            Some(v as i64)
        } else {
            None
        },
        None => None,
    }
}

pub proof fn lemma_decimal_digits_shape(n: nat)
    ensures
        decimal_digits(n).len() > 0,
        all_digits(decimal_digits(n)),
        digits_value(decimal_digits(n)) == n,
    decreases n,
{
    if n >= 10 {
        lemma_decimal_digits_shape(n / 10);
        let s = decimal_digits(n);
        assert(s.drop_last() =~= decimal_digits(n / 10));
        assert(n == (n / 10) * 10 + n % 10) by (nonlinear_arith);
        assert(s.last() == (48 + n % 10) as u8);
        assert(digits_value(s) == digits_value(s.drop_last()) * 10 + (s.last() - 48) as nat);
        assert(all_digits(s)) by {
            assert forall|i: int| 0 <= i < s.len() implies is_digit(#[trigger] s[i]) by {
                if i < s.len() - 1 {
                    assert(s[i] == decimal_digits(n / 10)[i]);
                }
            }
        }
    } else {
        let s = decimal_digits(n);
        assert(s.drop_last() =~= Seq::<u8>::empty());
        assert(digits_value(s) == digits_value(s.drop_last()) * 10 + (s.last() - 48) as nat);
    }
}

/// Reading the canonical text of an integer gives the integer back.
pub proof fn lemma_signed_text_value(n: int)
    ensures
        signed_value(signed_text(n)) == Some(n),
        signed_text(n).len() > 0,
        forall|i: int| 0 <= i < signed_text(n).len() ==> #[trigger] signed_text(n)[i] != 13u8,
{
    if n < 0 {
        let d = decimal_digits((-n) as nat);
        lemma_decimal_digits_shape((-n) as nat);
        let s = signed_text(n);
        assert(s.drop_first() =~= d);
        assert forall|i: int| 0 <= i < s.len() implies #[trigger] s[i] != 13u8 by {
            if i > 0 {
                assert(s[i] == d[i - 1]);
            }
        }
    } else {
        lemma_decimal_digits_shape(n as nat);
        let s = signed_text(n);
        assert(s[0] != 45 && s[0] != 43) by {
            assert(is_digit(s[0]));
        }
    }
}

/// Appends the digits of `m` to `out`.
pub fn push_digits(out: &mut Vec<u8>, m: u64)
    ensures
        final(out)@ == old(out)@ + decimal_digits(m as nat),
    decreases m,
{
    if m >= 10 {
        push_digits(out, m / 10);
    }
    out.push((48 + m % 10) as u8);
    proof {
        if m < 10 {
            assert(final(out)@ =~= old(out)@ + decimal_digits(m as nat));
        } else {
            assert(final(out)@ =~= old(out)@ + decimal_digits(m as nat));
        }
    }
}

/// Appends the canonical text of `n` to `out`.
pub fn push_signed(out: &mut Vec<u8>, n: i64)
    ensures
        final(out)@ == old(out)@ + signed_text(n as int),
{
    if n < 0 {
        out.push(45u8);
        let m: u64 = if n == i64::MIN {
            9223372036854775808u64
        } else {
            (-n) as u64
        };
        push_digits(out, m);
        assert(final(out)@ =~= old(out)@ + signed_text(n as int));
    } else {
        push_digits(out, n as u64);
    }
}

proof fn lemma_digits_value_step(s: Seq<u8>, k: int)
    requires
        0 <= k < s.len(),
    ensures
        digits_value(s.subrange(0, k + 1)) == digits_value(s.subrange(0, k)) * 10 + (s[k] - 48) as nat,
{
    assert(s.subrange(0, k + 1).drop_last() =~= s.subrange(0, k));
}

/// Reads the digits `s[start..]` (at least one), capping the value at `cap`.
/// Returns `None` where a byte there is no digit.
fn digits_capped(s: &[u8], start: usize) -> (r: Option<u128>)
    requires
        start <= s@.len(),
    ensures
        match r {
            Some(v) => all_digits(s@.subrange(start as int, s@.len() as int)) && v as nat == if digits_value(
                s@.subrange(start as int, s@.len() as int),
            ) < DIGITS_CAP {
                digits_value(s@.subrange(start as int, s@.len() as int))
            } else {
                DIGITS_CAP as nat
            },
            None => !all_digits(s@.subrange(start as int, s@.len() as int)),
        },
{
    let mut v: u128 = 0;
    let mut i: usize = start;
    let ghost d = s@.subrange(start as int, s@.len() as int);
    while i < s.len()
        invariant
            start <= i <= s@.len(),
            d == s@.subrange(start as int, s@.len() as int),
            all_digits(d.subrange(0, i - start)),
            v as nat == if digits_value(d.subrange(0, i - start)) < DIGITS_CAP {
                digits_value(d.subrange(0, i - start))
            } else {
                DIGITS_CAP as nat
            },
        decreases s@.len() - i,
    {
        let b = s[i];
        if !(48 <= b && b <= 57) {
            assert(d[i - start] == b);
            return None;
        }
        proof {
            lemma_digits_value_step(d, i - start);
        }
        let ghost prev = digits_value(d.subrange(0, i - start));
        let ghost next = digits_value(d.subrange(0, i - start + 1));
        assert(v <= DIGITS_CAP);
        assert(v * 10 <= DIGITS_CAP * 10) by (nonlinear_arith)
            requires
                v <= DIGITS_CAP,
        ;
        let w: u128 = v * 10 + (b - 48) as u128;
        if w >= DIGITS_CAP {
            assert(next >= DIGITS_CAP) by (nonlinear_arith)
                requires
                    next == prev * 10 + (b - 48) as nat,
                    v as nat == if prev < DIGITS_CAP { prev } else { DIGITS_CAP as nat },
                    w as nat >= DIGITS_CAP,
                    w == v * 10 + (b - 48) as nat,
            ;
            v = DIGITS_CAP;
        } else {
            assert(prev < DIGITS_CAP) by (nonlinear_arith)
                requires
                    prev >= DIGITS_CAP ==> v == DIGITS_CAP,
                    w == v * 10 + (b - 48) as nat,
                    w < DIGITS_CAP,
            ;
            v = w;
        }
        i = i + 1;
        assert(all_digits(d.subrange(0, i - start))) by {
            assert forall|j: int| 0 <= j < i - start implies is_digit(
                #[trigger] d.subrange(0, i - start)[j],
            ) by {
                if j < i - start - 1 {
                    assert(d.subrange(0, i - start)[j] == d.subrange(0, i - start - 1)[j]);
                }
            }
        }
    }
    assert(d.subrange(0, i - start) =~= d);
    Some(v)
}

/// Above every magnitude that an `i64` can have.
pub const DIGITS_CAP: u128 = 9223372036854775809;

/// Reads an optionally signed decimal numeral as an `i64`.
pub fn parse_i64(s: &[u8]) -> (r: Option<i64>)
    ensures
        r == i64_of(s@),
{
    if s.len() == 0 {
        return None;
    }
    let signed = s[0] == 45u8 || s[0] == 43u8;
    let start: usize = if signed {
        1
    } else {
        0
    };
    if signed && s.len() == 1 {
        return None;
    }
    let ghost d = s@.subrange(start as int, s@.len() as int);
    assert(signed ==> d =~= s@.drop_first());
    assert(!signed ==> d =~= s@);
    match digits_capped(s, start) {
        None => None,
        Some(m) => {
            if s[0] == 45u8 {
                if m <= 9223372036854775808u128 {
                    if m == 9223372036854775808u128 {
                        Some(i64::MIN)
                    } else {
                        Some(-(m as i64))
                    }
                } else {
                    None
                }
            } else {
                if m <= 9223372036854775807u128 {
                    Some(m as i64)
                } else {
                    None
                }
            }
        },
    }
}

} // verus!
