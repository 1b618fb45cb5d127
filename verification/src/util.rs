//! Small text helpers shared with front-ends.

use vstd::prelude::*;
use vstd::string::StringSliceAdditionalSpecFns;
use crate::error::ResolveError;
use crate::error::msg_error;
use crate::pattern::is_hex_digit;
use crate::pattern::hex_value;

verus! {

broadcast use vstd::string::group_string_axioms;

/// Whether `b` is a digit of the given radix (ten or sixteen).
pub open spec fn is_digit(b: u8, radix: int) -> bool {
    if radix == 16 {
        is_hex_digit(b)
    } else {
        48 <= b <= 57
    }
}

/// The numeric value of a digit of the given radix.
pub open spec fn digit_value(b: u8, radix: int) -> int {
    if radix == 16 {
        hex_value(b) as int
    } else {
        b - 48
    }
}

/// The number the digit string `s` denotes in the given radix, if every
/// byte is a digit and there is at least one.
pub open spec fn spec_digits(s: Seq<u8>, radix: int) -> Option<int>
    decreases s.len(),
{
    if s.len() == 0 {
        None
    } else {
        let head = if s.len() == 1 {
            Some(0int)
        } else {
            spec_digits(s.drop_last(), radix)
        };
        match head {
            Some(v) => if is_digit(s.last(), radix) {
                Some(v * radix + digit_value(s.last(), radix))
            } else {
                None
            },
            None => None,
        }
    }
}

/// The number a numeral denotes: an optional leading `+`, then digits.
pub open spec fn spec_numeral(s: Seq<u8>, radix: int) -> Option<int> {
    if s.len() >= 1 && s[0] == 43 {
        spec_digits(s.subrange(1, s.len() as int), radix)
    } else {
        spec_digits(s, radix)
    }
}

/// The number `parse_maybe_hex` reads from the text whose bytes are `s`:
/// with a leading `0x` the rest as hexadecimal, else decimal.
pub open spec fn spec_maybe_hex(s: Seq<u8>) -> Option<int> {
    if s.len() >= 2 && s[0] == 48 && s[1] == 120 {
        spec_numeral(s.subrange(2, s.len() as int), 16)
    } else {
        spec_numeral(s, 10)
    }
}

proof fn lemma_digits_nonneg(s: Seq<u8>, radix: int)
    requires
        radix == 10 || radix == 16,
    ensures
        spec_digits(s, radix) matches Some(v) ==> v >= 0,
    decreases s.len(),
{
    if s.len() > 1 {
        lemma_digits_nonneg(s.drop_last(), radix)
    }
}

proof fn lemma_digits_grow(s: Seq<u8>, radix: int, j: int)
    requires
        radix == 10 || radix == 16,
        1 <= j <= s.len(),
        spec_digits(s, radix) is Some,
    ensures
        spec_digits(s.subrange(0, j), radix) matches Some(w) && w <= spec_digits(
            s,
            radix,
        )->Some_0,
    decreases s.len() - j,
{
    if j == s.len() {
        assert(s.subrange(0, j) =~= s);
    } else {
        lemma_digits_grow(s, radix, j + 1);
        let t = s.subrange(0, j + 1);
        assert(t.drop_last() =~= s.subrange(0, j));
        assert(t.last() == s[j]);
        lemma_digits_nonneg(s.subrange(0, j), radix);
        let w = spec_digits(s.subrange(0, j), radix)->Some_0;
        assert(spec_digits(t, radix)->Some_0 == w * radix + digit_value(s[j], radix));
        assert(w * radix >= w) by (nonlinear_arith)
            requires
                w >= 0,
                radix >= 1,
        ;
    }
}

proof fn lemma_digits_bad(s: Seq<u8>, radix: int, j: int)
    requires
        0 <= j < s.len(),
        spec_digits(s.subrange(0, j + 1), radix) is None,
    ensures
        spec_digits(s, radix) is None,
    decreases s.len() - j,
{
    if j + 1 == s.len() {
        assert(s.subrange(0, j + 1) =~= s);
    } else {
        let t = s.subrange(0, j + 2);
        assert(t.drop_last() =~= s.subrange(0, j + 1));
        lemma_digits_bad(s, radix, j + 1);
    }
}

fn parse_digits(s: &[u8], start: usize, radix: u8) -> (r: Result<usize, ResolveError>)
    requires
        start <= s@.len(),
        radix == 10 || radix == 16,
    ensures
        match spec_digits(s@.subrange(start as int, s@.len() as int), radix as int) {
            Some(v) => if v <= usize::MAX {
                r == Ok::<usize, ResolveError>(v as usize)
            } else {
                (r matches Err(e) && e.is_msg("invalid number"@))
            },
            None => (r matches Err(e) && e.is_msg("invalid number"@)),
        },
{
    let ghost digits = s@.subrange(start as int, s@.len() as int);
    let n = s.len();
    if start == n {
        return Err(msg_error("invalid number"));
    }
    let mut value: usize = 0;
    let mut i: usize = start;
    while i < n
        invariant
            start <= i <= n,
            n == s@.len(),
            radix == 10 || radix == 16,
            digits == s@.subrange(start as int, s@.len() as int),
            i > start ==> spec_digits(digits.subrange(0, i - start), radix as int) == Some(
                value as int,
            ),
            i == start ==> value == 0,
        decreases n - i,
    {
        let b = s[i];
        let d: u8 = if 48 <= b && b <= 57 {
            b - 48
        } else if radix == 16 && 65 <= b && b <= 70 {
            b - 55
        } else if radix == 16 && 97 <= b && b <= 102 {
            b - 87
        } else {
            proof {
                let j = i - start;
                let t = digits.subrange(0, j + 1);
                assert(t.last() == digits[j] == s@[i as int]);
                assert(t.drop_last() =~= digits.subrange(0, j));
                assert(spec_digits(t, radix as int) is None);
                lemma_digits_bad(digits, radix as int, j);
            }
            return Err(msg_error("invalid number"));
        };
        proof {
            assert(is_digit(s@[i as int], radix as int) && digit_value(s@[i as int], radix as int)
                == d);
        }
        if value > (usize::MAX - d as usize) / (radix as usize) {
            proof {
                let j = i - start;
                let t = digits.subrange(0, j + 1);
                assert(t.last() == digits[j]);
                assert(t.drop_last() =~= digits.subrange(0, j));
                let next = value * (radix as int) + d;
                assert(spec_digits(t, radix as int) == Some(next));
                assert(next > usize::MAX) by (nonlinear_arith)
                    requires
                        value > (usize::MAX - d) / (radix as int),
                        radix == 10 || radix == 16,
                        0 <= d < radix,
                        value >= 0,
                        next == value * (radix as int) + d,
                ;
                if spec_digits(digits, radix as int) is Some {
                    lemma_digits_grow(digits, radix as int, j + 1);
                }
            }
            return Err(msg_error("invalid number"));
        }
        proof {
            assert(value * (radix as int) + d <= usize::MAX) by (nonlinear_arith)
                requires
                    value <= (usize::MAX - d) / (radix as int),
                    radix == 10 || radix == 16,
                    0 <= d < radix,
                    value >= 0,
            ;
        }
        value = value * (radix as usize) + (d as usize);
        i = i + 1;
        proof {
            let j = i - start;
            let t = digits.subrange(0, j);
            assert(t.last() == digits[j - 1]);
            assert(t.drop_last() =~= digits.subrange(0, j - 1));
            assert(spec_digits(t, radix as int) == Some(value as int));
        }
    }
    proof {
        assert(digits.subrange(0, n - start) =~= digits);
    }
    Ok(value)
}

fn parse_numeral(s: &[u8], start: usize, radix: u8) -> (r: Result<usize, ResolveError>)
    requires
        start <= s@.len(),
        radix == 10 || radix == 16,
    ensures
        match spec_numeral(s@.subrange(start as int, s@.len() as int), radix as int) {
            Some(v) => if v <= usize::MAX {
                r == Ok::<usize, ResolveError>(v as usize)
            } else {
                (r matches Err(e) && e.is_msg("invalid number"@))
            },
            None => (r matches Err(e) && e.is_msg("invalid number"@)),
        },
{
    let ghost whole = s@.subrange(start as int, s@.len() as int);
    if start < s.len() && s[start] == 43 {
        let r = parse_digits(s, start + 1, radix);
        proof {
            assert(whole.subrange(1, whole.len() as int) =~= s@.subrange(
                start + 1,
                s@.len() as int,
            ));
        }
        r
    } else {
        parse_digits(s, start, radix)
    }
}

/// Reads a number from its text form: with a leading `0x` the rest is
/// hexadecimal, else the whole text is decimal. An optional `+` may precede
/// the digits. Anything else, or a value over `usize::MAX`, is refused.
pub fn parse_maybe_hex(s: &str) -> (r: Result<usize, ResolveError>)
    ensures
        match spec_maybe_hex(s.spec_bytes()) {
            Some(v) => if v <= usize::MAX {
                r == Ok::<usize, ResolveError>(v as usize)
            } else {
                (r matches Err(e) && e.is_msg("invalid number"@))
            },
            None => (r matches Err(e) && e.is_msg("invalid number"@)),
        },
{
    let b = s.as_bytes();
    if b.len() >= 2 && b[0] == 48 && b[1] == 120 {
        let r = parse_numeral(b, 2, 16);
        proof {
            assert(b@.subrange(2, b@.len() as int) =~= s.spec_bytes().subrange(
                2,
                s.spec_bytes().len() as int,
            ));
        }
        r
    } else {
        let r = parse_numeral(b, 0, 10);
        proof {
            assert(b@.subrange(0, b@.len() as int) =~= s.spec_bytes());
        }
        r
    }
}

} // verus!
