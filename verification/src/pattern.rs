//! Compiled wildcarded byte patterns and their text grammar.

use vstd::prelude::*;
use crate::error::ResolveError;
use crate::error::msg_error;

verus! {

use vstd::string::StringSliceAdditionalSpecFns;

broadcast use vstd::string::group_string_axioms;

/// The mathematical content of a compiled pattern: a sequence of
/// `(mask, value)` pairs and the anchor offset.
///
/// A data byte `b` matches a pair `(m, v)` when `b & m == v`; a zero mask is
/// a full wildcard, `0xF0`/`0x0F` masks are half-wildcard nibbles. The anchor
/// is subtracted from the hit position before a match is reported.
pub struct PatternModel {
    pub pairs: Seq<(u8, u8)>,
    pub anchor: int,
}

impl PatternModel {
    /// Anchors are never negative.
    pub open spec fn wf(self) -> bool {
        0 <= self.anchor
    }
}

/// A compiled wildcarded byte pattern, immutable once built.
///
/// The text grammar is whitespace-separated tokens: `HH` (two hex digits),
/// `??` (wildcard byte), `H?`/`?H` (half-wildcard nibble), and at most one
/// `|`, which anchors the pattern at the byte token that follows it.
pub struct Pattern {
    pairs: Vec<(u8, u8)>,
    anchor: usize,
}

impl View for Pattern {
    type V = PatternModel;

    closed spec fn view(&self) -> PatternModel {
        PatternModel { pairs: self.pairs@, anchor: self.anchor as int }
    }
}

/// Whether `b` is an ASCII whitespace byte that separates pattern tokens.
pub open spec fn is_space(b: u8) -> bool {
    b == 32 || b == 9 || b == 10 || b == 13
}

/// Whether `b` is an ASCII hex digit.
pub open spec fn is_hex_digit(b: u8) -> bool {
    (48 <= b <= 57) || (65 <= b <= 70) || (97 <= b <= 102)
}

/// The numeric value of an ASCII hex digit.
pub open spec fn hex_value(b: u8) -> u8 {
    if 48 <= b <= 57 {
        (b - 48) as u8
    } else if 65 <= b <= 70 {
        (b - 55) as u8
    } else {
        (b - 87) as u8
    }
}

/// The `(mask, value)` pair denoted by a two-byte pattern token, if any.
pub open spec fn spec_token_pair(c0: u8, c1: u8) -> Option<(u8, u8)> {
    if is_hex_digit(c0) && is_hex_digit(c1) {
        Some((0xffu8, (hex_value(c0) * 16 + hex_value(c1)) as u8))
    } else if c0 == 63 && c1 == 63 {
        Some((0u8, 0u8))
    } else if is_hex_digit(c0) && c1 == 63 {
        Some((0xf0u8, (hex_value(c0) * 16) as u8))
    } else if c0 == 63 && is_hex_digit(c1) {
        Some((0x0fu8, hex_value(c1)))
    } else {
        None
    }
}

/// Parses the token list of the byte suffix `s[i..]`.
///
/// The result carries the `(mask, value)` pairs of the suffix's byte tokens
/// and, if the suffix holds a `|` token, the index among those byte tokens at
/// which it stands. `None` means the suffix is not well-formed: a token of
/// the wrong shape, or a second `|`.
pub open spec fn spec_parse_from(s: Seq<u8>, i: int) -> Option<(Seq<(u8, u8)>, Option<int>)>
    decreases s.len() - i,
{
    if i >= s.len() || i < 0 {
        Some((Seq::empty(), None))
    } else if is_space(s[i]) {
        spec_parse_from(s, i + 1)
    } else if s[i] == 124 {
        // a `|` token must stand alone and anchor a byte token after it
        if i + 1 < s.len() && !is_space(s[i + 1]) {
            None
        } else {
            match spec_parse_from(s, i + 1) {
                Some((pairs, None)) => if pairs.len() >= 1 {
                    Some((pairs, Some(0)))
                } else {
                    None
                },
                _ => None,
            }
        }
    } else {
        // a byte token is exactly two bytes wide
        if i + 1 >= s.len() || (i + 2 < s.len() && !is_space(s[i + 2])) {
            None
        } else {
            match spec_token_pair(s[i], s[i + 1]) {
                Some(pq) => match spec_parse_from(s, i + 2) {
                    Some((pairs, a)) => Some(
                        (
                            seq![pq] + pairs,
                            match a {
                                Some(k) => Some(k + 1),
                                None => None,
                            },
                        ),
                    ),
                    None => None,
                },
                None => None,
            }
        }
    }
}

/// The pattern denoted by the text whose bytes are `s`, if it is well formed:
/// at least one byte token, at most one anchor mark.
pub open spec fn spec_parse_pattern(s: Seq<u8>) -> Option<PatternModel> {
    match spec_parse_from(s, 0) {
        Some((pairs, a)) => if pairs.len() >= 1 {
            Some(
                PatternModel {
                    pairs,
                    anchor: match a {
                        Some(k) => k,
                        None => 0,
                    },
                },
            )
        } else {
            None
        },
        None => None,
    }
}

/// A bar index returned by `spec_parse_from` never exceeds the number of
/// byte tokens of the suffix.
proof fn lemma_parse_from_anchor_bound(s: Seq<u8>, i: int)
    ensures
        spec_parse_from(s, i) matches Some((pairs, Some(k))) ==> 0 <= k <= pairs.len(),
    decreases s.len() - i,
{
    if i >= s.len() || i < 0 {
    } else if is_space(s[i]) {
        lemma_parse_from_anchor_bound(s, i + 1);
    } else if s[i] == 124 {
        lemma_parse_from_anchor_bound(s, i + 1);
    } else {
        if i + 2 <= s.len() {
            lemma_parse_from_anchor_bound(s, i + 2);
        }
    }
}

fn hex_digit_value(b: u8) -> (r: Option<u8>)
    ensures
        is_hex_digit(b) ==> r == Some(hex_value(b)),
        !is_hex_digit(b) ==> r is None,
{
    if 48 <= b && b <= 57 {
        Some(b - 48)
    } else if 65 <= b && b <= 70 {
        Some(b - 55)
    } else if 97 <= b && b <= 102 {
        Some(b - 87)
    } else {
        None
    }
}

fn token_pair(c0: u8, c1: u8) -> (r: Option<(u8, u8)>)
    ensures
        r == spec_token_pair(c0, c1),
{
    let d0 = hex_digit_value(c0);
    let d1 = hex_digit_value(c1);
    match (d0, d1) {
        (Some(h0), Some(h1)) => Some((0xffu8, h0 * 16 + h1)),
        (None, Some(h1)) => if c0 == 63 {
            Some((0x0fu8, h1))
        } else {
            None
        },
        (Some(h0), None) => if c1 == 63 {
            Some((0xf0u8, h0 * 16))
        } else {
            None
        },
        (None, None) => if c0 == 63 && c1 == 63 {
            Some((0u8, 0u8))
        } else {
            None
        },
    }
}

fn parse_from(s: &[u8], i: usize) -> (r: Option<(Vec<(u8, u8)>, Option<usize>)>)
    requires
        i <= s@.len(),
    ensures
        match spec_parse_from(s@, i as int) {
            Some((pairs, a)) => r matches Some((v, va)) && v@ == pairs && match a {
                Some(k) => va matches Some(ke) && ke == k,
                None => va is None,
            },
            None => r is None,
        },
    decreases s@.len() - i,
{
    proof {
        lemma_parse_from_anchor_bound(s@, i + 1);
        lemma_parse_from_anchor_bound(s@, i + 2);
    }
    if i >= s.len() {
        Some((Vec::new(), None))
    } else {
        let b = s[i];
        if b == 32 || b == 9 || b == 10 || b == 13 {
            parse_from(s, i + 1)
        } else if b == 124 {
            if i + 1 < s.len() {
                let b1 = s[i + 1];
                if !(b1 == 32 || b1 == 9 || b1 == 10 || b1 == 13) {
                    return None;
                }
            }
            match parse_from(s, i + 1) {
                Some((pairs, None)) => if pairs.len() >= 1 {
                    Some((pairs, Some(0)))
                } else {
                    None
                },
                _ => None,
            }
        } else {
            if i + 1 >= s.len() {
                return None;
            }
            if i + 2 < s.len() {
                let b2 = s[i + 2];
                if !(b2 == 32 || b2 == 9 || b2 == 10 || b2 == 13) {
                    return None;
                }
            }
            match token_pair(b, s[i + 1]) {
                Some(pq) => match parse_from(s, i + 2) {
                    Some((mut pairs, a)) => {
                        let ghost pre_len = pairs@.len();
                        pairs.insert(0, pq);
                        let plen = pairs.len();
                        let anchor = match a {
                            Some(k) => {
                                proof {
                                    assert(k as int <= pre_len);
                                    assert(plen == pre_len + 1);
                                }
                                Some(k + 1)
                            },
                            None => None,
                        };
                        Some((pairs, anchor))
                    },
                    None => None,
                },
                None => None,
            }
        }
    }
}

impl Pattern {
    /// Compiles a pattern from its text form.
    ///
    /// Returns exactly the pattern the grammar denotes, or an error when the
    /// text is not a well-formed pattern.
    pub fn new(s: &str) -> (r: Result<Pattern, ResolveError>)
        ensures
            match spec_parse_pattern(s.spec_bytes()) {
                Some(m) => r matches Ok(p) && p@ == m,
                None => (r matches Err(e) && e.is_msg("invalid pattern"@)),
            },
    {
        let bytes = s.as_bytes();
        match parse_from(bytes, 0) {
            Some((pairs, a)) => {
                if pairs.len() == 0 {
                    Err(msg_error("invalid pattern"))
                } else {
                    let anchor = match a {
                        Some(k) => k,
                        None => 0,
                    };
                    Ok(Pattern { pairs, anchor })
                }
            },
            None => Err(msg_error("invalid pattern")),
        }
    }

    /// The number of byte positions this pattern occupies.
    pub fn len(&self) -> (n: usize)
        ensures
            n == self@.pairs.len(),
    {
        self.pairs.len()
    }

    /// The anchor offset, subtracted from the hit position on a match.
    pub fn anchor(&self) -> (a: usize)
        ensures
            a == self@.anchor,
    {
        self.anchor
    }

    /// Every compiled pattern has a well-formed model.
    pub proof fn lemma_wf(&self)
        ensures
            self@.wf(),
    {
    }

    /// The `(mask, value)` pair at byte position `k`.
    pub fn pair_at(&self, k: usize) -> (p: (u8, u8))
        requires
            k < self@.pairs.len(),
        ensures
            p == self@.pairs[k as int],
    {
        self.pairs[k]
    }
}

impl Clone for Pattern {
    /// A clone denotes the same pattern.
    fn clone(&self) -> (r: Self)
        ensures
            r@ == self@,
    {
        let mut pairs: Vec<(u8, u8)> = Vec::new();
        let mut k: usize = 0;
        while k < self.pairs.len()
            invariant
                k <= self.pairs@.len(),
                pairs@ == self.pairs@.subrange(0, k as int),
            decreases self.pairs@.len() - k,
        {
            pairs.push(self.pairs[k]);
            k = k + 1;
            proof {
                assert(pairs@ =~= self.pairs@.subrange(0, k as int));
            }
        }
        proof {
            assert(pairs@ =~= self.pairs@);
        }
        Pattern { pairs, anchor: self.anchor }
    }
}

} // verus!
