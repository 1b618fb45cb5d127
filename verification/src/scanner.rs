//! The multi-pattern scanner: one pass over a section evaluates a whole
//! set of wildcarded patterns.

use vstd::prelude::*;
use crate::pattern::Pattern;
use crate::pattern::PatternModel;

verus! {

/// Whether the data byte `b` matches the `(mask, value)` pair `q`.
pub open spec fn pair_matches(q: (u8, u8), b: u8) -> bool {
    (b & q.0) == q.1
}

/// Whether the whole pattern `pairs` matches `data` at window position `i`.
///
/// This is the brute-force matching definition: every pair must match the
/// byte under it, and the window must lie fully inside `data`.
pub open spec fn window_matches(pairs: Seq<(u8, u8)>, data: Seq<u8>, i: int) -> bool {
    &&& 0 <= i
    &&& i + pairs.len() <= data.len()
    &&& forall|k: int| 0 <= k < pairs.len() ==> pair_matches(pairs[k], data[i + k])
}

/// Whether a window match of `p` at position `i` of a section based at
/// `base` is reported: the anchor must not push the address below zero.
pub open spec fn hit_reported(p: PatternModel, base: int, data: Seq<u8>, i: int) -> bool {
    window_matches(p.pairs, data, i) && base + i >= p.anchor
}

/// The address reported for a hit of `p` at window position `i`.
pub open spec fn hit_address(p: PatternModel, base: int, i: int) -> int {
    base + i - p.anchor
}

/// The matches of `p` among the window positions `0 .. n`, in ascending
/// window order.
pub open spec fn scan_upto(p: PatternModel, base: int, data: Seq<u8>, n: int) -> Seq<usize>
    decreases n,
{
    if n <= 0 {
        Seq::empty()
    } else {
        scan_upto(p, base, data, n - 1) + if hit_reported(p, base, data, n - 1) {
            seq![(hit_address(p, base, n - 1) as usize)]
        } else {
            Seq::empty()
        }
    }
}

/// The addresses at which `p` matches the section `(base, data)`: the
/// brute-force wildcard matches over every window position, each reported as
/// `base + i - anchor`, in ascending order.
pub open spec fn scan_matches(p: PatternModel, base: int, data: Seq<u8>) -> Seq<usize> {
    if p.pairs.len() <= data.len() {
        scan_upto(p, base, data, data.len() - p.pairs.len() + 1)
    } else {
        Seq::empty()
    }
}

/// A reported hit address lies between zero and `usize::MAX` whenever the
/// section itself fits the address space.
pub proof fn lemma_hit_address_in_range(p: PatternModel, base: int, data: Seq<u8>, i: int)
    requires
        p.wf(),
        base + data.len() <= usize::MAX,
        hit_reported(p, base, data, i),
    ensures
        0 <= hit_address(p, base, i) <= usize::MAX,
{
    assert(i + p.pairs.len() <= data.len());
}

/// An address stands among the matches of the window positions `0 .. n`
/// exactly when some window position below `n` is a reported hit for it.
pub proof fn lemma_scan_upto_membership(p: PatternModel, base: int, data: Seq<u8>, n: int)
    requires
        p.wf(),
        base + data.len() <= usize::MAX,
    ensures
        forall|va: usize|
            scan_upto(p, base, data, n).contains(va) <==> exists|i: int|
                0 <= i < n && hit_reported(p, base, data, i) && va == hit_address(p, base, i),
    decreases n,
{
    if n <= 0 {
    } else {
        lemma_scan_upto_membership(p, base, data, n - 1);
        let s = scan_upto(p, base, data, n);
        let prev = scan_upto(p, base, data, n - 1);
        if hit_reported(p, base, data, n - 1) {
            lemma_hit_address_in_range(p, base, data, n - 1);
            let x = hit_address(p, base, n - 1) as usize;
            assert(s =~= prev + seq![x]);
            assert forall|va: usize| s.contains(va) implies exists|i: int|
                0 <= i < n && hit_reported(p, base, data, i) && va == hit_address(p, base, i) by {
                let j = choose|j: int| 0 <= j < s.len() && s[j] == va;
                if j < prev.len() {
                    assert(prev.contains(va));
                } else {
                    assert(va == x);
                    assert(hit_reported(p, base, data, n - 1) && va == hit_address(
                        p,
                        base,
                        n - 1,
                    ));
                }
            }
            assert forall|va: usize|
                (exists|i: int|
                    0 <= i < n && hit_reported(p, base, data, i) && va == hit_address(
                        p,
                        base,
                        i,
                    )) implies s.contains(va) by {
                let i = choose|i: int|
                    0 <= i < n && hit_reported(p, base, data, i) && va == hit_address(p, base, i);
                if i < n - 1 {
                    assert(prev.contains(va));
                    let j = choose|j: int| 0 <= j < prev.len() && prev[j] == va;
                    assert(s[j] == va);
                } else {
                    assert(s[prev.len() as int] == va);
                }
            }
        } else {
            assert(s =~= prev);
            assert forall|va: usize|
                (exists|i: int|
                    0 <= i < n && hit_reported(p, base, data, i) && va == hit_address(
                        p,
                        base,
                        i,
                    )) implies s.contains(va) by {
                let i = choose|i: int|
                    0 <= i < n && hit_reported(p, base, data, i) && va == hit_address(p, base, i);
                assert(i < n - 1);
                assert(prev.contains(va));
            }
        }
    }
}

/// Matches are reported in strictly ascending address order.
pub proof fn lemma_scan_upto_ascending(p: PatternModel, base: int, data: Seq<u8>, n: int)
    requires
        p.wf(),
        base + data.len() <= usize::MAX,
    ensures
        forall|a: int, b: int|
            0 <= a < b < scan_upto(p, base, data, n).len() ==> scan_upto(p, base, data, n)[a]
                < scan_upto(p, base, data, n)[b],
    decreases n,
{
    if n <= 0 {
    } else {
        lemma_scan_upto_ascending(p, base, data, n - 1);
        lemma_scan_upto_membership(p, base, data, n - 1);
        let s = scan_upto(p, base, data, n);
        let prev = scan_upto(p, base, data, n - 1);
        if hit_reported(p, base, data, n - 1) {
            lemma_hit_address_in_range(p, base, data, n - 1);
            let x = hit_address(p, base, n - 1) as usize;
            assert(s =~= prev + seq![x]);
            assert forall|a: int, b: int| 0 <= a < b < s.len() implies s[a] < s[b] by {
                if b < prev.len() {
                    assert(prev[a] < prev[b]);
                } else {
                    // the element appended for window n - 1 exceeds every
                    // earlier hit address
                    assert(s[b] == x);
                    assert(prev.contains(prev[a]));
                    let i = choose|i: int|
                        0 <= i < n - 1 && hit_reported(p, base, data, i) && prev[a]
                            == hit_address(p, base, i);
                    lemma_hit_address_in_range(p, base, data, i);
                    assert(hit_address(p, base, i) < hit_address(p, base, n - 1));
                }
            }
        } else {
            assert(s =~= prev);
        }
    }
}

/// A pattern longer than the section matches nowhere in it.
pub proof fn lemma_pattern_longer_than_section(p: PatternModel, base: int, data: Seq<u8>)
    requires
        p.pairs.len() > data.len(),
    ensures
        scan_matches(p, base, data) == Seq::<usize>::empty(),
{
}

fn window_matches_at(p: &Pattern, data: &[u8], i: usize) -> (b: bool)
    requires
        i + p@.pairs.len() <= data@.len(),
    ensures
        b == window_matches(p@.pairs, data@, i as int),
{
    let plen = p.len();
    let dlen = data.len();
    let mut k: usize = 0;
    while k < plen
        invariant
            plen == p@.pairs.len(),
            dlen == data@.len(),
            i + plen <= dlen,
            k <= plen,
            forall|k2: int| 0 <= k2 < k ==> pair_matches(p@.pairs[k2], data@[i + k2]),
        decreases plen - k,
    {
        let (m, v) = p.pair_at(k);
        if (data[i + k] & m) != v {
            proof {
                assert(!pair_matches(p@.pairs[k as int], data@[i + k as int]));
            }
            return false;
        }
        k = k + 1;
    }
    true
}

fn scan_one(p: &Pattern, base: usize, data: &[u8]) -> (r: Vec<usize>)
    requires
        base + data@.len() <= usize::MAX,
        data@.len() < usize::MAX,
    ensures
        r@ == scan_matches(p@, base as int, data@),
{
    let plen = p.len();
    let anchor = p.anchor();
    let mut r: Vec<usize> = Vec::new();
    if plen > data.len() {
        return r;
    }
    let n = data.len() - plen + 1;
    let mut i: usize = 0;
    while i < n
        invariant
            plen == p@.pairs.len(),
            anchor == p@.anchor,
            base + data@.len() <= usize::MAX,
            plen <= data@.len(),
            n == data@.len() - plen + 1,
            i <= n,
            r@ == scan_upto(p@, base as int, data@, i as int),
        decreases n - i,
    {
        let hit = window_matches_at(p, data, i);
        if hit && base + i >= anchor {
            r.push(base + i - anchor);
            proof {
                assert(hit_reported(p@, base as int, data@, i as int));
                assert(r@ =~= scan_upto(p@, base as int, data@, i + 1));
            }
        } else {
            proof {
                assert(!hit_reported(p@, base as int, data@, i as int));
                assert(r@ =~= scan_upto(p@, base as int, data@, i + 1));
            }
        }
        i = i + 1;
    }
    r
}

/// Scans one contiguous memory section `(base, data)` for every pattern of
/// the set in a single pass.
///
/// For each input pattern the result holds the list of matching virtual
/// addresses, ascending, each equal to `base + window - anchor`; a window
/// whose anchored address would be negative is discarded. Patterns that
/// occur twice in the set each receive the full match list.
pub fn scan_pattern(patterns: &Vec<&Pattern>, base: usize, data: &[u8]) -> (r: Vec<Vec<usize>>)
    requires
        base + data@.len() <= usize::MAX,
        data@.len() < usize::MAX,
    ensures
        r@.len() == patterns@.len(),
        forall|j: int|
            0 <= j < patterns@.len() ==> r@[j]@ == scan_matches(patterns@[j]@, base as int, data@),
{
    let mut r: Vec<Vec<usize>> = Vec::new();
    let mut j: usize = 0;
    while j < patterns.len()
        invariant
            base + data@.len() <= usize::MAX,
            data@.len() < usize::MAX,
            j <= patterns@.len(),
            r@.len() == j,
            forall|j2: int|
                0 <= j2 < j ==> r@[j2]@ == scan_matches(patterns@[j2]@, base as int, data@),
        decreases patterns@.len() - j,
    {
        let hits = scan_one(patterns[j], base, data);
        r.push(hits);
        j = j + 1;
    }
    r
}

} // verus!
