//! First-occurrence search for a byte pattern inside a byte sequence,
//! the primitive that response parsing is built on.
use vstd::prelude::*;

verus! {

/// True when pattern `p` occurs in `s` starting exactly at index `i`.
pub open spec fn match_at(s: Seq<u8>, p: Seq<u8>, i: int) -> bool {
    &&& 0 <= i
    &&& i + p.len() <= s.len()
    &&& s.subrange(i, i + p.len() as int) == p
}

/// Index of the first occurrence of `p` in `s` at or after `i`, if any.
/// An empty pattern is never found.
pub open spec fn spec_find(s: Seq<u8>, p: Seq<u8>, i: int) -> Option<int>
    recommends
        0 <= i,
    decreases s.len() - i,
{
    if i < 0 || p.len() == 0 || i + p.len() > s.len() {
        None
    } else if s.subrange(i, i + p.len() as int) == p {
        Some(i)
    } else {
        spec_find(s, p, i + 1)
    }
}

/// A successful search yields the first match at or after the start index.
pub proof fn lemma_find_some(s: Seq<u8>, p: Seq<u8>, i: int, j: int)
    requires
        spec_find(s, p, i) == Some(j),
    ensures
        i <= j,
        match_at(s, p, j),
        forall|k: int| i <= k < j ==> !match_at(s, p, k),
    decreases s.len() - i,
{
    if i < 0 || p.len() == 0 || i + p.len() > s.len() {
    } else if s.subrange(i, i + p.len() as int) == p {
    } else {
        lemma_find_some(s, p, i + 1, j);
    }
}

/// A failed search means no match exists anywhere at or after the start
/// index.
pub proof fn lemma_find_none(s: Seq<u8>, p: Seq<u8>, i: int)
    requires
        0 <= i,
        p.len() > 0,
        spec_find(s, p, i) is None,
    ensures
        forall|k: int| i <= k ==> !match_at(s, p, k),
    decreases s.len() - i,
{
    if i + p.len() > s.len() {
    } else {
        lemma_find_none(s, p, i + 1);
    }
}

/// Searching within a suffix of `s` finds the same occurrences, shifted
/// by the suffix's start.
pub proof fn lemma_find_shift(s: Seq<u8>, p: Seq<u8>, d: int, i: int)
    requires
        0 <= d <= i,
        d <= s.len(),
    ensures
        spec_find(s, p, i) == match spec_find(s.subrange(d, s.len() as int), p, i - d) {
            None => None::<int>,
            Some(j) => Some(j + d),
        },
    decreases s.len() - i,
{
    let t = s.subrange(d, s.len() as int);
    if p.len() == 0 || i + p.len() > s.len() {
    } else {
        assert(s.subrange(i, i + p.len() as int) =~= t.subrange(i - d, i - d + p.len() as int));
        if s.subrange(i, i + p.len() as int) == p {
        } else {
            lemma_find_shift(s, p, d, i + 1);
        }
    }
}

/// Whether `p` occurs in `s` starting exactly at index `i`.
fn match_here(s: &[u8], p: &[u8], i: usize) -> (r: bool)
    requires
        i + p@.len() <= s@.len(),
    ensures
        r == match_at(s@, p@, i as int),
{
    let n = s.len();
    let mut k: usize = 0;
    while k < p.len()
        invariant
            n == s@.len(),
            i + p@.len() <= s@.len(),
            k <= p@.len(),
            forall|m: int| 0 <= m < k ==> s@[i + m] == p@[m],
        decreases p@.len() - k,
    {
        if s[i + k] != p[k] {
            proof {
                if match_at(s@, p@, i as int) {
                    assert(s@.subrange(i as int, i + p@.len() as int)[k as int] == p@[k as int]);
                }
            }
            return false;
        }
        k += 1;
    }
    proof {
        assert(s@.subrange(i as int, i + p@.len() as int) =~= p@);
    }
    true
}

/// Finds the first occurrence of `p` in `s` at or after index `from`.
pub(crate) fn find_pattern(s: &[u8], p: &[u8], from: usize) -> (r: Option<usize>)
    ensures
        match r {
            Some(j) => {
                &&& from <= j
                &&& j + p@.len() <= s@.len()
                &&& spec_find(s@, p@, from as int) == Some(j as int)
            },
            None => spec_find(s@, p@, from as int) is None,
        },
{
    if p.len() == 0 || p.len() > s.len() {
        return None;
    }
    let bound: usize = s.len() - p.len();
    let mut i: usize = from;
    while i <= bound
        invariant
            from <= i,
            1 <= p@.len() <= s@.len() <= usize::MAX,
            bound == s@.len() - p@.len(),
            spec_find(s@, p@, from as int) == spec_find(s@, p@, i as int),
        decreases bound + 1 - i,
    {
        if match_here(s, p, i) {
            return Some(i);
        }
        i += 1;
    }
    None
}

} // verus!
