//! Detection of suffix/prefix overlaps between two fragments.
use vstd::prelude::*;

verus! {

/// Why two fragments could not be overlapped.
#[derive(Debug, Clone, Copy, PartialEq, Eq, Structural)]
pub enum OverlapError {
    /// One of the fragments is shorter than the minimum overlap.
    InsufficientLength,
    /// The source's suffix of the minimum length does not occur in the target.
    NoOverlapFound,
    /// The suffix occurs in the target, but the match does not reach back to
    /// the target's first symbol.
    UnextendableMatch,
}

/// The last `k` symbols of `s`.
pub open spec fn suffix(s: Seq<u8>, k: int) -> Seq<u8> {
    s.subrange(s.len() - k, s.len() as int)
}

/// `pat` occurs in `text` starting at position `p`.
pub open spec fn occurs_at(pat: Seq<u8>, text: Seq<u8>, p: int) -> bool {
    0 <= p && p + pat.len() <= text.len() && text.subrange(p, p + pat.len()) == pat
}

/// The first position at or after `i` where `pat` occurs in `text`.
pub open spec fn find_from(pat: Seq<u8>, text: Seq<u8>, i: int) -> Option<int>
    decreases text.len() + 1 - i,
{
    if i < 0 || i + pat.len() > text.len() {
        None
    } else if occurs_at(pat, text, i) {
        Some(i)
    } else {
        find_from(pat, text, i + 1)
    }
}

/// What the overlap detector reports for `source`, `target` and the minimum
/// overlap `min_len`.
pub open spec fn overlap_spec(source: Seq<u8>, target: Seq<u8>, min_len: int) -> Result<
    int,
    OverlapError,
> {
    if source.len() < min_len || target.len() < min_len {
        Err(OverlapError::InsufficientLength)
    } else {
        match find_from(suffix(source, min_len), target, 0) {
            None => Err(OverlapError::NoOverlapFound),
            Some(p) => {
                let k = min_len + p;
                if k <= source.len() && target.subrange(0, k) == suffix(source, k) {
                    Ok(k)
                } else {
                    Err(OverlapError::UnextendableMatch)
                }
            },
        }
    }
}

/// A position reported by `find_from` is an occurrence, and none lies
/// between the starting point and it.
pub proof fn lemma_find_from(pat: Seq<u8>, text: Seq<u8>, i: int)
    requires
        0 <= i,
    ensures
        match find_from(pat, text, i) {
            Some(p) => i <= p && occurs_at(pat, text, p) && forall|q: int|
                i <= q < p ==> !occurs_at(pat, text, q),
            None => forall|q: int| i <= q ==> !occurs_at(pat, text, q),
        },
    decreases text.len() + 1 - i,
{
    if i + pat.len() <= text.len() && !occurs_at(pat, text, i) {
        lemma_find_from(pat, text, i + 1);
    }
}

/// When the target starts with the source's last `k` symbols, `k` is at
/// least the minimum, and the source's last `min_len` symbols occur nowhere
/// in the target before position `k - min_len`, the detector reports an
/// overlap of exactly `k`, hence at least `k`.
pub proof fn lemma_overlap_at_least_shared(source: Seq<u8>, target: Seq<u8>, min_len: int, k: int)
    requires
        0 <= min_len <= k,
        k <= source.len(),
        k <= target.len(),
        target.subrange(0, k) == suffix(source, k),
        forall|q: int| 0 <= q < k - min_len ==> !occurs_at(suffix(source, min_len), target, q),
    ensures
        overlap_spec(source, target, min_len) == Ok::<int, OverlapError>(k),
{
    let pat = suffix(source, min_len);
    assert(target.subrange(k - min_len, k) =~= suffix(target.subrange(0, k), min_len));
    assert(suffix(suffix(source, k), min_len) =~= pat);
    assert(occurs_at(pat, target, k - min_len));
    lemma_find_from(pat, target, 0);
}

/// A reported overlap is no shorter than the minimum and no longer than
/// either fragment.
pub proof fn lemma_overlap_bounds(source: Seq<u8>, target: Seq<u8>, min_len: int)
    requires
        0 <= min_len,
    ensures
        match overlap_spec(source, target, min_len) {
            Ok(k) => min_len <= k <= source.len() && k <= target.len(),
            Err(_) => true,
        },
{
    if source.len() >= min_len && target.len() >= min_len {
        lemma_find_from(suffix(source, min_len), target, 0);
    }
}

/// The integer view of a detector result.
pub open spec fn result_view(r: Result<usize, OverlapError>) -> Result<int, OverlapError> {
    match r {
        Ok(k) => Ok(k as int),
        Err(e) => Err(e),
    }
}

/// Compares `a[a_start..a_start + len]` with `b[b_start..b_start + len]`.
pub(crate) fn region_eq(a: &[u8], a_start: usize, b: &[u8], b_start: usize, len: usize) -> (r: bool)
    requires
        a_start + len <= a@.len(),
        b_start + len <= b@.len(),
    ensures
        r == (a@.subrange(a_start as int, a_start + len) == b@.subrange(
            b_start as int,
            b_start + len,
        )),
{
    let a_len = a.len();
    let b_len = b.len();
    let mut i: usize = 0;
    while i < len
        invariant
            i <= len,
            a_len == a@.len(),
            b_len == b@.len(),
            a_start + len <= a@.len(),
            b_start + len <= b@.len(),
            a@.subrange(a_start as int, a_start + i) =~= b@.subrange(b_start as int, b_start + i),
        decreases len - i,
    {
        if a[a_start + i] != b[b_start + i] {
            assert(a@.subrange(a_start as int, a_start + len)[i as int] != b@.subrange(
                b_start as int,
                b_start + len,
            )[i as int]);
            return false;
        }
        assert(a@.subrange(a_start as int, a_start + i + 1) =~= a@.subrange(
            a_start as int,
            a_start + i,
        ).push(a@[a_start + i]));
        assert(b@.subrange(b_start as int, b_start + i + 1) =~= b@.subrange(
            b_start as int,
            b_start + i,
        ).push(b@[b_start + i]));
        i += 1;
    }
    true
}

/// The first position in `target` where the last `k` symbols of `source`
/// occur, if any.
fn find_suffix(source: &[u8], target: &[u8], k: usize) -> (r: Option<usize>)
    requires
        k <= source@.len(),
    ensures
        match r {
            Some(p) => find_from(suffix(source@, k as int), target@, 0) == Some(p as int),
            None => find_from(suffix(source@, k as int), target@, 0) == None::<int>,
        },
{
    let ghost pat = suffix(source@, k as int);
    if target.len() < k {
        return None;
    }
    let start = source.len() - k;
    let t_len = target.len();
    let mut p: usize = 0;
    while p <= t_len - k
        invariant
            t_len == target@.len(),
            k == 0 ==> p == 0,
            k <= source@.len(),
            k <= target@.len(),
            start == source@.len() - k,
            pat == suffix(source@, k as int),
            p <= target@.len() - k + 1,
            find_from(pat, target@, 0) == find_from(pat, target@, p as int),
        decreases t_len - k + 1 - p,
    {
        let hit = region_eq(source, start, target, p, k);
        proof {
            if k == 0 {
                assert(source@.subrange(start as int, start + k) =~= target@.subrange(
                    p as int,
                    p + k,
                ));
            }
        }
        if hit {
            assert(occurs_at(pat, target@, p as int));
            return Some(p);
        }
        assert(!occurs_at(pat, target@, p as int));
        p += 1;
    }
    None
}

/// Length of the overlap of `lhs`'s suffix with `rhs`'s prefix, found from
/// the first occurrence of `lhs`'s last `k` symbols in `rhs`.
pub fn get_suffix_prefix_match(lhs: &[u8], rhs: &[u8], k: usize) -> (r: Result<usize, OverlapError>)
    ensures
        result_view(r) == overlap_spec(lhs@, rhs@, k as int),
{
    if lhs.len() < k || rhs.len() < k {
        return Err(OverlapError::InsufficientLength);
    }
    match find_suffix(lhs, rhs, k) {
        None => Err(OverlapError::NoOverlapFound),
        Some(p) => {
            proof {
                lemma_find_from(suffix(lhs@, k as int), rhs@, 0);
            }
            let ext = k + p;
            if ext <= lhs.len() && region_eq(lhs, lhs.len() - ext, rhs, 0, ext) {
                Ok(ext)
            } else {
                Err(OverlapError::UnextendableMatch)
            }
        },
    }
}

} // verus!
