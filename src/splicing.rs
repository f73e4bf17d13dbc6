//! RNA splicing: locating introns, cutting them out, and translating the
//! remaining codons into a protein.
use vstd::prelude::*;
use vstd::multiset::Multiset;
use crate::overlap::{occurs_at, region_eq};

verus! {

/// A region `[start, end)` of a sequence, as a pair of integers.
pub type RegionView = (int, int);

/// The non-overlapping occurrences of `pat` in `text` from position `i` on,
/// found left to right, each as the region it covers. An empty pattern has
/// none.
pub open spec fn matches_from(pat: Seq<u8>, text: Seq<u8>, i: int) -> Seq<RegionView>
    decreases text.len() - i,
{
    if pat.len() == 0 || i < 0 || i + pat.len() > text.len() {
        seq![]
    } else if occurs_at(pat, text, i) {
        seq![(i, i + pat.len())] + matches_from(pat, text, i + pat.len())
    } else {
        matches_from(pat, text, i + 1)
    }
}

/// The occurrences of the first `k` introns in `template`, intron by intron.
pub open spec fn all_matches(template: Seq<u8>, introns: Seq<Seq<u8>>, k: int) -> Seq<RegionView>
    decreases k,
{
    if k <= 0 {
        seq![]
    } else {
        all_matches(template, introns, k - 1) + matches_from(introns[k - 1], template, 0)
    }
}

/// The integer view of each region.
pub open spec fn region_views(v: Seq<(usize, usize)>) -> Seq<RegionView> {
    Seq::new(v.len(), |q: int| (v[q].0 as int, v[q].1 as int))
}

/// The symbol sequence of each intron.
pub open spec fn seq_views(v: Seq<Vec<u8>>) -> Seq<Seq<u8>> {
    Seq::new(v.len(), |q: int| v[q]@)
}

/// Lexicographic order on regions.
pub open spec fn region_le(a: RegionView, b: RegionView) -> bool {
    a.0 < b.0 || (a.0 == b.0 && a.1 <= b.1)
}

/// The regions are in ascending order.
pub open spec fn sorted_regions(s: Seq<RegionView>) -> bool {
    forall|p: int, q: int| 0 <= p < q < s.len() ==> region_le(#[trigger] s[p], #[trigger] s[q])
}

/// Relies on `slice::sort`: it leaves the same elements, in ascending order
/// (tuples compare lexicographically).
#[verifier::external_body]
fn sort_regions(v: &mut Vec<(usize, usize)>)
    ensures
        region_views(final(v)@).to_multiset() == region_views(old(v)@).to_multiset(),
        sorted_regions(region_views(final(v)@)),
{
    v.sort();
}

/// Appends to `out` the non-overlapping occurrences of `pat` in `text`.
fn push_matches(text: &[u8], pat: &[u8], out: &mut Vec<(usize, usize)>)
    ensures
        region_views(final(out)@) == region_views(old(out)@) + matches_from(pat@, text@, 0),
{
    if pat.len() == 0 {
        assert(region_views(out@) =~= region_views(out@) + matches_from(pat@, text@, 0));
        return;
    }
    let ghost start = region_views(out@);
    let t_len = text.len();
    let p_len = pat.len();
    let mut i: usize = 0;
    while p_len <= t_len && i <= t_len - p_len
        invariant
            t_len == text@.len(),
            p_len == pat@.len(),
            p_len > 0,
            i <= t_len,
            start + matches_from(pat@, text@, 0) == region_views(out@) + matches_from(
                pat@,
                text@,
                i as int,
            ),
        decreases t_len - i,
    {
        if region_eq(text, i, pat, 0, p_len) {
            assert(pat@.subrange(0, p_len as int) =~= pat@);
            assert(occurs_at(pat@, text@, i as int));
            let ghost before = region_views(out@);
            out.push((i, i + p_len));
            assert(region_views(out@) =~= before.push((i as int, i + p_len)));
            assert(before + matches_from(pat@, text@, i as int) =~= region_views(out@)
                + matches_from(pat@, text@, i + p_len));
            i = i + p_len;
        } else {
            assert(pat@.subrange(0, p_len as int) =~= pat@);
            i = i + 1;
        }
    }
    assert(matches_from(pat@, text@, i as int) =~= seq![]);
    assert(region_views(out@) + matches_from(pat@, text@, i as int) =~= region_views(out@));
}

/// Every occurrence of every intron in the template (occurrences of one
/// intron do not overlap each other), as `(start, end)` regions in ascending
/// order.
pub fn find_introns(template: &[u8], introns: &Vec<Vec<u8>>) -> (r: Vec<(usize, usize)>)
    ensures
        region_views(r@).to_multiset() == all_matches(
            template@,
            seq_views(introns@),
            introns@.len() as int,
        ).to_multiset(),
        sorted_regions(region_views(r@)),
{
    let ghost iv = seq_views(introns@);
    let mut retval: Vec<(usize, usize)> = Vec::new();
    let mut k: usize = 0;
    assert(region_views(retval@) =~= all_matches(template@, iv, 0));
    while k < introns.len()
        invariant
            k <= introns@.len(),
            iv == seq_views(introns@),
            region_views(retval@) == all_matches(template@, iv, k as int),
        decreases introns.len() - k,
    {
        assert(iv[k as int] == introns@[k as int]@);
        push_matches(template, introns[k].as_slice(), &mut retval);
        k += 1;
    }
    sort_regions(&mut retval);
    retval
}

/// `s` with the region `[r.0, r.1)` cut out; defined when both ends lie in
/// `s` (an end before the start repeats what lies between them).
pub open spec fn cut(s: Seq<u8>, r: RegionView) -> Seq<u8> {
    s.subrange(0, r.0) + s.subrange(r.1, s.len() as int)
}

/// The regions cut out from the last to the first; `None` when a region
/// does not lie in what is left at its turn.
pub open spec fn splice_spec(s: Seq<u8>, regions: Seq<RegionView>) -> Option<Seq<u8>>
    decreases regions.len(),
{
    if regions.len() == 0 {
        Some(s)
    } else {
        let r = regions.last();
        if 0 <= r.0 <= s.len() && 0 <= r.1 <= s.len() {
            splice_spec(cut(s, r), regions.drop_last())
        } else {
            None
        }
    }
}

/// `s[0..start]` followed by `s[end..]`.
fn cut_region(s: &Vec<u8>, start: usize, end: usize) -> (r: Vec<u8>)
    requires
        start <= s@.len(),
        end <= s@.len(),
    ensures
        r@ == cut(s@, (start as int, end as int)),
{
    let mut out: Vec<u8> = Vec::new();
    let mut i: usize = 0;
    while i < start
        invariant
            i <= start <= s@.len(),
            out@ == s@.subrange(0, i as int),
        decreases start - i,
    {
        out.push(s[i]);
        assert(s@.subrange(0, i + 1) =~= s@.subrange(0, i as int).push(s@[i as int]));
        i += 1;
    }
    let mut j: usize = end;
    assert(out@ =~= s@.subrange(0, start as int) + s@.subrange(end as int, end as int));
    while j < s.len()
        invariant
            end <= j <= s@.len(),
            out@ == s@.subrange(0, start as int) + s@.subrange(end as int, j as int),
        decreases s.len() - j,
    {
        out.push(s[j]);
        assert(s@.subrange(0, start as int) + s@.subrange(end as int, j + 1) =~= (s@.subrange(
            0,
            start as int,
        ) + s@.subrange(end as int, j as int)).push(s@[j as int]));
        j += 1;
    }
    out
}

/// Cuts the regions out of `template`, the last region first; `None` when a
/// region does not lie in what is left at its turn.
pub fn splice_sequence(template: &[u8], introns: &Vec<(usize, usize)>) -> (r: Option<Vec<u8>>)
    ensures
        match r {
            Some(s) => splice_spec(template@, region_views(introns@)) == Some(s@),
            None => splice_spec(template@, region_views(introns@)) is None,
        },
{
    let ghost rv = region_views(introns@);
    let mut seq: Vec<u8> = Vec::new();
    let mut i: usize = 0;
    while i < template.len()
        invariant
            i <= template@.len(),
            seq@ == template@.subrange(0, i as int),
        decreases template.len() - i,
    {
        seq.push(template[i]);
        assert(template@.subrange(0, i + 1) =~= template@.subrange(0, i as int).push(
            template@[i as int],
        ));
        i += 1;
    }
    assert(template@.subrange(0, i as int) =~= template@);
    let mut t: usize = introns.len();
    assert(rv.take(t as int) =~= rv);
    while t > 0
        invariant
            t <= introns@.len(),
            rv == region_views(introns@),
            splice_spec(template@, rv) == splice_spec(seq@, rv.take(t as int)),
        decreases t,
    {
        let (start, end) = introns[t - 1];
        assert(rv.take(t as int).last() == (start as int, end as int));
        assert(rv.take(t as int).drop_last() =~= rv.take(t - 1));
        if start > seq.len() || end > seq.len() {
            return None;
        }
        seq = cut_region(&seq, start, end);
        t -= 1;
    }
    Some(seq)
}

pub const BASE_A: u8 = 65;

pub const BASE_C: u8 = 67;

pub const BASE_G: u8 = 71;

pub const BASE_T: u8 = 84;

/// What a codon stands for.
#[derive(Debug, Clone, Copy, PartialEq, Eq, Structural)]
pub enum Codon {
    /// An amino acid, by its one-letter code.
    Amino(u8),
    /// A stop codon: it adds nothing to the protein.
    Stop,
    /// Three bytes that are not a DNA codon.
    Unknown,
}

/// The standard genetic code, over the DNA alphabet.
pub open spec fn codon_spec(a: u8, b: u8, c: u8) -> Codon {
    match (a, b, c) {
        (BASE_T, BASE_T, BASE_T) => Codon::Amino('F' as u8),
        (BASE_T, BASE_T, BASE_C) => Codon::Amino('F' as u8),
        (BASE_T, BASE_T, BASE_A) => Codon::Amino('L' as u8),
        (BASE_T, BASE_T, BASE_G) => Codon::Amino('L' as u8),
        (BASE_C, BASE_T, BASE_T) => Codon::Amino('L' as u8),
        (BASE_C, BASE_T, BASE_C) => Codon::Amino('L' as u8),
        (BASE_C, BASE_T, BASE_A) => Codon::Amino('L' as u8),
        (BASE_C, BASE_T, BASE_G) => Codon::Amino('L' as u8),
        (BASE_A, BASE_T, BASE_T) => Codon::Amino('I' as u8),
        (BASE_A, BASE_T, BASE_C) => Codon::Amino('I' as u8),
        (BASE_A, BASE_T, BASE_A) => Codon::Amino('I' as u8),
        (BASE_A, BASE_T, BASE_G) => Codon::Amino('M' as u8),
        (BASE_G, BASE_T, BASE_T) => Codon::Amino('V' as u8),
        (BASE_G, BASE_T, BASE_C) => Codon::Amino('V' as u8),
        (BASE_G, BASE_T, BASE_A) => Codon::Amino('V' as u8),
        (BASE_G, BASE_T, BASE_G) => Codon::Amino('V' as u8),
        (BASE_T, BASE_C, BASE_T) => Codon::Amino('S' as u8),
        (BASE_T, BASE_C, BASE_C) => Codon::Amino('S' as u8),
        (BASE_T, BASE_C, BASE_A) => Codon::Amino('S' as u8),
        (BASE_T, BASE_C, BASE_G) => Codon::Amino('S' as u8),
        (BASE_C, BASE_C, BASE_T) => Codon::Amino('P' as u8),
        (BASE_C, BASE_C, BASE_C) => Codon::Amino('P' as u8),
        (BASE_C, BASE_C, BASE_A) => Codon::Amino('P' as u8),
        (BASE_C, BASE_C, BASE_G) => Codon::Amino('P' as u8),
        (BASE_A, BASE_C, BASE_T) => Codon::Amino('T' as u8),
        (BASE_A, BASE_C, BASE_C) => Codon::Amino('T' as u8),
        (BASE_A, BASE_C, BASE_A) => Codon::Amino('T' as u8),
        (BASE_A, BASE_C, BASE_G) => Codon::Amino('T' as u8),
        (BASE_G, BASE_C, BASE_T) => Codon::Amino('A' as u8),
        (BASE_G, BASE_C, BASE_C) => Codon::Amino('A' as u8),
        (BASE_G, BASE_C, BASE_A) => Codon::Amino('A' as u8),
        (BASE_G, BASE_C, BASE_G) => Codon::Amino('A' as u8),
        (BASE_T, BASE_A, BASE_T) => Codon::Amino('Y' as u8),
        (BASE_T, BASE_A, BASE_C) => Codon::Amino('Y' as u8),
        (BASE_T, BASE_A, BASE_A) => Codon::Stop,
        (BASE_T, BASE_A, BASE_G) => Codon::Stop,
        (BASE_C, BASE_A, BASE_T) => Codon::Amino('H' as u8),
        (BASE_C, BASE_A, BASE_C) => Codon::Amino('H' as u8),
        (BASE_C, BASE_A, BASE_A) => Codon::Amino('Q' as u8),
        (BASE_C, BASE_A, BASE_G) => Codon::Amino('Q' as u8),
        (BASE_A, BASE_A, BASE_T) => Codon::Amino('N' as u8),
        (BASE_A, BASE_A, BASE_C) => Codon::Amino('N' as u8),
        (BASE_A, BASE_A, BASE_A) => Codon::Amino('K' as u8),
        (BASE_A, BASE_A, BASE_G) => Codon::Amino('K' as u8),
        (BASE_G, BASE_A, BASE_T) => Codon::Amino('D' as u8),
        (BASE_G, BASE_A, BASE_C) => Codon::Amino('D' as u8),
        (BASE_G, BASE_A, BASE_A) => Codon::Amino('E' as u8),
        (BASE_G, BASE_A, BASE_G) => Codon::Amino('E' as u8),
        (BASE_T, BASE_G, BASE_T) => Codon::Amino('C' as u8),
        (BASE_T, BASE_G, BASE_C) => Codon::Amino('C' as u8),
        (BASE_T, BASE_G, BASE_A) => Codon::Stop,
        (BASE_T, BASE_G, BASE_G) => Codon::Amino('W' as u8),
        (BASE_C, BASE_G, BASE_T) => Codon::Amino('R' as u8),
        (BASE_C, BASE_G, BASE_C) => Codon::Amino('R' as u8),
        (BASE_C, BASE_G, BASE_A) => Codon::Amino('R' as u8),
        (BASE_C, BASE_G, BASE_G) => Codon::Amino('R' as u8),
        (BASE_A, BASE_G, BASE_T) => Codon::Amino('S' as u8),
        (BASE_A, BASE_G, BASE_C) => Codon::Amino('S' as u8),
        (BASE_A, BASE_G, BASE_A) => Codon::Amino('R' as u8),
        (BASE_A, BASE_G, BASE_G) => Codon::Amino('R' as u8),
        (BASE_G, BASE_G, BASE_T) => Codon::Amino('G' as u8),
        (BASE_G, BASE_G, BASE_C) => Codon::Amino('G' as u8),
        (BASE_G, BASE_G, BASE_A) => Codon::Amino('G' as u8),
        (BASE_G, BASE_G, BASE_G) => Codon::Amino('G' as u8),
        _ => Codon::Unknown,
    }
}

/// Looks up one codon in the standard genetic code.
pub fn codon(a: u8, b: u8, c: u8) -> (r: Codon)
    ensures
        r == codon_spec(a, b, c),
{
    match (a, b, c) {
        (BASE_T, BASE_T, BASE_T) => Codon::Amino('F' as u8),
        (BASE_T, BASE_T, BASE_C) => Codon::Amino('F' as u8),
        (BASE_T, BASE_T, BASE_A) => Codon::Amino('L' as u8),
        (BASE_T, BASE_T, BASE_G) => Codon::Amino('L' as u8),
        (BASE_C, BASE_T, BASE_T) => Codon::Amino('L' as u8),
        (BASE_C, BASE_T, BASE_C) => Codon::Amino('L' as u8),
        (BASE_C, BASE_T, BASE_A) => Codon::Amino('L' as u8),
        (BASE_C, BASE_T, BASE_G) => Codon::Amino('L' as u8),
        (BASE_A, BASE_T, BASE_T) => Codon::Amino('I' as u8),
        (BASE_A, BASE_T, BASE_C) => Codon::Amino('I' as u8),
        (BASE_A, BASE_T, BASE_A) => Codon::Amino('I' as u8),
        (BASE_A, BASE_T, BASE_G) => Codon::Amino('M' as u8),
        (BASE_G, BASE_T, BASE_T) => Codon::Amino('V' as u8),
        (BASE_G, BASE_T, BASE_C) => Codon::Amino('V' as u8),
        (BASE_G, BASE_T, BASE_A) => Codon::Amino('V' as u8),
        (BASE_G, BASE_T, BASE_G) => Codon::Amino('V' as u8),
        (BASE_T, BASE_C, BASE_T) => Codon::Amino('S' as u8),
        (BASE_T, BASE_C, BASE_C) => Codon::Amino('S' as u8),
        (BASE_T, BASE_C, BASE_A) => Codon::Amino('S' as u8),
        (BASE_T, BASE_C, BASE_G) => Codon::Amino('S' as u8),
        (BASE_C, BASE_C, BASE_T) => Codon::Amino('P' as u8),
        (BASE_C, BASE_C, BASE_C) => Codon::Amino('P' as u8),
        (BASE_C, BASE_C, BASE_A) => Codon::Amino('P' as u8),
        (BASE_C, BASE_C, BASE_G) => Codon::Amino('P' as u8),
        (BASE_A, BASE_C, BASE_T) => Codon::Amino('T' as u8),
        (BASE_A, BASE_C, BASE_C) => Codon::Amino('T' as u8),
        (BASE_A, BASE_C, BASE_A) => Codon::Amino('T' as u8),
        (BASE_A, BASE_C, BASE_G) => Codon::Amino('T' as u8),
        (BASE_G, BASE_C, BASE_T) => Codon::Amino('A' as u8),
        (BASE_G, BASE_C, BASE_C) => Codon::Amino('A' as u8),
        (BASE_G, BASE_C, BASE_A) => Codon::Amino('A' as u8),
        (BASE_G, BASE_C, BASE_G) => Codon::Amino('A' as u8),
        (BASE_T, BASE_A, BASE_T) => Codon::Amino('Y' as u8),
        (BASE_T, BASE_A, BASE_C) => Codon::Amino('Y' as u8),
        (BASE_T, BASE_A, BASE_A) => Codon::Stop,
        (BASE_T, BASE_A, BASE_G) => Codon::Stop,
        (BASE_C, BASE_A, BASE_T) => Codon::Amino('H' as u8),
        (BASE_C, BASE_A, BASE_C) => Codon::Amino('H' as u8),
        (BASE_C, BASE_A, BASE_A) => Codon::Amino('Q' as u8),
        (BASE_C, BASE_A, BASE_G) => Codon::Amino('Q' as u8),
        (BASE_A, BASE_A, BASE_T) => Codon::Amino('N' as u8),
        (BASE_A, BASE_A, BASE_C) => Codon::Amino('N' as u8),
        (BASE_A, BASE_A, BASE_A) => Codon::Amino('K' as u8),
        (BASE_A, BASE_A, BASE_G) => Codon::Amino('K' as u8),
        (BASE_G, BASE_A, BASE_T) => Codon::Amino('D' as u8),
        (BASE_G, BASE_A, BASE_C) => Codon::Amino('D' as u8),
        (BASE_G, BASE_A, BASE_A) => Codon::Amino('E' as u8),
        (BASE_G, BASE_A, BASE_G) => Codon::Amino('E' as u8),
        (BASE_T, BASE_G, BASE_T) => Codon::Amino('C' as u8),
        (BASE_T, BASE_G, BASE_C) => Codon::Amino('C' as u8),
        (BASE_T, BASE_G, BASE_A) => Codon::Stop,
        (BASE_T, BASE_G, BASE_G) => Codon::Amino('W' as u8),
        (BASE_C, BASE_G, BASE_T) => Codon::Amino('R' as u8),
        (BASE_C, BASE_G, BASE_C) => Codon::Amino('R' as u8),
        (BASE_C, BASE_G, BASE_A) => Codon::Amino('R' as u8),
        (BASE_C, BASE_G, BASE_G) => Codon::Amino('R' as u8),
        (BASE_A, BASE_G, BASE_T) => Codon::Amino('S' as u8),
        (BASE_A, BASE_G, BASE_C) => Codon::Amino('S' as u8),
        (BASE_A, BASE_G, BASE_A) => Codon::Amino('R' as u8),
        (BASE_A, BASE_G, BASE_G) => Codon::Amino('R' as u8),
        (BASE_G, BASE_G, BASE_T) => Codon::Amino('G' as u8),
        (BASE_G, BASE_G, BASE_C) => Codon::Amino('G' as u8),
        (BASE_G, BASE_G, BASE_A) => Codon::Amino('G' as u8),
        (BASE_G, BASE_G, BASE_G) => Codon::Amino('G' as u8),
        _ => Codon::Unknown,
    }
}

/// What one codon adds to a protein.
pub open spec fn residue(c: Codon) -> Seq<u8> {
    match c {
        Codon::Amino(x) => seq![x],
        _ => seq![],
    }
}

/// The protein of the first `n` codons of `rna`.
pub open spec fn translate_spec(rna: Seq<u8>, n: int) -> Seq<u8>
    decreases n,
{
    if n <= 0 {
        seq![]
    } else {
        let i = 3 * (n - 1);
        translate_spec(rna, n - 1) + residue(codon_spec(rna[i], rna[i + 1], rna[i + 2]))
    }
}

/// Translates `rna` codon by codon; stop codons and unknown codons add
/// nothing.
pub fn translate_rna(rna: &[u8]) -> (r: Vec<u8>)
    requires
        rna@.len() % 3 == 0,
    ensures
        r@ == translate_spec(rna@, rna@.len() as int / 3),
{
    let mut prot: Vec<u8> = Vec::new();
    let mut n: usize = 0;
    let r_len = rna.len();
    let count = r_len / 3;
    while n < count
        invariant
            r_len == rna@.len(),
            count == rna@.len() / 3,
            rna@.len() % 3 == 0,
            n <= count,
            prot@ == translate_spec(rna@, n as int),
        decreases count - n,
    {
        proof {
            let len = rna@.len() as int;
            assert(3 * n + 3 <= len) by (nonlinear_arith)
                requires
                    n < count,
                    count == len / 3,
                    len >= 0,
            ;
        }
        let i = 3 * n;
        let ghost before = prot@;
        match codon(rna[i], rna[i + 1], rna[i + 2]) {
            Codon::Amino(x) => {
                prot.push(x);
                assert(prot@ =~= before + seq![x]);
            },
            _ => {
                assert(prot@ =~= before + seq![]);
            },
        }
        n += 1;
    }
    prot
}

} // verus!
