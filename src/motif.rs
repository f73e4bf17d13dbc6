//! Protein-side helpers: UniProt accession names and N-glycosylation motifs.
use vstd::prelude::*;

verus! {

/// The position of the first underscore in `query` at or after `i`, or the
/// length of `query` when there is none.
pub open spec fn first_underscore(query: Seq<u8>, i: int) -> int
    decreases query.len() - i,
{
    if i < 0 || i >= query.len() {
        query.len() as int
    } else if query[i] == 95u8 {
        i
    } else {
        first_underscore(query, i + 1)
    }
}

/// The accession that a UniProt query names: the text before the first `_`
/// (`B5ZC00` for `B5ZC00_ECOLI`), or the whole query.
pub fn uniprot_id(query: &[u8]) -> (r: Vec<u8>)
    ensures
        r@ == query@.subrange(0, first_underscore(query@, 0)),
{
    let mut i: usize = 0;
    while i < query.len() && query[i] != 95u8
        invariant
            i <= query@.len(),
            first_underscore(query@, 0) == first_underscore(query@, i as int),
        decreases query.len() - i,
    {
        i += 1;
    }
    let mut out: Vec<u8> = Vec::new();
    let mut j: usize = 0;
    while j < i
        invariant
            j <= i <= query@.len(),
            out@ == query@.subrange(0, j as int),
        decreases i - j,
    {
        out.push(query[j]);
        assert(query@.subrange(0, j + 1) =~= query@.subrange(0, j as int).push(query@[j as int]));
        j += 1;
    }
    out
}

/// `N`, then anything but `P`, then `S` or `T`, then anything but `P`,
/// starting at position `i` of `s`.
pub open spec fn nglyco_at(s: Seq<u8>, i: int) -> bool {
    &&& 0 <= i
    &&& i + 4 <= s.len()
    &&& s[i] == 78u8
    &&& s[i + 1] != 80u8
    &&& (s[i + 2] == 83u8 || s[i + 2] == 84u8)
    &&& s[i + 3] != 80u8
}

/// The 1-based positions of the motifs that start among the first `i`
/// positions, in order.
pub open spec fn motif_positions(s: Seq<u8>, i: int) -> Seq<usize>
    decreases i,
{
    if i <= 0 {
        seq![]
    } else if nglyco_at(s, i - 1) {
        motif_positions(s, i - 1).push(i as usize)
    } else {
        motif_positions(s, i - 1)
    }
}

/// The 1-based positions of every motif in `seq`, in order (none in a
/// sequence shorter than 4).
pub fn identify_nglyco_motifs(seq: &[u8]) -> (r: Vec<usize>)
    ensures
        r@ == motif_positions(seq@, seq@.len() as int),
{
    let mut results: Vec<usize> = Vec::new();
    let n = seq.len();
    let mut i: usize = 0;
    while i < n
        invariant
            n == seq@.len(),
            i <= n,
            results@ == motif_positions(seq@, i as int),
        decreases n - i,
    {
        if 4 <= n - i && seq[i] == 78u8 && seq[i + 1] != 80u8 && (seq[i + 2] == 83u8 || seq[i + 2]
            == 84u8) && seq[i + 3] != 80u8 {
            results.push(i + 1);
        }
        i += 1;
    }
    results
}

} // verus!
