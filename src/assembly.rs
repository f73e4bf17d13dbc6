//! Greedy overlap assembly: an overlap index over all ordered pairs of
//! fragments, a first-fit choice of disjoint pairs at the greatest overlap,
//! and rounds of merging until one fragment is left.
use vstd::prelude::*;
use crate::overlap::{get_suffix_prefix_match, lemma_overlap_bounds, overlap_spec};

verus! {

/// A spec-level overlap record: (source index, target index, overlap length).
pub type RecordView = (int, int, int);

/// The overlap length that the index records for the ordered pair `(i, j)`,
/// or 0 where it records nothing.
pub open spec fn overlap_len(f: Seq<Seq<u8>>, m: int, i: int, j: int) -> int {
    match overlap_spec(f[i], f[j], m) {
        Ok(k) => if i != j && k > 0 {
            k
        } else {
            0
        },
        Err(_) => 0,
    }
}

/// The records of source `i` against the targets `0..j`, in target order.
pub open spec fn row_records(f: Seq<Seq<u8>>, m: int, i: int, j: int) -> Seq<RecordView>
    decreases j,
{
    if j <= 0 {
        seq![]
    } else {
        let prev = row_records(f, m, i, j - 1);
        if overlap_len(f, m, i, j - 1) > 0 {
            prev.push((i, j - 1, overlap_len(f, m, i, j - 1)))
        } else {
            prev
        }
    }
}

/// The records of the sources `0..i` against every target, source by source.
pub open spec fn all_records(f: Seq<Seq<u8>>, m: int, i: int) -> Seq<RecordView>
    decreases i,
{
    if i <= 0 {
        seq![]
    } else {
        all_records(f, m, i - 1) + row_records(f, m, i - 1, f.len() as int)
    }
}

/// The overlap index of a fragment set: every ordered pair with a positive
/// overlap, in pair-generation order.
pub open spec fn overlap_index(f: Seq<Seq<u8>>, m: int) -> Seq<RecordView> {
    all_records(f, m, f.len() as int)
}

/// The greatest overlap length among `recs`.
pub open spec fn max_length(recs: Seq<RecordView>) -> int
    decreases recs.len(),
{
    if recs.len() == 0 {
        0
    } else if recs.len() == 1 {
        recs[0].2
    } else {
        let rest = max_length(recs.drop_last());
        if recs.last().2 > rest {
            recs.last().2
        } else {
            rest
        }
    }
}

/// The records of length `k`, in their stored order.
pub open spec fn group_at(recs: Seq<RecordView>, k: int) -> Seq<RecordView>
    decreases recs.len(),
{
    if recs.len() == 0 {
        seq![]
    } else {
        let g = group_at(recs.drop_last(), k);
        if recs.last().2 == k {
            g.push(recs.last())
        } else {
            g
        }
    }
}

/// Index `x` is a source or a target of one of the records in `sel`.
pub open spec fn uses(sel: Seq<RecordView>, x: int) -> bool {
    exists|q: int| 0 <= q < sel.len() && ((#[trigger] sel[q]).0 == x || sel[q].1 == x)
}

/// First-fit choice over the first `t` records of `g`: a record is taken when
/// neither of its indices is used by a record taken before it.
pub open spec fn select(g: Seq<RecordView>, t: int) -> Seq<RecordView>
    decreases t,
{
    if t <= 0 {
        seq![]
    } else {
        let prev = select(g, t - 1);
        let r = g[t - 1];
        if uses(prev, r.0) || uses(prev, r.1) {
            prev
        } else {
            prev.push(r)
        }
    }
}

/// The pairs that a round merges.
pub open spec fn selected(f: Seq<Seq<u8>>, m: int) -> Seq<RecordView> {
    let g = group_at(overlap_index(f, m), max_length(overlap_index(f, m)));
    select(g, g.len() as int)
}

/// `a` followed by what of `b` lies past its first `k` symbols.
pub open spec fn merge_spec(a: Seq<u8>, b: Seq<u8>, k: int) -> Seq<u8> {
    a + b.subrange(k, b.len() as int)
}

/// The merged fragment of each selected pair, in selection order.
pub open spec fn merged(f: Seq<Seq<u8>>, sel: Seq<RecordView>, k: int) -> Seq<Seq<u8>> {
    Seq::new(sel.len(), |q: int| merge_spec(f[sel[q].0], f[sel[q].1], k))
}

/// The fragments among `0..i` that no selected pair touches, in order.
pub open spec fn untouched(f: Seq<Seq<u8>>, sel: Seq<RecordView>, i: int) -> Seq<Seq<u8>>
    decreases i,
{
    if i <= 0 {
        seq![]
    } else {
        let u = untouched(f, sel, i - 1);
        if uses(sel, i - 1) {
            u
        } else {
            u.push(f[i - 1])
        }
    }
}

/// One assembly round: `None` when the overlap index is empty, else the next
/// fragment set.
pub open spec fn round_spec(f: Seq<Seq<u8>>, m: int) -> Option<Seq<Seq<u8>>> {
    if overlap_index(f, m).len() == 0 {
        None
    } else {
        let sel = selected(f, m);
        Some(
            merged(f, sel, max_length(overlap_index(f, m))) + untouched(f, sel, f.len() as int),
        )
    }
}

/// The state after at most `n` rounds from `f`; `None` once a round is stuck.
/// A set of one fragment (or none) is final.
pub open spec fn run(f: Seq<Seq<u8>>, m: int, n: nat) -> Option<Seq<Seq<u8>>>
    decreases n,
{
    if n == 0 || f.len() <= 1 {
        Some(f)
    } else {
        match round_spec(f, m) {
            None => None,
            Some(g) => run(g, m, (n - 1) as nat),
        }
    }
}

/// How many of the indices `0..i` the records in `sel` use.
pub open spec fn count_used(sel: Seq<RecordView>, i: int) -> int
    decreases i,
{
    if i <= 0 {
        0
    } else {
        count_used(sel, i - 1) + if uses(sel, i - 1) {
            1int
        } else {
            0int
        }
    }
}

/// A record as the index makes it for `f`.
pub open spec fn record_wf(f: Seq<Seq<u8>>, m: int, r: RecordView) -> bool {
    &&& 0 <= r.0 < f.len()
    &&& 0 <= r.1 < f.len()
    &&& r.0 != r.1
    &&& r.2 > 0
    &&& overlap_spec(f[r.0], f[r.1], m) == Ok::<int, crate::overlap::OverlapError>(r.2)
}

/// Every record of `recs` is one that the index makes for `f`.
pub open spec fn all_wf(f: Seq<Seq<u8>>, m: int, recs: Seq<RecordView>) -> bool {
    forall|q: int| 0 <= q < recs.len() ==> record_wf(f, m, #[trigger] recs[q])
}

proof fn lemma_row_wf(f: Seq<Seq<u8>>, m: int, i: int, j: int)
    requires
        0 <= i < f.len(),
        0 <= j <= f.len(),
    ensures
        all_wf(f, m, row_records(f, m, i, j)),
    decreases j,
{
    if j > 0 {
        lemma_row_wf(f, m, i, j - 1);
    }
}

proof fn lemma_index_wf(f: Seq<Seq<u8>>, m: int, i: int)
    requires
        0 <= i <= f.len(),
    ensures
        all_wf(f, m, all_records(f, m, i)),
    decreases i,
{
    if i > 0 {
        lemma_index_wf(f, m, i - 1);
        lemma_row_wf(f, m, i - 1, f.len() as int);
        let a = all_records(f, m, i - 1);
        let b = row_records(f, m, i - 1, f.len() as int);
        assert forall|q: int| 0 <= q < (a + b).len() implies record_wf(f, m, #[trigger] (a + b)[q]) by {
            if q < a.len() {
                assert((a + b)[q] == a[q]);
            } else {
                assert((a + b)[q] == b[q - a.len()]);
            }
        }
    }
}

proof fn lemma_group_wf(f: Seq<Seq<u8>>, m: int, recs: Seq<RecordView>, k: int)
    requires
        all_wf(f, m, recs),
    ensures
        all_wf(f, m, group_at(recs, k)),
        forall|q: int| 0 <= q < group_at(recs, k).len() ==> (#[trigger] group_at(recs, k)[q]).2 == k,
    decreases recs.len(),
{
    if recs.len() > 0 {
        assert(all_wf(f, m, recs.drop_last()));
        lemma_group_wf(f, m, recs.drop_last(), k);
    }
}

proof fn lemma_max_group_nonempty(recs: Seq<RecordView>)
    requires
        recs.len() > 0,
    ensures
        group_at(recs, max_length(recs)).len() > 0,
    decreases recs.len(),
{
    if recs.len() > 1 {
        let k = max_length(recs);
        if recs.last().2 != k {
            lemma_max_group_nonempty(recs.drop_last());
        }
    } else {
        assert(recs.drop_last().len() == 0);
    }
}

/// Pushing a record adds exactly its two indices to those used.
pub proof fn lemma_uses_push(sel: Seq<RecordView>, r: RecordView, x: int)
    ensures
        uses(sel.push(r), x) == (uses(sel, x) || x == r.0 || x == r.1),
{
    let pushed = sel.push(r);
    if uses(sel, x) {
        let q = choose|q: int| 0 <= q < sel.len() && ((#[trigger] sel[q]).0 == x || sel[q].1 == x);
        assert(pushed[q] == sel[q]);
    }
    if x == r.0 || x == r.1 {
        assert(pushed[sel.len() as int] == r);
    }
    if uses(pushed, x) {
        let q = choose|q: int| 0 <= q < pushed.len() && ((#[trigger] pushed[q]).0 == x || pushed[q].1 == x);
        if q < sel.len() {
            assert(pushed[q] == sel[q]);
        }
    }
}

proof fn lemma_select_wf(f: Seq<Seq<u8>>, m: int, g: Seq<RecordView>, t: int)
    requires
        all_wf(f, m, g),
        0 <= t <= g.len(),
    ensures
        all_wf(f, m, select(g, t)),
    decreases t,
{
    if t > 0 {
        lemma_select_wf(f, m, g, t - 1);
    }
}

proof fn lemma_select_nonempty(g: Seq<RecordView>, t: int)
    requires
        1 <= t <= g.len(),
    ensures
        select(g, t).len() >= 1,
    decreases t,
{
    if t > 1 {
        lemma_select_nonempty(g, t - 1);
    } else {
        assert(select(g, 0).len() == 0);
        assert(!uses(select(g, 0), g[0].0));
        assert(!uses(select(g, 0), g[0].1));
    }
}

proof fn lemma_count_push(sel: Seq<RecordView>, r: RecordView, i: int)
    requires
        !uses(sel, r.0),
        !uses(sel, r.1),
        r.0 != r.1,
    ensures
        count_used(sel.push(r), i) == count_used(sel, i) + (if 0 <= r.0 < i {
            1int
        } else {
            0int
        }) + (if 0 <= r.1 < i {
            1int
        } else {
            0int
        }),
    decreases i,
{
    if i > 0 {
        lemma_count_push(sel, r, i - 1);
        lemma_uses_push(sel, r, i - 1);
    }
}

proof fn lemma_select_count(f: Seq<Seq<u8>>, m: int, g: Seq<RecordView>, t: int)
    requires
        all_wf(f, m, g),
        0 <= t <= g.len(),
    ensures
        count_used(select(g, t), f.len() as int) == 2 * select(g, t).len(),
    decreases t,
{
    if t > 0 {
        lemma_select_count(f, m, g, t - 1);
        let prev = select(g, t - 1);
        let r = g[t - 1];
        assert(record_wf(f, m, r));
        if !(uses(prev, r.0) || uses(prev, r.1)) {
            lemma_count_push(prev, r, f.len() as int);
        }
    } else {
        lemma_count_empty(select(g, t), f.len() as int);
    }
}

proof fn lemma_count_empty(sel: Seq<RecordView>, i: int)
    requires
        sel.len() == 0,
    ensures
        count_used(sel, i) == 0,
    decreases i,
{
    if i > 0 {
        lemma_count_empty(sel, i - 1);
    }
}

proof fn lemma_untouched_len(f: Seq<Seq<u8>>, sel: Seq<RecordView>, i: int)
    requires
        0 <= i,
    ensures
        untouched(f, sel, i).len() + count_used(sel, i) == i,
    decreases i,
{
    if i > 0 {
        lemma_untouched_len(f, sel, i - 1);
    }
}

/// Whenever the overlap index of a fragment set is non-empty, a round
/// succeeds and leaves strictly fewer fragments.
pub proof fn lemma_round_shrinks(f: Seq<Seq<u8>>, m: int)
    requires
        overlap_index(f, m).len() > 0,
    ensures
        round_spec(f, m) is Some,
        round_spec(f, m).unwrap().len() < f.len(),
        round_spec(f, m).unwrap().len() >= 1,
{
    let recs = overlap_index(f, m);
    let k = max_length(recs);
    let g = group_at(recs, k);
    let sel = selected(f, m);
    lemma_index_wf(f, m, f.len() as int);
    lemma_group_wf(f, m, recs, k);
    lemma_max_group_nonempty(recs);
    lemma_select_nonempty(g, g.len() as int);
    lemma_select_count(f, m, g, g.len() as int);
    lemma_untouched_len(f, sel, f.len() as int);
}


/// An overlap record as the index stores it.
#[derive(Debug, Clone, Copy, PartialEq, Eq, Structural)]
pub struct OverlapRecord {
    pub source: usize,
    pub target: usize,
    pub length: usize,
}

impl View for OverlapRecord {
    type V = RecordView;

    open spec fn view(&self) -> RecordView {
        (self.source as int, self.target as int, self.length as int)
    }
}

/// Why an assembly could not finish.
#[derive(Debug, Clone, Copy, PartialEq, Eq, Structural)]
pub enum AssemblyError {
    /// More than one fragment is left and no pair of them overlaps.
    NoProgressPossible,
}

/// The integer view of each stored record.
pub open spec fn record_views(s: Seq<OverlapRecord>) -> Seq<RecordView> {
    Seq::new(s.len(), |q: int| s[q]@)
}

/// The symbol sequence of each fragment.
pub open spec fn fragment_views(s: Seq<Vec<u8>>) -> Seq<Seq<u8>> {
    Seq::new(s.len(), |q: int| s[q]@)
}

/// `pairs` holds the source and target of each record of `sel`, in order.
pub open spec fn pairs_match(pairs: Seq<(usize, usize)>, sel: Seq<RecordView>) -> bool {
    &&& pairs.len() == sel.len()
    &&& forall|q: int|
        0 <= q < pairs.len() ==> (#[trigger] pairs[q]).0 == sel[q].0 && pairs[q].1 == sel[q].1
}

/// All ordered pairs of distinct fragments with a positive overlap, source by
/// source and target by target.
pub fn build_overlap_index(fragments: &Vec<Vec<u8>>, min_overlap: usize) -> (r: Vec<
    OverlapRecord,
>)
    ensures
        record_views(r@) == overlap_index(fragment_views(fragments@), min_overlap as int),
{
    let ghost f = fragment_views(fragments@);
    let ghost m = min_overlap as int;
    let n = fragments.len();
    let mut recs: Vec<OverlapRecord> = Vec::new();
    let mut i: usize = 0;
    while i < n
        invariant
            n == fragments@.len(),
            f == fragment_views(fragments@),
            m == min_overlap as int,
            i <= n,
            record_views(recs@) == all_records(f, m, i as int),
        decreases n - i,
    {
        let mut j: usize = 0;
        assert(all_records(f, m, i as int) + row_records(f, m, i as int, 0) =~= all_records(
            f,
            m,
            i as int,
        ));
        while j < n
            invariant
                n == fragments@.len(),
                f == fragment_views(fragments@),
                m == min_overlap as int,
                i < n,
                j <= n,
                record_views(recs@) == all_records(f, m, i as int) + row_records(
                    f,
                    m,
                    i as int,
                    j as int,
                ),
            decreases n - j,
        {
            let ghost before = recs@;
            let ghost row = row_records(f, m, i as int, j as int);
            if i != j {
                let res = get_suffix_prefix_match(
                    fragments[i].as_slice(),
                    fragments[j].as_slice(),
                    min_overlap,
                );
                match res {
                    Ok(k) => {
                        if k > 0 {
                            recs.push(OverlapRecord { source: i, target: j, length: k });
                        }
                    },
                    Err(_) => {},
                }
            }
            proof {
                assert(f[i as int] == fragments@[i as int]@);
                assert(f[j as int] == fragments@[j as int]@);
                if recs@.len() > before.len() {
                    assert(record_views(recs@) =~= record_views(before).push(recs@.last()@));
                    assert((all_records(f, m, i as int) + row).push(recs@.last()@) =~= all_records(
                        f,
                        m,
                        i as int,
                    ) + row.push(recs@.last()@));
                } else {
                    assert(recs@ == before);
                }
            }
            j += 1;
        }
        assert(f.len() == n);
        i += 1;
    }
    recs
}

/// The greatest length among the records, or 0 when there are none.
fn max_overlap_length(recs: &Vec<OverlapRecord>) -> (k: usize)
    ensures
        k as int == max_length(record_views(recs@)),
{
    let ghost v = record_views(recs@);
    if recs.len() == 0 {
        return 0;
    }
    let mut best = recs[0].length;
    let mut i: usize = 1;
    assert(v.take(1).drop_last().len() == 0);
    while i < recs.len()
        invariant
            1 <= i <= recs@.len(),
            v == record_views(recs@),
            best as int == max_length(v.take(i as int)),
        decreases recs.len() - i,
    {
        assert(v.take(i + 1).drop_last() =~= v.take(i as int));
        assert(v.take(i + 1).last() == v[i as int]);
        if recs[i].length > best {
            best = recs[i].length;
        }
        i += 1;
    }
    assert(v.take(i as int) =~= v);
    best
}

/// The records of length `k`, in their stored order.
fn records_at(recs: &Vec<OverlapRecord>, k: usize) -> (g: Vec<OverlapRecord>)
    ensures
        record_views(g@) == group_at(record_views(recs@), k as int),
{
    let ghost v = record_views(recs@);
    let mut g: Vec<OverlapRecord> = Vec::new();
    let mut i: usize = 0;
    assert(v.take(0).len() == 0);
    while i < recs.len()
        invariant
            i <= recs@.len(),
            v == record_views(recs@),
            record_views(g@) == group_at(v.take(i as int), k as int),
        decreases recs.len() - i,
    {
        assert(v.take(i + 1).drop_last() =~= v.take(i as int));
        assert(v.take(i + 1).last() == v[i as int]);
        let ghost before = g@;
        if recs[i].length == k {
            g.push(recs[i]);
            assert(record_views(g@) =~= record_views(before).push(v[i as int]));
        }
        i += 1;
    }
    assert(v.take(i as int) =~= v);
    g
}

/// First-fit choice of disjoint pairs from `group`, together with a mark for
/// each of the `n` fragment indices that a chosen pair uses.
fn select_pairs(group: &Vec<OverlapRecord>, n: usize) -> (r: (Vec<(usize, usize)>, Vec<bool>))
    requires
        forall|q: int| 0 <= q < group@.len() ==> #[trigger] group@[q].source < n && group@[q].target < n,
    ensures
        pairs_match(r.0@, select(record_views(group@), group@.len() as int)),
        r.1@.len() == n,
        forall|x: int|
            0 <= x < n ==> r.1@[x] == uses(select(record_views(group@), group@.len() as int), x),
{
    let ghost g = record_views(group@);
    let mut pairs: Vec<(usize, usize)> = Vec::new();
    let mut used: Vec<bool> = vec![false; n];
    let mut t: usize = 0;
    while t < group.len()
        invariant
            t <= group@.len(),
            g == record_views(group@),
            forall|q: int| 0 <= q < group@.len() ==> #[trigger] group@[q].source < n && group@[q].target < n,
            pairs_match(pairs@, select(g, t as int)),
            used@.len() == n,
            forall|x: int| 0 <= x < n ==> used@[x] == uses(select(g, t as int), x),
        decreases group.len() - t,
    {
        let ghost prev = select(g, t as int);
        let r = group[t];
        assert(g[t as int] == r@);
        if !used[r.source] && !used[r.target] {
            pairs.push((r.source, r.target));
            used.set(r.source, true);
            used.set(r.target, true);
            proof {
                assert forall|x: int| 0 <= x < n implies used@[x] == uses(
                    select(g, t + 1),
                    x,
                ) by {
                    lemma_uses_push(prev, r@, x);
                }
            }
        }
        t += 1;
    }
    (pairs, used)
}

/// The greatest overlap length of the index and the disjoint pairs chosen at
/// it, with the marks of the indices those pairs use; `None` when the index
/// is empty.
fn largest_overlaps_marked(fragments: &Vec<Vec<u8>>, min_overlap: usize) -> (r: Option<
    (usize, Vec<(usize, usize)>, Vec<bool>),
>)
    ensures
        ({
            let f = fragment_views(fragments@);
            let m = min_overlap as int;
            match r {
                None => overlap_index(f, m).len() == 0,
                Some((k, pairs, used)) => {
                    &&& overlap_index(f, m).len() > 0
                    &&& k as int == max_length(overlap_index(f, m))
                    &&& pairs_match(pairs@, selected(f, m))
                    &&& all_wf(f, m, selected(f, m))
                    &&& used@.len() == f.len()
                    &&& forall|x: int| 0 <= x < f.len() ==> used@[x] == uses(selected(f, m), x)
                    &&& forall|q: int|
                        0 <= q < selected(f, m).len() ==> (#[trigger] selected(f, m)[q]).2 == k
                },
            }
        }),
{
    let ghost f = fragment_views(fragments@);
    let ghost m = min_overlap as int;
    let recs = build_overlap_index(fragments, min_overlap);
    if recs.len() == 0 {
        return None;
    }
    let k = max_overlap_length(&recs);
    let group = records_at(&recs, k);
    let ghost g = record_views(group@);
    proof {
        lemma_index_wf(f, m, f.len() as int);
        lemma_group_wf(f, m, overlap_index(f, m), k as int);
        lemma_select_wf(f, m, g, g.len() as int);
        assert forall|q: int| 0 <= q < group@.len() implies #[trigger] group@[q].source
            < fragments@.len() && group@[q].target < fragments@.len() by {
            assert(record_wf(f, m, g[q]));
        }
        lemma_select_elems(g, g.len() as int, k as int);
    }
    let (pairs, used) = select_pairs(&group, fragments.len());
    Some((k, pairs, used))
}

proof fn lemma_select_elems(g: Seq<RecordView>, t: int, k: int)
    requires
        0 <= t <= g.len(),
        forall|q: int| 0 <= q < g.len() ==> (#[trigger] g[q]).2 == k,
    ensures
        forall|q: int| 0 <= q < select(g, t).len() ==> (#[trigger] select(g, t)[q]).2 == k,
    decreases t,
{
    if t > 0 {
        lemma_select_elems(g, t - 1, k);
        let prev = select(g, t - 1);
        assert forall|q: int| 0 <= q < select(g, t).len() implies (#[trigger] select(g, t)[q]).2
            == k by {
            if q < prev.len() {
                assert(select(g, t)[q] == prev[q]);
            }
        }
    }
}

/// The greatest overlap length among all ordered pairs of fragments, and the
/// pairs chosen first-fit at that length so that no fragment is in two of
/// them; `None` when no pair overlaps.
pub fn get_largest_overlaps(fragments: &Vec<Vec<u8>>, min_overlap: usize) -> (r: Option<
    (usize, Vec<(usize, usize)>),
>)
    ensures
        ({
            let f = fragment_views(fragments@);
            let m = min_overlap as int;
            match r {
                None => overlap_index(f, m).len() == 0,
                Some((k, pairs)) => {
                    &&& overlap_index(f, m).len() > 0
                    &&& k as int == max_length(overlap_index(f, m))
                    &&& pairs_match(pairs@, selected(f, m))
                },
            }
        }),
{
    match largest_overlaps_marked(fragments, min_overlap) {
        None => None,
        Some((k, pairs, _)) => Some((k, pairs)),
    }
}

/// `lhs` followed by `rhs` without its first `k` symbols.
pub fn merge_records(lhs: &Vec<u8>, rhs: &Vec<u8>, k: usize) -> (r: Vec<u8>)
    requires
        k <= rhs@.len(),
    ensures
        r@ == merge_spec(lhs@, rhs@, k as int),
{
    let mut out: Vec<u8> = Vec::new();
    let mut i: usize = 0;
    while i < lhs.len()
        invariant
            i <= lhs@.len(),
            out@ == lhs@.take(i as int),
        decreases lhs.len() - i,
    {
        out.push(lhs[i]);
        assert(lhs@.take(i + 1) =~= lhs@.take(i as int).push(lhs@[i as int]));
        i += 1;
    }
    let mut j: usize = k;
    assert(lhs@.take(i as int) =~= lhs@ + rhs@.subrange(k as int, k as int));
    while j < rhs.len()
        invariant
            k <= j <= rhs@.len(),
            out@ == lhs@ + rhs@.subrange(k as int, j as int),
        decreases rhs.len() - j,
    {
        out.push(rhs[j]);
        assert(lhs@ + rhs@.subrange(k as int, j + 1) =~= (lhs@ + rhs@.subrange(
            k as int,
            j as int,
        )).push(rhs@[j as int]));
        j += 1;
    }
    out
}


/// One round: merge the disjoint pairs chosen at the greatest overlap, then
/// carry every fragment that no chosen pair touches, in its order. `None`
/// when no pair of fragments overlaps.
pub fn assembly_round(fragments: &Vec<Vec<u8>>, min_overlap: usize) -> (r: Option<Vec<Vec<u8>>>)
    ensures
        match r {
            None => round_spec(fragment_views(fragments@), min_overlap as int) is None,
            Some(next) => round_spec(fragment_views(fragments@), min_overlap as int) == Some(
                fragment_views(next@),
            ),
        },
{
    let ghost f = fragment_views(fragments@);
    let ghost m = min_overlap as int;
    match largest_overlaps_marked(fragments, min_overlap) {
        None => None,
        Some((k, pairs, used)) => {
            let ghost sel = selected(f, m);
            let ghost mpart = merged(f, sel, k as int);
            let mut next: Vec<Vec<u8>> = Vec::new();
            let mut q: usize = 0;
            assert(fragment_views(next@) =~= mpart.take(0));
            while q < pairs.len()
                invariant
                    f == fragment_views(fragments@),
                    m == min_overlap as int,
                    sel == selected(f, m),
                    mpart == merged(f, sel, k as int),
                    pairs_match(pairs@, sel),
                    all_wf(f, m, sel),
                    forall|p: int| 0 <= p < sel.len() ==> (#[trigger] sel[p]).2 == k,
                    q <= pairs@.len(),
                    fragment_views(next@) == mpart.take(q as int),
                decreases pairs.len() - q,
            {
                let (s, t) = pairs[q];
                proof {
                    assert(pairs@[q as int].0 == s && pairs@[q as int].1 == t);
                    assert(record_wf(f, m, sel[q as int]));
                    lemma_overlap_bounds(f[s as int], f[t as int], m);
                }
                let ghost before = next@;
                let joined = merge_records(&fragments[s], &fragments[t], k);
                next.push(joined);
                assert(fragment_views(next@) =~= fragment_views(before).push(joined@));
                assert(mpart.take(q + 1) =~= mpart.take(q as int).push(mpart[q as int]));
                q += 1;
            }
            assert(mpart.take(q as int) =~= mpart);
            assert(mpart + untouched(f, sel, 0) =~= mpart);
            let n = fragments.len();
            let mut i: usize = 0;
            while i < n
                invariant
                    n == fragments@.len(),
                    f == fragment_views(fragments@),
                    m == min_overlap as int,
                    sel == selected(f, m),
                    used@.len() == n,
                    forall|x: int| 0 <= x < n ==> used@[x] == uses(sel, x),
                    i <= n,
                    fragment_views(next@) == mpart + untouched(f, sel, i as int),
                decreases n - i,
            {
                if !used[i] {
                    let ghost before = next@;
                    let c = fragments[i].clone();
                    assert(c@ =~= fragments@[i as int]@);
                    next.push(c);
                    assert(fragment_views(next@) =~= fragment_views(before).push(f[i as int]));
                    assert((mpart + untouched(f, sel, i as int)).push(f[i as int]) =~= mpart
                        + untouched(f, sel, i as int).push(f[i as int]));
                }
                i += 1;
            }
            Some(next)
        },
    }
}

/// From a state reached after `n` rounds that holds more than one fragment,
/// one more round is the round spec applied to that state.
proof fn lemma_run_step(f: Seq<Seq<u8>>, m: int, n: nat, c: Seq<Seq<u8>>)
    requires
        run(f, m, n) == Some(c),
        c.len() > 1,
    ensures
        run(f, m, n + 1) == round_spec(c, m),
    decreases n,
{
    if n > 0 {
        let g = round_spec(f, m).unwrap();
        lemma_run_step(g, m, (n - 1) as nat, c);
        assert(run(f, m, n + 1) == run(g, m, n));
    } else {
        assert(f == c);
        match round_spec(f, m) {
            None => {},
            Some(g) => {
                assert(run(g, m, 0) == Some(g));
            },
        }
    }
}

/// Merging two fragments at the overlap that the detector reports for them
/// gives a fragment as long as both together, less the overlap.
pub proof fn lemma_merge_length(a: Seq<u8>, b: Seq<u8>, min_len: int)
    requires
        0 <= min_len,
        overlap_spec(a, b, min_len) is Ok,
    ensures
        merge_spec(a, b, overlap_spec(a, b, min_len)->Ok_0).len() == a.len() + b.len()
            - overlap_spec(a, b, min_len)->Ok_0,
{
    lemma_overlap_bounds(a, b, min_len);
}

/// A set of one fragment is already assembled: every number of rounds leaves
/// it as it is.
pub proof fn lemma_single_fragment_is_final(a: Seq<u8>, m: int, n: nat)
    ensures
        run(seq![a], m, n) == Some(seq![a]),
{
}

/// Runs rounds from `fragments` until one fragment is left and returns it,
/// or fails when a round finds no overlapping pair.
pub fn assemble_with_min_overlap(fragments: &Vec<Vec<u8>>, min_overlap: usize) -> (r: Result<
    Vec<u8>,
    AssemblyError,
>)
    requires
        fragments@.len() >= 1,
    ensures
        fragments@.len() == 1 ==> r is Ok && r->Ok_0@ == fragments@[0]@,
        match r {
            Ok(s) => exists|n: nat|
                #[trigger] run(fragment_views(fragments@), min_overlap as int, n) == Some(
                    seq![s@],
                ),
            Err(_) => exists|n: nat|
                #[trigger] run(fragment_views(fragments@), min_overlap as int, n) is None,
        },
{
    let ghost f = fragment_views(fragments@);
    let ghost m = min_overlap as int;
    if fragments.len() == 1 {
        let only = fragments[0].clone();
        assert(only@ =~= fragments@[0]@);
        assert(run(f, m, 0) == Some(f));
        assert(f =~= seq![only@]);
        return Ok(only);
    }
    proof {
        assert(run(f, m, 0) == Some(f));
        lemma_run_step(f, m, 0, f);
    }
    let mut current = match assembly_round(fragments, min_overlap) {
        None => {
            return Err(AssemblyError::NoProgressPossible);
        },
        Some(next) => next,
    };
    proof {
        lemma_round_shrinks(f, m);
    }
    let ghost mut n: nat = 1;
    while current.len() > 1
        invariant
            f == fragment_views(fragments@),
            m == min_overlap as int,
            run(f, m, n) == Some(fragment_views(current@)),
            current@.len() >= 1,
        decreases current.len(),
    {
        proof {
            lemma_run_step(f, m, n, fragment_views(current@));
        }
        match assembly_round(&current, min_overlap) {
            None => {
                assert(run(f, m, n + 1) is None);
                return Err(AssemblyError::NoProgressPossible);
            },
            Some(next) => {
                proof {
                    lemma_round_shrinks(fragment_views(current@), m);
                    n = n + 1;
                }
                current = next;
            },
        }
    }
    let last = current[0].clone();
    assert(last@ =~= current@[0]@);
    assert(fragment_views(current@) =~= seq![last@]);
    Ok(last)
}

/// The length of the shortest fragment.
pub open spec fn shortest(f: Seq<Seq<u8>>) -> int
    decreases f.len(),
{
    if f.len() == 0 {
        0
    } else if f.len() == 1 {
        f[0].len() as int
    } else {
        let rest = shortest(f.drop_last());
        if (f.last().len() as int) < rest {
            f.last().len() as int
        } else {
            rest
        }
    }
}

/// The minimum overlap for a fragment set: half the shortest length, rounded
/// down.
pub fn min_overlap_for(fragments: &Vec<Vec<u8>>) -> (m: usize)
    requires
        fragments@.len() >= 1,
    ensures
        m as int == shortest(fragment_views(fragments@)) / 2,
{
    let ghost f = fragment_views(fragments@);
    let mut best = fragments[0].len();
    let mut i: usize = 1;
    assert(f.take(1).drop_last().len() == 0);
    while i < fragments.len()
        invariant
            1 <= i <= fragments@.len(),
            f == fragment_views(fragments@),
            best as int == shortest(f.take(i as int)),
        decreases fragments.len() - i,
    {
        assert(f.take(i + 1).drop_last() =~= f.take(i as int));
        assert(f.take(i + 1).last() == fragments@[i as int]@);
        if fragments[i].len() < best {
            best = fragments[i].len();
        }
        i += 1;
    }
    assert(f.take(i as int) =~= f);
    best / 2
}

/// Assembles `fragments` with the minimum overlap set to half the shortest
/// fragment's length.
pub fn assemble(fragments: &Vec<Vec<u8>>) -> (r: Result<Vec<u8>, AssemblyError>)
    requires
        fragments@.len() >= 1,
    ensures
        fragments@.len() == 1 ==> r is Ok && r->Ok_0@ == fragments@[0]@,
        match r {
            Ok(s) => exists|n: nat|
                #[trigger] run(
                    fragment_views(fragments@),
                    shortest(fragment_views(fragments@)) / 2,
                    n,
                ) == Some(seq![s@]),
            Err(_) => exists|n: nat|
                #[trigger] run(
                    fragment_views(fragments@),
                    shortest(fragment_views(fragments@)) / 2,
                    n,
                ) is None,
        },
{
    let m = min_overlap_for(fragments);
    assemble_with_min_overlap(fragments, m)
}

} // verus!
