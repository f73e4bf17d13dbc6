//! Longest strictly increasing and strictly decreasing subsequences, by
//! patience sorting with binary search.
use vstd::prelude::*;

verus! {

/// `a` comes strictly before `b` in the chosen direction.
pub open spec fn precedes(a: usize, b: usize, increasing: bool) -> bool {
    if increasing {
        a < b
    } else {
        a > b
    }
}

/// `idx` picks positions below `bound` in increasing order, and the values
/// there run strictly in the chosen direction.
pub open spec fn is_monotone(x: Seq<usize>, idx: Seq<int>, increasing: bool, bound: int) -> bool {
    &&& (forall|q: int| 0 <= q < idx.len() ==> (0 <= idx[q] && idx[q] < bound))
    &&& (forall|a: int, b: int| 0 <= a < b < idx.len() ==> #[trigger] idx[a] < #[trigger] idx[b])
    &&& (forall|q: int|
        0 <= q < idx.len() - 1 ==> #[trigger] precedes(x[idx[q]], x[idx[q + 1]], increasing))
}

/// The positions reached by following `pred` back from `k`, `l` of them, in
/// increasing order of their place in the chain (`k` last).
pub open spec fn chain(pred: Seq<usize>, k: int, l: int) -> Seq<int>
    decreases l,
{
    if l <= 0 {
        seq![]
    } else {
        chain(pred, pred[k] as int, l - 1).push(k)
    }
}

proof fn lemma_chain_len(pred: Seq<usize>, k: int, l: int)
    requires
        l >= 0,
    ensures
        chain(pred, k, l).len() == l,
        l > 0 ==> chain(pred, k, l).last() == k,
    decreases l,
{
    if l > 0 {
        lemma_chain_len(pred, pred[k] as int, l - 1);
    }
}

/// The values of `x` at the positions `idx`.
pub open spec fn values_at(x: Seq<usize>, idx: Seq<int>) -> Seq<usize> {
    Seq::new(idx.len(), |q: int| x[idx[q]])
}

/// `r` is a longest strictly monotone subsequence of `x`.
pub open spec fn is_longest_monotone(x: Seq<usize>, r: Seq<usize>, increasing: bool) -> bool {
    &&& exists|idx: Seq<int>|
        is_monotone(x, idx, increasing, x.len() as int) && #[trigger] values_at(x, idx) == r
    &&& forall|idx: Seq<int>|
        #[trigger] is_monotone(x, idx, increasing, x.len() as int) ==> idx.len() <= r.len()
}

/// The midpoint of `lo..hi`, rounded down.
fn get_midpoint(lo: usize, hi: usize) -> (r: usize)
    requires
        lo <= hi,
    ensures
        r == lo + (hi - lo) / 2,
{
    lo + (hi - lo) / 2
}

/// The values of `vec_x` along the chain of `l` positions that ends at
/// `first_index` and steps back through `vec_p`.
fn get_subsequence(vec_x: &Vec<usize>, l: usize, first_index: usize, vec_p: &Vec<usize>) -> (r: Vec<
    usize,
>)
    requires
        forall|t: int|
            0 <= t < l ==> 0 <= #[trigger] chain(vec_p@, first_index as int, l as int)[t] && chain(
                vec_p@,
                first_index as int,
                l as int,
            )[t] < vec_x@.len() && chain(vec_p@, first_index as int, l as int)[t] < vec_p@.len(),
    ensures
        r@ == values_at(vec_x@, chain(vec_p@, first_index as int, l as int)),
{
    let ghost c = chain(vec_p@, first_index as int, l as int);
    let mut vec_s: Vec<usize> = vec![0usize; l];
    let mut k = first_index;
    let mut i: usize = l;
    proof {
        lemma_chain_len(vec_p@, first_index as int, l as int);
        assert(c.take(l as int) =~= c);
    }
    while i > 0
        invariant
            i <= l,
            vec_s@.len() == l,
            c == chain(vec_p@, first_index as int, l as int),
            forall|t: int|
                0 <= t < l ==> 0 <= #[trigger] c[t] && c[t] < vec_x@.len() && c[t] < vec_p@.len(),
            i > 0 ==> k as int == c[i - 1],
            c.len() == l,
            chain(vec_p@, k as int, i as int) == c.take(i as int),
            forall|q: int| i <= q < l ==> vec_s@[q] == vec_x@[c[q]],
        decreases i,
    {
        proof {
            let ch = chain(vec_p@, k as int, i as int);
            lemma_chain_len(vec_p@, k as int, i as int);
            assert(ch == chain(vec_p@, vec_p@[k as int] as int, i - 1).push(k as int));
            assert(c[i - 1] == c.take(i as int)[i - 1]);
            assert(c.take(i - 1) =~= c.take(i as int).drop_last());
            assert(ch.drop_last() =~= chain(vec_p@, vec_p@[k as int] as int, i - 1));
            if i > 1 {
                lemma_chain_len(vec_p@, vec_p@[k as int] as int, i - 1);
                assert(c[i - 2] == c.take(i - 1)[i - 2]);
            }
        }
        vec_s.set(i - 1, vec_x[k]);
        k = vec_p[k];
        i -= 1;
    }
    assert(vec_s@ =~= values_at(vec_x@, c));
    vec_s
}

/// `a` is at most `b` in the chosen direction.
pub open spec fn at_most(a: usize, b: usize, increasing: bool) -> bool {
    !precedes(b, a, increasing)
}

/// What holds after the first `i` values of `x` are processed, with `l` the
/// longest length found so far: `m[j]` ends a monotone chain of length `j`
/// whose last value is the least such (in the chosen direction), those last
/// values are strictly monotone in `j`, and `p` leads each chain back.
pub open spec fn patience_inv(
    x: Seq<usize>,
    m: Seq<usize>,
    p: Seq<usize>,
    l: int,
    i: int,
    increasing: bool,
) -> bool {
    &&& x.len() <= usize::MAX
    &&& m.len() == x.len() + 1
    &&& p.len() == x.len()
    &&& 0 <= l <= i <= x.len()
    &&& m[0] == 0
    &&& forall|j: int| 1 <= j <= l ==> #[trigger] m[j] < i
    &&& forall|k: int| 0 <= k < p.len() ==> #[trigger] p[k] < x.len() || x.len() == 0
    &&& forall|j: int|
        1 <= j <= l ==> is_monotone(x, #[trigger] chain(p, m[j] as int, j), increasing, i)
    &&& forall|j1: int, j2: int|
        1 <= j1 < j2 <= l ==> precedes(x[#[trigger] m[j1] as int], x[#[trigger] m[j2] as int], increasing)
    &&& forall|idx: Seq<int>|
        #[trigger] is_monotone(x, idx, increasing, i) && idx.len() > 0 ==> idx.len() <= l
            && at_most(x[m[idx.len() as int] as int], x[idx.last()], increasing)
}

proof fn lemma_chain_frame(p: Seq<usize>, k: int, l: int, i: int, v: usize)
    requires
        l >= 0,
        forall|q: int| 0 <= q < chain(p, k, l).len() ==> (0 <= chain(p, k, l)[q] && chain(p, k, l)[q] < i),
        0 <= i < p.len(),
    ensures
        chain(p.update(i, v), k, l) == chain(p, k, l),
    decreases l,
{
    if l > 0 {
        let prev = chain(p, p[k] as int, l - 1);
        lemma_chain_len(p, k, l);
        lemma_chain_len(p, p[k] as int, l - 1);
        assert(chain(p, k, l)[l - 1] == k);
        assert forall|q: int| 0 <= q < prev.len() implies 0 <= prev[q] && prev[q] < i by {
            assert(chain(p, k, l)[q] == prev[q]);
        }
        lemma_chain_frame(p, p[k] as int, l - 1, i, v);
        let p_next = p.update(i, v);
        assert(k < i);
        assert(p_next[k] == p[k]);
        assert(chain(p_next, k, l) == chain(p_next, p_next[k] as int, l - 1).push(k));
    }
}

/// The chain that a step starts at position `i`, after the chain of length
/// `new_l - 1`, is monotone.
proof fn lemma_extended_chain(
    x: Seq<usize>,
    m: Seq<usize>,
    p: Seq<usize>,
    i: int,
    new_l: int,
    increasing: bool,
)
    requires
        0 <= i < p.len(),
        2 <= new_l,
        is_monotone(x, chain(p, m[new_l - 1] as int, new_l - 1), increasing, i),
        precedes(x[m[new_l - 1] as int], x[i], increasing),
    ensures
        is_monotone(x, chain(p.update(i, m[new_l - 1]), i, new_l), increasing, i + 1),
{
    let p_next = p.update(i, m[new_l - 1]);
    let prev = chain(p, m[new_l - 1] as int, new_l - 1);
    lemma_chain_frame(p, m[new_l - 1] as int, new_l - 1, i, m[new_l - 1]);
    lemma_chain_len(p, m[new_l - 1] as int, new_l - 1);
    let c = chain(p_next, i, new_l);
    assert(p_next[i] == m[new_l - 1]);
    assert(c == chain(p_next, p_next[i] as int, new_l - 1).push(i));
    assert(c == prev.push(i));
    assert forall|q: int| 0 <= q < c.len() implies 0 <= c[q] && c[q] < i + 1 by {
        if q < c.len() - 1 {
            assert(c[q] == prev[q]);
        }
    }
    assert forall|q: int| 0 <= q < c.len() - 1 implies #[trigger] precedes(
        x[c[q]],
        x[c[q + 1]],
        increasing,
    ) by {
        assert(c[q] == prev[q]);
        if q < c.len() - 2 {
            assert(c[q + 1] == prev[q + 1]);
        } else {
            assert(prev[q] == prev.last());
        }
    }
    assert forall|a: int, b: int| 0 <= a < b < c.len() implies #[trigger] c[a] < #[trigger] c[b] by {
        assert(c[a] == prev[a]);
        if b < c.len() - 1 {
            assert(c[b] == prev[b]);
        }
    }
}

proof fn lemma_nothing_below_zero(x: Seq<usize>, idx: Seq<int>, increasing: bool)
    requires
        is_monotone(x, idx, increasing, 0),
    ensures
        idx.len() == 0,
{
    if idx.len() > 0 {
        assert(idx[0] < 0);
    }
}

/// One step of the patience loop keeps its invariant.
proof fn lemma_patience_step(
    x: Seq<usize>,
    m: Seq<usize>,
    p: Seq<usize>,
    l: int,
    i: int,
    new_l: int,
    increasing: bool,
)
    requires
        patience_inv(x, m, p, l, i, increasing),
        i < x.len(),
        1 <= new_l <= l + 1,
        forall|j: int| 1 <= j < new_l ==> precedes(x[#[trigger] m[j] as int], x[i], increasing),
        forall|j: int| new_l <= j <= l ==> !precedes(x[#[trigger] m[j] as int], x[i], increasing),
    ensures
        patience_inv(
            x,
            m.update(new_l, i as usize),
            p.update(i, m[new_l - 1]),
            if new_l > l {
                new_l
            } else {
                l
            },
            i + 1,
            increasing,
        ),
{
    let m_next = m.update(new_l, i as usize);
    let p_next = p.update(i, m[new_l - 1]);
    let l_next = if new_l > l {
        new_l
    } else {
        l
    };
    // Chains that were there stay as they were.
    assert forall|j: int| 1 <= j <= l_next implies is_monotone(
        x,
        #[trigger] chain(p_next, m_next[j] as int, j),
        increasing,
        i + 1,
    ) by {
        if j != new_l {
            let c = chain(p, m[j] as int, j);
            assert(is_monotone(x, c, increasing, i));
            lemma_chain_frame(p, m[j] as int, j, i, m[new_l - 1]);
        } else if new_l == 1 {
            let c = chain(p_next, i, 1);
            assert(c == chain(p_next, p_next[i] as int, 0).push(i));
            assert(c =~= seq![i]);
        } else {
            assert(is_monotone(x, chain(p, m[new_l - 1] as int, new_l - 1), increasing, i));
            lemma_extended_chain(x, m, p, i, new_l, increasing);
        }
    }
    assert forall|j1: int, j2: int| 1 <= j1 < j2 <= l_next implies precedes(
        x[#[trigger] m_next[j1] as int],
        x[#[trigger] m_next[j2] as int],
        increasing,
    ) by {
        if j1 == new_l {
            assert(precedes(x[m[j1] as int], x[m[j2] as int], increasing));
            assert(!precedes(x[m[new_l] as int], x[i], increasing));
        } else if j2 == new_l {
            assert(precedes(x[m[j1] as int], x[i], increasing));
        } else {
            assert(precedes(x[m[j1] as int], x[m[j2] as int], increasing));
        }
    }
    assert forall|k: int| 0 <= k < p_next.len() implies #[trigger] p_next[k] < x.len() || x.len() == 0 by {
        if k == i {
            if new_l - 1 >= 1 {
                assert(m[new_l - 1] < i);
            }
        }
    }
    assert forall|j: int| 1 <= j <= l_next implies #[trigger] m_next[j] < i + 1 by {
        if j != new_l {
            assert(m[j] < i);
        }
    }
    // The best last values.
    assert forall|idx: Seq<int>|
        #[trigger] is_monotone(x, idx, increasing, i + 1) && idx.len() > 0 implies idx.len()
        <= l_next && at_most(x[m_next[idx.len() as int] as int], x[idx.last()], increasing) by {
        let len = idx.len() as int;
        let last = idx.last();
        if last == i {
            if len >= 2 {
                let front = idx.drop_last();
                assert forall|q: int| 0 <= q < front.len() implies 0 <= front[q] && front[q] < i by {
                    assert(idx[q] < idx[len - 1]);
                }
                assert(is_monotone(x, front, increasing, i));
                let q = len - 2;
                assert(precedes(x[idx[q]], x[idx[q + 1]], increasing));
                assert(front.last() == idx[q]);
                assert(precedes(x[m[len - 1] as int], x[i], increasing));
            }
        } else {
            assert forall|q: int| 0 <= q < idx.len() implies 0 <= idx[q] && idx[q] < i by {
                if q < len - 1 {
                    assert(idx[q] < idx[len - 1]);
                }
            }
            assert(is_monotone(x, idx, increasing, i));
        }
    }
}

/// The first pile at or after `j` (among piles `1..=l`) whose top value `v`
/// does not come after, or `l + 1` when there is none: where the binary
/// search places `v`.
pub open spec fn insertion_point(
    x: Seq<usize>,
    m: Seq<usize>,
    l: int,
    v: usize,
    increasing: bool,
    j: int,
) -> int
    decreases l + 1 - j,
{
    if j >= l + 1 {
        l + 1
    } else if !precedes(x[m[j] as int], v, increasing) {
        j
    } else {
        insertion_point(x, m, l, v, increasing, j + 1)
    }
}

/// The pile tops `m`, the predecessor links `p` and the number of piles `l`
/// after the first `i` values of `x` are placed.
pub open spec fn patience(x: Seq<usize>, increasing: bool, i: nat) -> (Seq<usize>, Seq<usize>, int)
    decreases i,
{
    if i == 0 {
        (Seq::new((x.len() + 1) as nat, |q: int| 0usize), Seq::new(x.len(), |q: int| 0usize), 0)
    } else {
        let prev = patience(x, increasing, (i - 1) as nat);
        let m = prev.0;
        let p = prev.1;
        let l = prev.2;
        let k = i - 1;
        let nl = insertion_point(x, m, l, x[k], increasing, 1);
        (
            m.update(nl, k as usize),
            p.update(k, m[nl - 1]),
            if nl > l {
                nl
            } else {
                l
            },
        )
    }
}

/// The subsequence that patience sorting rebuilds: the chain of
/// predecessors back from the top of the last pile.
pub open spec fn patience_result(x: Seq<usize>, increasing: bool) -> Seq<usize> {
    let st = patience(x, increasing, x.len());
    values_at(x, chain(st.1, st.0[st.2] as int, st.2))
}

proof fn lemma_insertion_point(
    x: Seq<usize>,
    m: Seq<usize>,
    l: int,
    v: usize,
    increasing: bool,
    j: int,
    lo: int,
)
    requires
        1 <= j <= lo <= l + 1,
        forall|jj: int| j <= jj < lo ==> precedes(x[#[trigger] m[jj] as int], v, increasing),
        lo <= l ==> !precedes(x[m[lo] as int], v, increasing),
    ensures
        insertion_point(x, m, l, v, increasing, j) == lo,
    decreases lo - j,
{
    if j < lo {
        assert(precedes(x[m[j] as int], v, increasing));
        lemma_insertion_point(x, m, l, v, increasing, j + 1, lo);
    }
}

/// The longest subsequence of `vec_x` whose values run strictly in the
/// chosen direction, as patience sorting rebuilds it.
fn longest_monotone_subsequence(vec_x: &Vec<usize>, increasing: bool) -> (r: Vec<usize>)
    ensures
        r@ == patience_result(vec_x@, increasing),
        is_longest_monotone(vec_x@, r@, increasing),
{
    let ghost x = vec_x@;
    let n = vec_x.len();
    let mut vec_m: Vec<usize> = vec![0usize; n];
    vec_m.push(0);
    let mut vec_p: Vec<usize> = vec![0usize; n];
    let mut l: usize = 0;
    let mut i: usize = 0;
    assert(vec_m@ =~= Seq::new((x.len() + 1) as nat, |q: int| 0usize));
    assert(vec_p@ =~= Seq::new(x.len(), |q: int| 0usize));
    proof {
        assert forall|idx: Seq<int>|
            #[trigger] is_monotone(x, idx, increasing, 0) && idx.len() > 0 implies false by {
            lemma_nothing_below_zero(x, idx, increasing);
        }
    }
    while i < n
        invariant
            x == vec_x@,
            n == x.len(),
            patience_inv(x, vec_m@, vec_p@, l as int, i as int, increasing),
            patience(x, increasing, i as nat) == (vec_m@, vec_p@, l as int),
        decreases n - i,
    {
        let mut lo: usize = 1;
        let mut hi: usize = l + 1;
        while lo < hi
            invariant
                x == vec_x@,
                n == x.len(),
                i < n,
                patience_inv(x, vec_m@, vec_p@, l as int, i as int, increasing),
                1 <= lo <= hi <= l + 1,
                forall|j: int| 1 <= j < lo ==> precedes(x[#[trigger] vec_m@[j] as int], x[i as int], increasing),
                forall|j: int| hi <= j <= l ==> !precedes(x[#[trigger] vec_m@[j] as int], x[i as int], increasing),
            decreases hi - lo,
        {
            let mid = get_midpoint(lo, hi);
            let at = vec_x[vec_m[mid]];
            let stop = if increasing {
                at >= vec_x[i]
            } else {
                at <= vec_x[i]
            };
            if stop {
                hi = mid;
            } else {
                lo = mid + 1;
            }
        }
        let new_l = lo;
        proof {
            lemma_insertion_point(x, vec_m@, l as int, x[i as int], increasing, 1, new_l as int);
            assert(patience(x, increasing, (i + 1) as nat).0 == patience(x, increasing, i as nat).0.update(new_l as int, i));
            lemma_patience_step(x, vec_m@, vec_p@, l as int, i as int, new_l as int, increasing);
        }
        let back = vec_m[new_l - 1];
        vec_p.set(i, back);
        vec_m.set(new_l, i);
        if new_l > l {
            l = new_l;
        }
        i += 1;
    }
    let ghost c = chain(vec_p@, vec_m@[l as int] as int, l as int);
    proof {
        lemma_chain_len(vec_p@, vec_m@[l as int] as int, l as int);
        if l == 0 {
            assert(c =~= seq![]);
        }
        assert(is_monotone(x, c, increasing, n as int));
    }
    let r = get_subsequence(vec_x, l, vec_m[l], &vec_p);
    assert(is_monotone(x, c, increasing, x.len() as int) && values_at(x, c) == r@);
    r
}

/// A longest strictly increasing subsequence of `vec_x`: the one that
/// patience sorting rebuilds from the top of its last pile.
pub fn longest_increasing_subsequence(vec_x: &Vec<usize>) -> (r: Vec<usize>)
    ensures
        r@ == patience_result(vec_x@, true),
        is_longest_monotone(vec_x@, r@, true),
{
    longest_monotone_subsequence(vec_x, true)
}

/// A longest strictly decreasing subsequence of `vec_x`: the one that
/// patience sorting rebuilds from the top of its last pile.
pub fn longest_decreasing_subsequence(vec_x: &Vec<usize>) -> (r: Vec<usize>)
    ensures
        r@ == patience_result(vec_x@, false),
        is_longest_monotone(vec_x@, r@, false),
{
    longest_monotone_subsequence(vec_x, false)
}

} // verus!
