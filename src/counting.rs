//! Recurrences that count: factorials and rabbit populations.
use vstd::prelude::*;

verus! {

/// `n!`.
pub open spec fn fact(n: nat) -> nat
    decreases n,
{
    if n == 0 {
        1
    } else {
        n * fact((n - 1) as nat)
    }
}

proof fn lemma_fact_monotone(i: nat, j: nat)
    requires
        i <= j,
    ensures
        1 <= fact(i) <= fact(j),
    decreases j,
{
    if j > i {
        lemma_fact_monotone(i, (j - 1) as nat);
        let p = fact((j - 1) as nat);
        assert(j * p >= p) by (nonlinear_arith)
            requires
                j >= 1,
                p >= 1,
        ;
    } else if j > 0 {
        lemma_fact_monotone(0, (j - 1) as nat);
        let p = fact((j - 1) as nat);
        assert(j * p >= 1) by (nonlinear_arith)
            requires
                j >= 1,
                p >= 1,
        ;
    }
}

/// The product `1 * 2 * ... * num`.
pub fn factorial(num: u128) -> (r: u128)
    requires
        fact(num as nat) <= u128::MAX,
    ensures
        r == fact(num as nat),
{
    let mut acc: u128 = 1;
    let mut i: u128 = 0;
    while i < num
        invariant
            i <= num,
            acc == fact(i as nat),
            fact(num as nat) <= u128::MAX,
        decreases num - i,
    {
        let next_i = i + 1;
        proof {
            lemma_fact_monotone(next_i as nat, num as nat);
            assert(fact(next_i as nat) == next_i * fact(i as nat));
        }
        acc = acc * next_i;
        i = next_i;
    }
    acc
}

/// Rabbit pairs after `i` months when each pair of breeding age brings `k`
/// new pairs a month: 1, 1, then `k * F(i - 2) + F(i - 1)`.
pub open spec fn fib_spec(i: nat, k: nat) -> nat
    decreases i,
{
    if i <= 1 {
        1
    } else {
        k * fib_spec((i - 2) as nat, k) + fib_spec((i - 1) as nat, k)
    }
}

proof fn lemma_fib_monotone(i: nat, j: nat, k: nat)
    requires
        i <= j,
    ensures
        1 <= fib_spec(i, k) <= fib_spec(j, k),
    decreases j,
{
    if j > i {
        lemma_fib_monotone(i, (j - 1) as nat, k);
        if j >= 2 {
            assert(k * fib_spec((j - 2) as nat, k) >= 0) by (nonlinear_arith);
        }
    } else if j >= 2 {
        lemma_fib_monotone(0, (j - 1) as nat, k);
        assert(k * fib_spec((j - 2) as nat, k) >= 0) by (nonlinear_arith);
    }
}

/// The number of rabbit pairs in month `n` (counting from 1), with `k` new
/// pairs per breeding pair each month.
pub fn fib(n: usize, k: usize) -> (r: usize)
    requires
        n >= 2,
        fib_spec((n - 1) as nat, k as nat) <= usize::MAX,
    ensures
        r == fib_spec((n - 1) as nat, k as nat),
{
    let mut prev: usize = 1;
    let mut cur: usize = 1;
    let mut i: usize = 2;
    while i < n
        invariant
            2 <= i <= n,
            prev == fib_spec((i - 2) as nat, k as nat),
            cur == fib_spec((i - 1) as nat, k as nat),
            fib_spec((n - 1) as nat, k as nat) <= usize::MAX,
        decreases n - i,
    {
        proof {
            lemma_fib_monotone(i as nat, (n - 1) as nat, k as nat);
            assert(fib_spec(i as nat, k as nat) == k * prev + cur);
        }
        let next = k * prev + cur;
        prev = cur;
        cur = next;
        i += 1;
    }
    cur
}

/// Mortal rabbits, each pair living `m` months: `v(0) = 0`, `v(1) = 1`, and
/// `v(i + 1)` is `v(i) + v(i - 1)`, less `v(i - m + 1)` in month `m` and
/// `v(i - m)` after it.
pub open spec fn fibd_spec(i: nat, m: nat) -> int
    decreases i,
{
    if i == 0 {
        0
    } else if i == 1 {
        1
    } else {
        let j = (i - 1) as nat;
        let base = fibd_spec(j, m) + fibd_spec((j - 1) as nat, m);
        if j < m {
            base
        } else if j == m {
            base - fibd_spec((j - m + 1) as nat, m)
        } else {
            base - fibd_spec((j - m) as nat, m)
        }
    }
}

/// Month `i` of the mortal-rabbit recurrence: the sum that `fibd` forms
/// there fits a `usize` and the term it yields is not negative.
pub open spec fn fibd_step_fits(i: nat, m: nat) -> bool {
    &&& 0 <= fibd_spec(i, m) + fibd_spec((i - 1) as nat, m) <= usize::MAX
    &&& 0 <= fibd_spec(i + 1, m)
}

/// Every step that `fibd` takes on `n` and `m` fits a `usize`.
pub open spec fn fibd_fits(n: nat, m: nat) -> bool {
    forall|i: nat| 1 <= i < n ==> #[trigger] fibd_step_fits(i, m)
}

/// Rabbit pairs alive in month `n` when each pair lives `m` months.
pub fn fibd(n: usize, m: usize) -> (r: usize)
    requires
        fibd_fits(n as nat, m as nat),
    ensures
        r as int == fibd_spec(n as nat, m as nat),
{
    if n == 0 {
        return 0;
    }
    let mut v: Vec<usize> = Vec::new();
    v.push(0);
    v.push(1);
    let mut i: usize = 1;
    while i < n
        invariant
            1 <= i <= n,
            v@.len() == i + 1,
            fibd_fits(n as nat, m as nat),
            forall|q: int| 0 <= q <= i ==> v@[q] as int == #[trigger] fibd_spec(q as nat, m as nat),
        decreases n - i,
    {
        assert(fibd_step_fits(i as nat, m as nat));
        let ghost mm = m as nat;
        let ghost ii = i as nat;
        assert(fibd_spec(ii, mm) == v@[i as int]);
        assert(fibd_spec((ii - 1) as nat, mm) == v@[i - 1]);
        let base = v[i] + v[i - 1];
        let next = if i < m {
            base
        } else if i == m {
            assert(fibd_spec((ii - mm + 1) as nat, mm) == v@[i - m + 1]);
            base - v[i - m + 1]
        } else {
            assert(fibd_spec((ii - mm) as nat, mm) == v@[i - m]);
            base - v[i - m]
        };
        assert(next as int == fibd_spec(ii + 1, mm));
        v.push(next);
        i += 1;
    }
    let ghost last: int = n as int;
    assert(i == n);
    assert(v@[last] as int == fibd_spec(last as nat, m as nat));
    v[n]
}

/// How many times `b` occurs among the first `i` symbols of `s`.
pub open spec fn count_of(s: Seq<u8>, b: u8, i: int) -> nat
    decreases i,
{
    if i <= 0 {
        0
    } else {
        count_of(s, b, i - 1) + if s[i - 1] == b {
            1nat
        } else {
            0nat
        }
    }
}

/// How many times `b` occurs in `s`.
pub fn count_symbol(s: &[u8], b: u8) -> (r: usize)
    ensures
        r == count_of(s@, b, s@.len() as int),
{
    let mut n: usize = 0;
    let mut i: usize = 0;
    while i < s.len()
        invariant
            i <= s@.len(),
            n == count_of(s@, b, i as int),
            n <= i,
        decreases s.len() - i,
    {
        if s[i] == b {
            n += 1;
        }
        i += 1;
    }
    n
}

/// The counts of `A`, `C`, `G` and `T` in `s`, in that order.
pub fn base_counts(s: &[u8]) -> (r: (usize, usize, usize, usize))
    ensures
        r.0 == count_of(s@, 65u8, s@.len() as int),
        r.1 == count_of(s@, 67u8, s@.len() as int),
        r.2 == count_of(s@, 71u8, s@.len() as int),
        r.3 == count_of(s@, 84u8, s@.len() as int),
{
    (count_symbol(s, 65u8), count_symbol(s, 67u8), count_symbol(s, 71u8), count_symbol(s, 84u8))
}

/// The number of perfect matchings of basepair edges in the bonding graph of
/// an RNA string: `a! * g!` for `a` occurrences of `A` and `g` of `G`.
pub open spec fn matchings_spec(s: Seq<u8>) -> nat {
    fact(count_of(s, 65u8, s.len() as int)) * fact(count_of(s, 71u8, s.len() as int))
}

/// `a! * g!`, where `a` counts the `A`s of `s` and `g` its `G`s.
pub fn perfect_matchings(s: &[u8]) -> (r: u128)
    requires
        matchings_spec(s@) <= u128::MAX,
    ensures
        r == matchings_spec(s@),
{
    let a = count_symbol(s, 65u8);
    let g = count_symbol(s, 71u8);
    proof {
        lemma_fact_monotone(0, a as nat);
        lemma_fact_monotone(0, g as nat);
        let x = fact(a as nat);
        let y = fact(g as nat);
        assert(x <= x * y && y <= x * y) by (nonlinear_arith)
            requires
                x >= 1,
                y >= 1,
        ;
    }
    let fa = factorial(a as u128);
    let fg = factorial(g as u128);
    fa * fg
}

/// `num!` when it fits a `u128`, else `None`.
pub fn checked_factorial(num: u128) -> (r: Option<u128>)
    ensures
        r is Some <==> fact(num as nat) <= u128::MAX,
        r is Some ==> r->Some_0 == fact(num as nat),
{
    let mut acc: u128 = 1;
    let mut i: u128 = 0;
    while i < num
        invariant
            i <= num,
            acc == fact(i as nat),
        decreases num - i,
    {
        let next_i = i + 1;
        assert(fact(next_i as nat) == next_i * fact(i as nat));
        match acc.checked_mul(next_i) {
            Some(v) => {
                acc = v;
                i = next_i;
            },
            None => {
                proof {
                    lemma_fact_monotone(next_i as nat, num as nat);
                }
                return None;
            },
        }
    }
    Some(acc)
}

/// `fib(n, k)` when `n >= 2` and every term up to it fits a `usize`, else
/// `None`.
pub fn checked_fib(n: usize, k: usize) -> (r: Option<usize>)
    ensures
        r is Some <==> n >= 2 && fib_spec((n - 1) as nat, k as nat) <= usize::MAX,
        r is Some ==> r->Some_0 == fib_spec((n - 1) as nat, k as nat),
{
    if n < 2 {
        return None;
    }
    let mut prev: usize = 1;
    let mut cur: usize = 1;
    let mut i: usize = 2;
    while i < n
        invariant
            2 <= i <= n,
            prev == fib_spec((i - 2) as nat, k as nat),
            cur == fib_spec((i - 1) as nat, k as nat),
        decreases n - i,
    {
        assert(fib_spec(i as nat, k as nat) == k * prev + cur);
        proof {
            lemma_fib_monotone(i as nat, (n - 1) as nat, k as nat);
            assert(k * prev >= 0) by (nonlinear_arith)
                requires
                    k >= 0,
                    prev >= 0,
            ;
        }
        let next = match k.checked_mul(prev) {
            Some(kp) => match kp.checked_add(cur) {
                Some(v) => v,
                None => {
                    return None;
                },
            },
            None => {
                return None;
            },
        };
        prev = cur;
        cur = next;
        i += 1;
    }
    Some(cur)
}

/// `fibd(n, m)` when every step of it fits a `usize`, else `None`.
pub fn checked_fibd(n: usize, m: usize) -> (r: Option<usize>)
    ensures
        r is Some <==> fibd_fits(n as nat, m as nat),
        r is Some ==> r->Some_0 as int == fibd_spec(n as nat, m as nat),
{
    if n == 0 {
        return Some(0);
    }
    let mut v: Vec<usize> = Vec::new();
    v.push(0);
    v.push(1);
    let mut i: usize = 1;
    while i < n
        invariant
            1 <= i <= n,
            v@.len() == i + 1,
            forall|j: nat| 1 <= j < i ==> #[trigger] fibd_step_fits(j, m as nat),
            forall|q: int| 0 <= q <= i ==> v@[q] as int == #[trigger] fibd_spec(q as nat, m as nat),
        decreases n - i,
    {
        let ghost mm = m as nat;
        let ghost ii = i as nat;
        let ghost qi: int = i as int;
        let ghost qp: int = i - 1;
        assert(v@[qi] as int == fibd_spec(qi as nat, mm));
        assert(v@[qp] as int == fibd_spec(qp as nat, mm));
        let base = match v[i].checked_add(v[i - 1]) {
            Some(b) => b,
            None => {
                assert(!fibd_step_fits(ii, mm));
                return None;
            },
        };
        let back = if i < m {
            0
        } else if i == m {
            let ghost qb: int = i - m + 1;
            assert(v@[qb] as int == fibd_spec(qb as nat, mm));
            v[i - m + 1]
        } else {
            let ghost qb: int = i - m;
            assert(v@[qb] as int == fibd_spec(qb as nat, mm));
            v[i - m]
        };
        let next = match base.checked_sub(back) {
            Some(x) => x,
            None => {
                assert(!fibd_step_fits(ii, mm));
                return None;
            },
        };
        assert(next as int == fibd_spec(ii + 1, mm));
        assert(fibd_step_fits(ii, mm));
        v.push(next);
        i += 1;
    }
    let ghost last: int = n as int;
    assert(v@[last] as int == fibd_spec(last as nat, m as nat));
    Some(v[n])
}

} // verus!
