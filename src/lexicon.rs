//! Enumeration of all words of a fixed length over an ordered alphabet, in
//! lexicographic order.
use vstd::prelude::*;

verus! {

/// The first position at or after `i` where `c` stands in `alphabet`, or the
/// alphabet's length when it stands nowhere there.
pub open spec fn rank(alphabet: Seq<char>, c: char, i: int) -> int
    decreases alphabet.len() - i,
{
    if i < 0 || i >= alphabet.len() {
        alphabet.len() as int
    } else if alphabet[i] == c {
        i
    } else {
        rank(alphabet, c, i + 1)
    }
}

/// Every symbol of `w` is in `alphabet`.
pub open spec fn in_alphabet(alphabet: Seq<char>, w: Seq<char>) -> bool {
    forall|q: int| 0 <= q < w.len() ==> #[trigger] rank(alphabet, w[q], 0) < alphabet.len()
}

/// The successor of `w` when only its first `i` symbols may change: the
/// symbol at `i - 1` moves one place up the alphabet, or wraps to the first
/// symbol and carries into the positions before it.
pub open spec fn increment(alphabet: Seq<char>, w: Seq<char>, i: int) -> Seq<char>
    decreases i,
{
    if i <= 0 || i > w.len() {
        w
    } else {
        let r = rank(alphabet, w[i - 1], 0);
        if r < alphabet.len() - 1 {
            w.update(i - 1, alphabet[r + 1])
        } else {
            increment(alphabet, w.update(i - 1, alphabet[0]), i - 1)
        }
    }
}

/// A word of length `n` made of the symbol `c` alone.
pub open spec fn repeated(c: char, n: int) -> Seq<char> {
    Seq::new(n as nat, |q: int| c)
}

/// Generator of the words of one length over an alphabet, in lexicographic
/// order: `curr` is the word to hand out next, `next` the one after it
/// (empty once the end is reached), `last` the greatest word.
pub struct Lexicon {
    pub curr: Vec<char>,
    pub next: Vec<char>,
    pub last: Vec<char>,
    pub alphabet: Vec<char>,
}

impl Lexicon {
    /// The state that `next` relies on: a non-empty alphabet and a pending
    /// word made of its symbols.
    pub open spec fn wf(&self) -> bool {
        &&& self.alphabet@.len() >= 1
        &&& in_alphabet(self.alphabet@, self.next@)
    }

    /// Hands out the current word and moves on; `None` once every word has
    /// been handed out.
    pub fn next(&mut self) -> (r: Option<Vec<char>>)
        requires
            old(self).wf(),
        ensures
            final(self).wf(),
            final(self).last@ == old(self).last@,
            final(self).alphabet@ == old(self).alphabet@,
            old(self).next@.len() == 0 ==> r is None && final(self).curr@ == old(self).curr@
                && final(self).next@.len() == 0,
            old(self).next@.len() != 0 && old(self).curr@ == old(self).last@ ==> r is Some
                && r->Some_0@ == old(self).last@ && final(self).curr@ == old(self).curr@
                && final(self).next@.len() == 0,
            old(self).next@.len() != 0 && old(self).curr@ != old(self).last@ ==> r is Some
                && r->Some_0@ == old(self).curr@ && final(self).curr@ == old(self).next@
                && final(self).next@ == increment(
                old(self).alphabet@,
                old(self).next@,
                old(self).next@.len() as int,
            ),
    {
        if self.next.len() == 0 {
            None
        } else if same_word(&self.curr, &self.last) {
            self.next = Vec::new();
            Some(copy_word(&self.last))
        } else {
            let current = copy_word(&self.curr);
            self.curr = copy_word(&self.next);
            let ghost a = self.alphabet@;
            let ghost orig = self.next@;
            let n = self.next.len();
            let alen = self.alphabet.len();
            let mut new_next = copy_word(&self.next);
            let mut i: usize = n;
            let mut done = false;
            while i > 0 && !done
                invariant
                    a == self.alphabet@,
                    alen == a.len(),
                    alen >= 1,
                    i <= n,
                    n == orig.len(),
                    new_next@.len() == n,
                    in_alphabet(a, orig),
                    in_alphabet(a, new_next@),
                    !done ==> increment(a, orig, n as int) == increment(a, new_next@, i as int),
                    done ==> increment(a, orig, n as int) == new_next@,
                decreases i + if done {
                    0int
                } else {
                    1int
                },
            {
                let ith_char = new_next[i - 1];
                let char_rank = position(&self.alphabet, ith_char);
                proof {
                    assert(rank(a, new_next@[i - 1], 0) < alen);
                    lemma_rank_is(a, ith_char);
                }
                if char_rank < alen - 1 {
                    let up = self.alphabet[char_rank + 1];
                    proof {
                        lemma_rank_is(a, up);
                    }
                    new_next.set(i - 1, up);
                    done = true;
                } else {
                    let first = self.alphabet[0];
                    proof {
                        lemma_rank_is(a, first);
                    }
                    new_next.set(i - 1, first);
                    i -= 1;
                }
                proof {
                    assert forall|q: int| 0 <= q < new_next@.len() implies #[trigger] rank(
                        a,
                        new_next@[q],
                        0,
                    ) < a.len() by {}
                }
            }
            self.next = new_next;
            Some(current)
        }
    }
}

/// A symbol found at some position has a rank, and that rank is a position
/// holding it.
proof fn lemma_rank_is(a: Seq<char>, c: char)
    ensures
        0 <= rank(a, c, 0) <= a.len(),
        rank(a, c, 0) < a.len() ==> a[rank(a, c, 0)] == c,
        forall|q: int| 0 <= q < a.len() && a[q] == c ==> rank(a, c, 0) <= q,
{
    lemma_rank_from(a, c, 0);
}

proof fn lemma_rank_from(a: Seq<char>, c: char, i: int)
    requires
        0 <= i,
    ensures
        i <= rank(a, c, i) <= a.len() || (i > a.len() && rank(a, c, i) == a.len()),
        rank(a, c, i) < a.len() ==> a[rank(a, c, i)] == c,
        forall|q: int| i <= q < a.len() && a[q] == c ==> rank(a, c, i) <= q,
    decreases a.len() - i,
{
    if i < a.len() && a[i] != c {
        lemma_rank_from(a, c, i + 1);
    }
}

/// The position of `c` in `alphabet`.
fn position(alphabet: &Vec<char>, c: char) -> (r: usize)
    requires
        rank(alphabet@, c, 0) < alphabet@.len(),
    ensures
        r as int == rank(alphabet@, c, 0),
{
    let mut i: usize = 0;
    while i < alphabet.len() && alphabet[i] != c
        invariant
            i <= alphabet@.len(),
            rank(alphabet@, c, 0) == rank(alphabet@, c, i as int),
        decreases alphabet.len() - i,
    {
        i += 1;
    }
    i
}

/// `a` and `b` hold the same symbols.
fn same_word(a: &Vec<char>, b: &Vec<char>) -> (r: bool)
    ensures
        r == (a@ == b@),
{
    if a.len() != b.len() {
        return false;
    }
    let mut i: usize = 0;
    while i < a.len()
        invariant
            a@.len() == b@.len(),
            i <= a@.len(),
            a@.take(i as int) == b@.take(i as int),
        decreases a.len() - i,
    {
        if a[i] != b[i] {
            return false;
        }
        assert(a@.take(i + 1) =~= a@.take(i as int).push(a@[i as int]));
        assert(b@.take(i + 1) =~= b@.take(i as int).push(b@[i as int]));
        i += 1;
    }
    assert(a@.take(i as int) =~= a@);
    assert(b@.take(i as int) =~= b@);
    true
}

/// A copy of `w`.
fn copy_word(w: &Vec<char>) -> (r: Vec<char>)
    ensures
        r@ == w@,
{
    let mut out: Vec<char> = Vec::new();
    let mut i: usize = 0;
    while i < w.len()
        invariant
            i <= w@.len(),
            out@ == w@.take(i as int),
        decreases w.len() - i,
    {
        out.push(w[i]);
        assert(w@.take(i + 1) =~= w@.take(i as int).push(w@[i as int]));
        i += 1;
    }
    assert(w@.take(i as int) =~= w@);
    out
}

/// `n` copies of `c`.
fn repeat_char(c: char, n: usize) -> (r: Vec<char>)
    ensures
        r@ == repeated(c, n as int),
{
    let mut out: Vec<char> = Vec::new();
    let mut i: usize = 0;
    while i < n
        invariant
            i <= n,
            out@ == repeated(c, i as int),
        decreases n - i,
    {
        out.push(c);
        assert(out@ =~= repeated(c, i + 1));
        i += 1;
    }
    out
}

/// A generator of the words of length `len` over `alphabet`, starting from
/// the word of the first symbol alone.
pub fn lexicon(alphabet: Vec<char>, len: usize) -> (r: Lexicon)
    requires
        alphabet@.len() >= 2,
        len >= 1,
    ensures
        r.wf(),
        r.alphabet@ == alphabet@,
        r.curr@ == repeated(alphabet@[0], len as int),
        r.next@ == repeated(alphabet@[0], len - 1).push(alphabet@[1]),
        r.last@ == repeated(alphabet@[alphabet@.len() - 1], len as int),
{
    let first_c = alphabet[0];
    let second_c = alphabet[1];
    let last_c = alphabet[alphabet.len() - 1];
    let first = repeat_char(first_c, len);
    let mut next = repeat_char(first_c, len - 1);
    next.push(second_c);
    let last = repeat_char(last_c, len);
    proof {
        lemma_rank_from(alphabet@, first_c, 0);
        lemma_rank_from(alphabet@, second_c, 0);
        assert forall|q: int| 0 <= q < next@.len() implies #[trigger] rank(
            alphabet@,
            next@[q],
            0,
        ) < alphabet@.len() by {
            lemma_rank_from(alphabet@, next@[q], 0);
            if q < len - 1 {
                assert(next@[q] == alphabet@[0]);
            } else {
                assert(next@[q] == alphabet@[1]);
            }
        }
    }
    Lexicon { curr: first, next: next, last: last, alphabet: alphabet }
}

} // verus!
