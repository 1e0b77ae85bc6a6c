//! Speculative decoding: a draft from counted sequences of tokens, of which the longest
//! prefix that the target model agrees with is kept.

use vstd::prelude::*;

use crate::quant::one_if;
use crate::sums::lemma_total_same;
use crate::sums::total;

verus! {

/// Up to three tokens in a row; what is not used is zero.
#[derive(Clone, Copy, Debug, PartialEq, Eq, Structural)]
pub struct Gram {
    pub a: usize,
    pub b: usize,
    pub c: usize,
}

/// The count under a key in a list of counts.
pub open spec fn count_in(s: Seq<(Gram, u64)>, g: Gram) -> nat
    decreases s.len(),
{
    if s.len() == 0 {
        0
    } else if s.last().0 == g {
        s.last().1 as nat
    } else {
        count_in(s.drop_last(), g)
    }
}

/// Counts of sequences, each with one entry.
pub struct Counter {
    entries: Vec<(Gram, u64)>,
}

/// No key has two entries, and no entry counts nothing.
spec fn distinct(s: Seq<(Gram, u64)>) -> bool {
    &&& forall|i: int, j: int| 0 <= i < j < s.len() ==> (#[trigger] s[i]).0 != (#[trigger] s[j]).0
    &&& forall|i: int| 0 <= i < s.len() ==> (#[trigger] s[i]).1 > 0
}

proof fn lemma_count_at(s: Seq<(Gram, u64)>, i: int)
    requires
        distinct(s),
        0 <= i < s.len(),
    ensures
        count_in(s, s[i].0) == s[i].1,
    decreases s.len(),
{
    if i < s.len() - 1 {
        let t = s.drop_last();
        assert(distinct(t)) by {
            assert forall|x: int, y: int| 0 <= x < y < t.len() implies (#[trigger] t[x]).0
                != (#[trigger] t[y]).0 by {
                assert(s[x].0 != s[y].0);
            }
            assert forall|x: int| 0 <= x < t.len() implies (#[trigger] t[x]).1 > 0 by {
                assert(s[x].1 > 0);
            }
        }
        lemma_count_at(t, i);
        assert(t[i] == s[i]);
        assert(s[i].0 != s[s.len() - 1].0);
    }
}

proof fn lemma_count_none(s: Seq<(Gram, u64)>, g: Gram)
    requires
        forall|i: int| 0 <= i < s.len() ==> (#[trigger] s[i]).0 != g,
    ensures
        count_in(s, g) == 0,
    decreases s.len(),
{
    if s.len() > 0 {
        assert(s[s.len() - 1].0 != g);
        assert forall|i: int| 0 <= i < s.drop_last().len() implies (#[trigger] s.drop_last()[i]).0
            != g by {
            assert(s[i].0 != g);
        }
        lemma_count_none(s.drop_last(), g);
    }
}

proof fn lemma_count_some(s: Seq<(Gram, u64)>, g: Gram) -> (i: int)
    requires
        count_in(s, g) > 0,
    ensures
        0 <= i < s.len(),
        s[i].0 == g,
        s[i].1 == count_in(s, g),
    decreases s.len(),
{
    if s.last().0 == g {
        s.len() - 1
    } else {
        lemma_count_some(s.drop_last(), g)
    }
}

impl Counter {
    pub closed spec fn wf(&self) -> bool {
        distinct(self.entries@)
    }

    /// How often a sequence was counted.
    pub closed spec fn count(&self, g: Gram) -> nat {
        count_in(self.entries@, g)
    }

    /// Number of sequences with a count.
    pub closed spec fn size(&self) -> nat {
        self.entries@.len()
    }

    /// Whether `g` is among the sequences that start with `a` and `b` the one with the
    /// largest count.
    pub open spec fn best(&self, use_a: bool, a: usize, use_b: bool, b: usize, g: Gram) -> bool {
        &&& self.count(g) > 0
        &&& starts(use_a, a, use_b, b, g)
        &&& forall|h: Gram| starts(use_a, a, use_b, b, h) ==> #[trigger] self.count(h) <= self.count(g)
    }

    pub fn new() -> (r: Counter)
        ensures
            r.wf(),
            r.size() == 0,
            forall|g: Gram| #[trigger] r.count(g) == 0,
    {
        Counter { entries: Vec::new() }
    }

    /// Counts a sequence once more.
    pub fn bump(&mut self, g: Gram)
        requires
            old(self).wf(),
            old(self).count(g) < u64::MAX,
        ensures
            final(self).wf(),
            forall|h: Gram| #[trigger] final(self).count(h) == old(self).count(h) + if h == g {
                1nat
            } else {
                0
            },
            final(self).size() == old(self).size() + if old(self).count(g) == 0 {
                1nat
            } else {
                0
            },
    {
        let ghost s = self.entries@;
        let mut i: usize = 0;
        while i < self.entries.len()
            invariant
                self.wf(),
                self.entries@ == s,
                s == old(self).entries@,
                old(self).count(g) < u64::MAX,
                i <= s.len(),
                forall|k: int| 0 <= k < i ==> (#[trigger] s[k]).0 != g,
            decreases s.len() - i,
        {
            if self.entries[i].0 == g {
                let n: u64 = self.entries[i].1;
                proof {
                    lemma_count_at(s, i as int);
                }
                self.entries.set(i, (g, n + 1));
                proof {
                    let t = self.entries@;
                    assert(distinct(t)) by {
                        assert forall|x: int, y: int| 0 <= x < y < t.len() implies (#[trigger]
                        t[x]).0 != (#[trigger] t[y]).0 by {
                            assert(s[x].0 != s[y].0);
                        }
                        assert forall|x: int| 0 <= x < t.len() implies (#[trigger] t[x]).1 > 0 by {
                            assert(s[x].1 > 0);
                        }
                    }
                    assert forall|h: Gram| #[trigger] count_in(t, h) == count_in(s, h) + if h == g {
                        1nat
                    } else {
                        0
                    } by {
                        if h == g {
                            lemma_count_at(t, i as int);
                        } else {
                            lemma_count_other(s, t, i as int, h);
                        }
                    }
                    assert(s[i as int].1 > 0);
                }
                return ;
            }
            i += 1;
        }
        proof {
            lemma_count_none(s, g);
        }
        self.entries.push((g, 1));
        proof {
            let t = self.entries@;
            assert(t.drop_last() =~= s);
            assert forall|h: Gram| #[trigger] count_in(t, h) == count_in(s, h) + if h == g {
                1nat
            } else {
                0
            } by {}
        }
    }

    /// How often a sequence was counted.
    pub fn get(&self, g: Gram) -> (r: u64)
        requires
            self.wf(),
        ensures
            r == self.count(g),
    {
        let ghost s = self.entries@;
        let mut i: usize = 0;
        while i < self.entries.len()
            invariant
                self.wf(),
                s == self.entries@,
                i <= s.len(),
                forall|k: int| 0 <= k < i ==> (#[trigger] s[k]).0 != g,
            decreases s.len() - i,
        {
            if self.entries[i].0 == g {
                proof {
                    lemma_count_at(s, i as int);
                }
                return self.entries[i].1;
            }
            i += 1;
        }
        proof {
            lemma_count_none(s, g);
        }
        0
    }

    pub fn len(&self) -> (r: usize)
        ensures
            r == self.size(),
    {
        self.entries.len()
    }

    /// Among the sequences that start as asked, one with the largest count.
    pub fn most_counted(&self, use_a: bool, a: usize, use_b: bool, b: usize) -> (r: Option<Gram>)
        requires
            self.wf(),
        ensures
            match r {
                Some(g) => self.best(use_a, a, use_b, b, g),
                None => forall|h: Gram| starts(use_a, a, use_b, b, h) ==> #[trigger] self.count(h)
                    == 0,
            },
    {
        let ghost s = self.entries@;
        let mut best: Option<(Gram, u64)> = None;
        let mut i: usize = 0;
        while i < self.entries.len()
            invariant
                self.wf(),
                s == self.entries@,
                i <= s.len(),
                match best {
                    Some((g, n)) => {
                        &&& n > 0
                        &&& starts(use_a, a, use_b, b, g)
                        &&& exists|k: int| 0 <= k < i && #[trigger] s[k] == (g, n)
                        &&& forall|k: int|
                            0 <= k < i && starts(use_a, a, use_b, b, (#[trigger] s[k]).0) ==> s[k].1
                                <= n
                    },
                    None => forall|k: int|
                        0 <= k < i ==> !starts(use_a, a, use_b, b, (#[trigger] s[k]).0),
                },
            decreases s.len() - i,
        {
            let (g, n) = self.entries[i];
            assert(s[i as int] == (g, n));
            if (!use_a || g.a == a) && (!use_b || g.b == b) {
                let better = match best {
                    Some((_, m)) => n > m,
                    None => true,
                };
                if better {
                    best = Some((g, n));
                }
            }
            i += 1;
        }
        proof {
            assert forall|h: Gram| starts(use_a, a, use_b, b, h) implies #[trigger] self.count(h) <= (
            match best {
                Some((_, n)) => n as nat,
                None => 0,
            }) by {
                if self.count(h) > 0 {
                    let k = lemma_count_some(s, h);
                    assert(s[k].0 == h);
                }
            }
            if let Some((g, n)) = best {
                let k = choose|k: int| 0 <= k < s.len() && #[trigger] s[k] == (g, n);
                lemma_count_at(s, k);
            }
        }
        match best {
            Some((g, _)) => Some(g),
            None => None,
        }
    }
}

proof fn lemma_count_other(s: Seq<(Gram, u64)>, t: Seq<(Gram, u64)>, i: int, h: Gram)
    requires
        0 <= i < s.len(),
        t.len() == s.len(),
        t == s.update(i, t[i]),
        t[i].0 == s[i].0,
        h != s[i].0,
    ensures
        count_in(t, h) == count_in(s, h),
    decreases s.len(),
{
    if i == s.len() - 1 {
        assert(t.drop_last() =~= s.drop_last());
    } else {
        let s2 = s.drop_last();
        let t2 = t.drop_last();
        assert(t2 =~= s2.update(i, t2[i]));
        lemma_count_other(s2, t2, i, h);
    }
}

/// Whether a sequence starts as asked.
pub open spec fn starts(use_a: bool, a: usize, use_b: bool, b: usize, g: Gram) -> bool {
    (use_a ==> g.a == a) && (use_b ==> g.b == b)
}

/// How often a sequence of one, two or three tokens stands in `tokens`.
pub open spec fn occurrences(tokens: Seq<usize>, n: nat, g: Gram) -> nat
    decreases tokens.len(),
{
    if tokens.len() < n || n == 0 {
        0
    } else {
        occurrences(tokens.drop_last(), n, g) + if gram_at(tokens, n, tokens.len() - n) == g {
            1nat
        } else {
            0
        }
    }
}

/// The `n` tokens from a position on.
pub open spec fn gram_at(tokens: Seq<usize>, n: nat, i: int) -> Gram {
    Gram {
        a: tokens[i],
        b: if n >= 2 {
            tokens[i + 1]
        } else {
            0
        },
        c: if n >= 3 {
            tokens[i + 2]
        } else {
            0
        },
    }
}

/// The gram of one token.
pub open spec fn uni(t: usize) -> Gram {
    Gram { a: t, b: 0, c: 0 }
}

/// The gram of two tokens.
pub open spec fn bi(a: usize, b: usize) -> Gram {
    Gram { a, b, c: 0 }
}

/// The gram of three tokens.
pub open spec fn tri(a: usize, b: usize, c: usize) -> Gram {
    Gram { a, b, c }
}

/// A draft model that counts sequences of one, two and three tokens.
pub struct NgramDraft {
    unigram: Counter,
    bigram: Counter,
    trigram: Counter,
    total: u64,
}

/// The counts that the probability of a token is made of.
#[derive(Clone, Copy, Debug)]
pub struct TokenCounts {
    pub trigram: u64,
    pub bigram: u64,
    pub unigram: u64,
    pub total: u64,
    pub vocab: usize,
}

/// The longest sequence that says enough of a token.
#[derive(Clone, Copy, Debug, PartialEq, Eq, Structural)]
pub enum Tier {
    Trigram,
    Bigram,
    Unigram,
}

/// Whether `n` is more than a hundredth of `total`.
pub open spec fn over_hundredth(n: u64, total: u64) -> bool {
    n * 100 > if total >= 1 {
        total as int
    } else {
        1
    }
}

impl TokenCounts {
    /// Which of the counts the probability rests on.
    pub fn tier(&self) -> (r: Tier)
        ensures
            r == (if over_hundredth(self.trigram, self.total) {
                Tier::Trigram
            } else if over_hundredth(self.bigram, self.total) {
                Tier::Bigram
            } else {
                Tier::Unigram
            }),
    {
        let total: u128 = if self.total >= 1 {
            self.total as u128
        } else {
            1
        };
        if self.trigram as u128 * 100 > total {
            Tier::Trigram
        } else if self.bigram as u128 * 100 > total {
            Tier::Bigram
        } else {
            Tier::Unigram
        }
    }
}

impl NgramDraft {
    pub closed spec fn uni_count(&self, t: usize) -> nat {
        self.unigram.count(uni(t))
    }

    pub closed spec fn bi_count(&self, a: usize, b: usize) -> nat {
        self.bigram.count(bi(a, b))
    }

    pub closed spec fn tri_count(&self, a: usize, b: usize, c: usize) -> nat {
        self.trigram.count(tri(a, b, c))
    }

    /// Number of tokens seen.
    pub closed spec fn seen(&self) -> nat {
        self.total as nat
    }

    /// Number of different tokens seen.
    pub closed spec fn vocab(&self) -> nat {
        self.unigram.size()
    }

    /// Number of different tokens seen after a run of tokens: each that neither was seen before
    /// nor stands earlier in the run adds one.
    pub open spec fn vocab_after(&self, tokens: Seq<usize>) -> nat
        decreases tokens.len(),
    {
        if tokens.len() == 0 {
            self.vocab()
        } else {
            let t = tokens.last();
            self.vocab_after(tokens.drop_last()) + if self.uni_count(t) == 0 && occurrences(
                tokens.drop_last(),
                1,
                uni(t),
            ) == 0 {
                1nat
            } else {
                0
            }
        }
    }

    /// Counts are never more than the tokens seen, and are of sequences of their length.
    pub closed spec fn wf(&self) -> bool {
        &&& self.unigram.wf()
        &&& self.bigram.wf()
        &&& self.trigram.wf()
        &&& forall|g: Gram| #[trigger] self.unigram.count(g) <= self.total
        &&& forall|g: Gram| #[trigger] self.bigram.count(g) <= self.total
        &&& forall|g: Gram| #[trigger] self.trigram.count(g) <= self.total
        &&& forall|g: Gram| #[trigger] self.unigram.count(g) > 0 ==> g == uni(g.a)
        &&& forall|g: Gram| #[trigger] self.bigram.count(g) > 0 ==> g == bi(g.a, g.b)
    }

    /// A model that has seen nothing.
    pub fn new() -> (r: NgramDraft)
        ensures
            r.wf(),
            r.seen() == 0,
            r.vocab() == 0,
            forall|t: usize| #[trigger] r.uni_count(t) == 0,
            forall|a: usize, b: usize| #[trigger] r.bi_count(a, b) == 0,
            forall|a: usize, b: usize, c: usize| #[trigger] r.tri_count(a, b, c) == 0,
    {
        NgramDraft {
            unigram: Counter::new(),
            bigram: Counter::new(),
            trigram: Counter::new(),
            total: 0,
        }
    }

    /// Counts the sequences of a run of tokens.
    pub fn observe(&mut self, tokens: &[usize])
        requires
            old(self).wf(),
            old(self).seen() + tokens@.len() <= u64::MAX,
        ensures
            final(self).wf(),
            final(self).seen() == old(self).seen() + tokens@.len(),
            final(self).vocab() == old(self).vocab_after(tokens@),
            forall|t: usize| #[trigger] final(self).uni_count(t) == old(self).uni_count(t)
                + occurrences(tokens@, 1, uni(t)),
            forall|a: usize, b: usize| #[trigger] final(self).bi_count(a, b) == old(self).bi_count(
                a,
                b,
            ) + occurrences(tokens@, 2, bi(a, b)),
            forall|a: usize, b: usize, c: usize| #[trigger] final(self).tri_count(a, b, c)
                == old(self).tri_count(a, b, c) + occurrences(tokens@, 3, tri(a, b, c)),
    {
        let ghost start = *self;
        let mut i: usize = 0;
        assert(tokens@.take(0) =~= Seq::<usize>::empty());
        while i < tokens.len()
            invariant
                start == *old(self),
                start.wf(),
                start.total + tokens@.len() <= u64::MAX,
                i <= tokens@.len(),
                self.wf(),
                self.total == start.total + i,
                self.vocab() == start.vocab_after(tokens@.take(i as int)),
                forall|g: Gram| #[trigger] self.unigram.count(g) == start.unigram.count(g)
                    + occurrences(tokens@.take(i as int), 1, g),
                forall|g: Gram| #[trigger] self.bigram.count(g) == start.bigram.count(g)
                    + occurrences(tokens@.take(i as int), 2, g),
                forall|g: Gram| #[trigger] self.trigram.count(g) == start.trigram.count(g)
                    + occurrences(tokens@.take(i as int), 3, g),
            decreases tokens@.len() - i,
        {
            let ghost before = *self;
            let ghost done = tokens@.take(i as int);
            let ghost next = tokens@.take(i + 1);
            proof {
                assert(next.drop_last() =~= done);
                assert(next.len() == i + 1);
            }
            let c: usize = tokens[i];
            self.total = self.total + 1;
            self.unigram.bump(Gram { a: c, b: 0, c: 0 });
            assert(gram_at(next, 1, i as int) == uni(c));
            if i >= 1 {
                let b: usize = tokens[i - 1];
                self.bigram.bump(Gram { a: b, b: c, c: 0 });
                assert(gram_at(next, 2, i - 1) == bi(b, c));
                if i >= 2 {
                    let a: usize = tokens[i - 2];
                    self.trigram.bump(Gram { a, b, c });
                    assert(gram_at(next, 3, i - 2) == tri(a, b, c));
                }
            }
            proof {
                assert(next.last() == c);
                assert(before.unigram.count(uni(c)) == start.unigram.count(uni(c)) + occurrences(
                    done,
                    1,
                    uni(c),
                ));
                assert forall|g: Gram| #[trigger] self.unigram.count(g) == start.unigram.count(g)
                    + occurrences(next, 1, g) by {
                    assert(before.unigram.count(g) == start.unigram.count(g) + occurrences(
                        done,
                        1,
                        g,
                    ));
                }
                assert forall|g: Gram| #[trigger] self.bigram.count(g) == start.bigram.count(g)
                    + occurrences(next, 2, g) by {
                    assert(before.bigram.count(g) == start.bigram.count(g) + occurrences(
                        done,
                        2,
                        g,
                    ));
                }
                assert forall|g: Gram| #[trigger] self.trigram.count(g) == start.trigram.count(g)
                    + occurrences(next, 3, g) by {
                    assert(before.trigram.count(g) == start.trigram.count(g) + occurrences(
                        done,
                        3,
                        g,
                    ));
                }
                assert forall|g: Gram| #[trigger] self.unigram.count(g) <= self.total by {
                    assert(before.unigram.count(g) <= before.total);
                }
                assert forall|g: Gram| #[trigger] self.bigram.count(g) <= self.total by {
                    assert(before.bigram.count(g) <= before.total);
                }
                assert forall|g: Gram| #[trigger] self.trigram.count(g) <= self.total by {
                    assert(before.trigram.count(g) <= before.total);
                }
                assert forall|g: Gram| #[trigger] self.unigram.count(g) > 0 implies g == uni(g.a) by {
                    if before.unigram.count(g) > 0 {
                    }
                }
                assert forall|g: Gram| #[trigger] self.bigram.count(g) > 0 implies g == bi(
                    g.a,
                    g.b,
                ) by {
                    if before.bigram.count(g) > 0 {
                    }
                }
            }
            i += 1;
        }
        assert(tokens@.take(i as int) =~= tokens@);
    }

    /// Whether a token is one of those seen most often; the token 1 where none was seen.
    pub open spec fn most_frequent(&self, t: usize) -> bool {
        if exists|u: usize| #[trigger] self.uni_count(u) > 0 {
            self.uni_count(t) > 0 && forall|u: usize| #[trigger] self.uni_count(u)
                <= self.uni_count(t)
        } else {
            t == 1
        }
    }

    /// Whether a token is a prediction after a context: the one that most often followed the
    /// last two tokens, or else the last one, or else the most frequent. A context of less
    /// than two tokens says nothing.
    pub open spec fn predicts(&self, ctx: Seq<usize>, t: usize) -> bool {
        if ctx.len() >= 2 {
            let a = ctx[ctx.len() - 2];
            let b = ctx[ctx.len() - 1];
            if exists|c: usize| #[trigger] self.tri_count(a, b, c) > 0 {
                self.tri_count(a, b, t) > 0 && forall|c: usize| #[trigger] self.tri_count(a, b, c)
                    <= self.tri_count(a, b, t)
            } else if exists|c: usize| #[trigger] self.bi_count(b, c) > 0 {
                self.bi_count(b, t) > 0 && forall|c: usize| #[trigger] self.bi_count(b, c)
                    <= self.bi_count(b, t)
            } else {
                self.most_frequent(t)
            }
        } else {
            self.most_frequent(t)
        }
    }

    fn most_frequent_token(&self) -> (t: usize)
        requires
            self.wf(),
        ensures
            self.most_frequent(t),
    {
        match self.unigram.most_counted(false, 0, false, 0) {
            Some(g) => {
                proof {
                    assert(g == uni(g.a));
                    assert(self.uni_count(g.a) > 0);
                    assert forall|u: usize| #[trigger] self.uni_count(u) <= self.uni_count(g.a) by {
                        assert(starts(false, 0, false, 0, uni(u)));
                        assert(self.unigram.count(uni(u)) <= self.unigram.count(g));
                    }
                }
                g.a
            },
            None => {
                proof {
                    assert forall|u: usize| !(#[trigger] self.uni_count(u) > 0) by {
                        assert(starts(false, 0, false, 0, uni(u)));
                        assert(self.unigram.count(uni(u)) == 0);
                    }
                }
                1
            },
        }
    }

    fn predict(&self, ctx: &Vec<usize>) -> (t: usize)
        requires
            self.wf(),
        ensures
            self.predicts(ctx@, t),
    {
        let n = ctx.len();
        if n < 2 {
            return self.most_frequent_token();
        }
        let a: usize = ctx[n - 2];
        let b: usize = ctx[n - 1];
        if let Some(g) = self.trigram.most_counted(true, a, true, b) {
            proof {
                assert(g == tri(a, b, g.c));
                assert(self.tri_count(a, b, g.c) > 0);
                assert forall|c: usize| #[trigger] self.tri_count(a, b, c) <= self.tri_count(
                    a,
                    b,
                    g.c,
                ) by {
                    assert(starts(true, a, true, b, tri(a, b, c)));
                    assert(self.trigram.count(tri(a, b, c)) <= self.trigram.count(g));
                }
            }
            return g.c;
        }
        proof {
            assert forall|c: usize| !(#[trigger] self.tri_count(a, b, c) > 0) by {
                assert(starts(true, a, true, b, tri(a, b, c)));
                assert(self.trigram.count(tri(a, b, c)) == 0);
            }
        }
        if let Some(g) = self.bigram.most_counted(true, b, false, 0) {
            proof {
                assert(g == bi(g.a, g.b));
                assert(self.bi_count(b, g.b) > 0);
                assert forall|c: usize| #[trigger] self.bi_count(b, c) <= self.bi_count(b, g.b) by {
                    assert(starts(true, b, false, 0, bi(b, c)));
                    assert(self.bigram.count(bi(b, c)) <= self.bigram.count(g));
                }
            }
            return g.b;
        }
        proof {
            assert forall|c: usize| !(#[trigger] self.bi_count(b, c) > 0) by {
                assert(starts(true, b, false, 0, bi(b, c)));
                assert(self.bigram.count(bi(b, c)) == 0);
            }
        }
        self.most_frequent_token()
    }

    /// Drafts `k` tokens after a context, each after those before it, with the counts that
    /// its probability is made of.
    pub fn draft(&self, ctx: &[usize], k: usize) -> (r: (Vec<usize>, Vec<TokenCounts>))
        requires
            self.wf(),
        ensures
            r.0@.len() == k,
            r.1@.len() == k,
            forall|i: int|
                0 <= i < k ==> self.predicts(ctx@ + r.0@.take(i), #[trigger] r.0@[i]),
            forall|i: int|
                0 <= i < k ==> #[trigger] r.1@[i] == self.counts_of(r.0@[i], ctx@ + r.0@.take(i)),
    {
        let mut ext: Vec<usize> = Vec::new();
        let mut j: usize = 0;
        while j < ctx.len()
            invariant
                j <= ctx@.len(),
                ext@ =~= ctx@.take(j as int),
            decreases ctx@.len() - j,
        {
            ext.push(ctx[j]);
            j += 1;
        }
        let mut tokens: Vec<usize> = Vec::new();
        let mut counts: Vec<TokenCounts> = Vec::new();
        assert(ext@ =~= ctx@ + tokens@);
        let mut i: usize = 0;
        while i < k
            invariant
                self.wf(),
                i <= k,
                tokens@.len() == i,
                counts@.len() == i,
                ext@ == ctx@ + tokens@,
                forall|m: int|
                    0 <= m < i ==> self.predicts(ctx@ + tokens@.take(m), #[trigger] tokens@[m]),
                forall|m: int|
                    0 <= m < i ==> #[trigger] counts@[m] == self.counts_of(
                        tokens@[m],
                        ctx@ + tokens@.take(m),
                    ),
            decreases k - i,
        {
            let ghost before = tokens@;
            let t = self.predict(&ext);
            let c = self.token_probability(t, ext.as_slice());
            tokens.push(t);
            counts.push(c);
            ext.push(t);
            proof {
                assert(ext@ =~= ctx@ + tokens@);
                assert forall|m: int| 0 <= m < i + 1 implies self.predicts(
                    ctx@ + tokens@.take(m),
                    #[trigger] tokens@[m],
                ) by {
                    assert(tokens@.take(m) =~= before.take(m));
                    if m == i {
                        assert(before.take(m) =~= before);
                    } else {
                        assert(tokens@[m] == before[m]);
                    }
                }
                assert forall|m: int| 0 <= m < i + 1 implies #[trigger] counts@[m]
                    == self.counts_of(tokens@[m], ctx@ + tokens@.take(m)) by {
                    assert(tokens@.take(m) =~= before.take(m));
                    if m == i {
                        assert(before.take(m) =~= before);
                    } else {
                        assert(tokens@[m] == before[m]);
                    }
                }
            }
            i += 1;
        }
        (tokens, counts)
    }

    /// The counts that the probability of a token after a context is made of.
    pub open spec fn counts_of(&self, token: usize, ctx: Seq<usize>) -> TokenCounts {
        let n = ctx.len();
        TokenCounts {
            trigram: if n >= 2 {
                self.tri_count(ctx[n - 2], ctx[n - 1], token) as u64
            } else {
                0
            },
            bigram: if n >= 1 {
                self.bi_count(ctx[n - 1], token) as u64
            } else {
                0
            },
            unigram: self.uni_count(token) as u64,
            total: self.seen() as u64,
            vocab: if self.vocab() >= 1 {
                self.vocab() as usize
            } else {
                1
            },
        }
    }

    /// The counts that the probability of a token after a context is made of.
    pub fn token_probability(&self, token: usize, ctx: &[usize]) -> (r: TokenCounts)
        requires
            self.wf(),
        ensures
            r == self.counts_of(token, ctx@),
    {
        let n = ctx.len();
        TokenCounts {
            trigram: if n >= 2 {
                self.trigram.get(Gram { a: ctx[n - 2], b: ctx[n - 1], c: token })
            } else {
                0
            },
            bigram: if n >= 1 {
                self.bigram.get(Gram { a: ctx[n - 1], b: token, c: 0 })
            } else {
                0
            },
            unigram: self.unigram.get(Gram { a: token, b: 0, c: 0 }),
            total: self.total,
            vocab: if self.unigram.len() >= 1 {
                self.unigram.len()
            } else {
                1
            },
        }
    }
}

/// Counts of speculative decoding.
#[derive(Clone, Copy, Debug, PartialEq, Eq, Structural)]
pub struct DSparkStats {
    pub total_steps: u64,
    pub total_draft_tokens: u64,
    pub accepted_tokens: u64,
    pub rejected_steps: u64,
    pub total_draft_attempts: u64,
    pub draft_accepted: u64,
    pub draft_rejected: u64,
    pub total_rollbacks: u64,
}

/// What the target model makes of a drafted token.
#[derive(Clone, Copy, Debug, PartialEq, Eq, Structural)]
pub enum Verdict {
    /// The token has no probability.
    Impossible,
    /// The token is kept.
    Accept,
    /// The token is rejected, and this one was sampled in its place.
    Resample(usize),
}

/// A step of speculative decoding under way.
pub struct Speculation {
    pub accepted: Vec<usize>,
    pub draft: Vec<usize>,
    pub counts: Vec<TokenCounts>,
    pub next: usize,
    pub stopped: bool,
}

impl Speculation {
    /// What is accepted is the sampled token, then the drafted tokens that the target kept,
    /// then at most one token that was sampled in place of a rejected one.
    pub open spec fn wf(&self) -> bool {
        &&& self.next <= self.draft@.len()
        &&& self.counts@.len() == self.draft@.len()
        &&& self.accepted@.len() >= 1
        &&& if self.stopped {
            ||| self.accepted@.skip(1) == self.draft@.take(self.next as int)
            ||| self.accepted@.len() == self.next + 2 && self.accepted@.skip(1).drop_last()
                == self.draft@.take(self.next as int) && self.next < self.draft@.len()
        } else {
            self.accepted@.skip(1) == self.draft@.take(self.next as int)
        }
    }

    /// The drafted token that the target model is to judge next.
    pub fn pending(&self) -> (r: Option<usize>)
        requires
            self.wf(),
        ensures
            r == (if !self.stopped && self.next < self.draft@.len() {
                Some(self.draft@[self.next as int])
            } else {
                None
            }),
    {
        if !self.stopped && self.next < self.draft.len() {
            Some(self.draft[self.next])
        } else {
            None
        }
    }
}

/// Speculative decoding with a counted draft.
pub struct DSparkEngine {
    pub draft_model: NgramDraft,
    pub max_draft: usize,
    pub stats: DSparkStats,
}

impl DSparkEngine {
    /// An engine that has seen nothing.
    pub fn new(max_draft: usize) -> (r: DSparkEngine)
        ensures
            r.draft_model.wf(),
            r.draft_model.seen() == 0,
            r.draft_model.vocab() == 0,
            forall|t: usize| #[trigger] r.draft_model.uni_count(t) == 0,
            forall|a: usize, b: usize| #[trigger] r.draft_model.bi_count(a, b) == 0,
            forall|a: usize, b: usize, c: usize| #[trigger] r.draft_model.tri_count(a, b, c) == 0,
            r.max_draft == max_draft,
            r.stats == (DSparkStats {
                total_steps: 0,
                total_draft_tokens: 0,
                accepted_tokens: 0,
                rejected_steps: 0,
                total_draft_attempts: 0,
                draft_accepted: 0,
                draft_rejected: 0,
                total_rollbacks: 0,
            }),
    {
        DSparkEngine {
            draft_model: NgramDraft::new(),
            max_draft,
            stats: DSparkStats {
                total_steps: 0,
                total_draft_tokens: 0,
                accepted_tokens: 0,
                rejected_steps: 0,
                total_draft_attempts: 0,
                draft_accepted: 0,
                draft_rejected: 0,
                total_rollbacks: 0,
            },
        }
    }

    /// The counts so far.
    pub fn stats(&self) -> (r: &DSparkStats)
        ensures
            *r == self.stats,
    {
        &self.stats
    }

    /// The counts so far, to be changed in place.
    pub fn stats_mut(&mut self) -> (r: &mut DSparkStats)
        ensures
            *r == old(self).stats,
            final(self).stats == *final(r),
            final(self).draft_model == old(self).draft_model,
            final(self).max_draft == old(self).max_draft,
    {
        &mut self.stats
    }

    /// Learns from generated tokens.
    pub fn observe(&mut self, tokens: &[usize])
        requires
            old(self).draft_model.wf(),
            old(self).draft_model.seen() + tokens@.len() <= u64::MAX,
        ensures
            final(self).draft_model.wf(),
            final(self).draft_model.seen() == old(self).draft_model.seen() + tokens@.len(),
            final(self).draft_model.vocab() == old(self).draft_model.vocab_after(tokens@),
            final(self).max_draft == old(self).max_draft,
            final(self).stats == old(self).stats,
            forall|t: usize| #[trigger] final(self).draft_model.uni_count(t)
                == old(self).draft_model.uni_count(t) + occurrences(tokens@, 1, uni(t)),
            forall|a: usize, b: usize| #[trigger] final(self).draft_model.bi_count(a, b)
                == old(self).draft_model.bi_count(a, b) + occurrences(tokens@, 2, bi(a, b)),
            forall|a: usize, b: usize, c: usize| #[trigger] final(self).draft_model.tri_count(a, b, c)
                == old(self).draft_model.tri_count(a, b, c) + occurrences(tokens@, 3, tri(a, b, c)),
    {
        self.draft_model.observe(tokens);
    }

    /// Starts a step: the token sampled from the target is accepted, and a draft is made
    /// after the context.
    pub fn begin(&mut self, ctx: &[usize], sampled: usize) -> (r: Speculation)
        requires
            old(self).draft_model.wf(),
        ensures
            r.wf(),
            r.accepted@ == seq![sampled],
            r.next == 0,
            !r.stopped,
            r.draft@.len() == old(self).max_draft,
            forall|i: int|
                0 <= i < r.draft@.len() ==> old(self).draft_model.predicts(
                    ctx@ + r.draft@.take(i),
                    #[trigger] r.draft@[i],
                ),
            forall|i: int|
                0 <= i < r.draft@.len() ==> #[trigger] r.counts@[i]
                    == old(self).draft_model.counts_of(r.draft@[i], ctx@ + r.draft@.take(i)),
            final(self).draft_model == old(self).draft_model,
            final(self).max_draft == old(self).max_draft,
            final(self).stats == (DSparkStats {
                total_steps: old(self).stats.total_steps.wrapping_add(1),
                accepted_tokens: old(self).stats.accepted_tokens.wrapping_add(1),
                ..old(self).stats
            }),
    {
        self.stats.total_steps = self.stats.total_steps.wrapping_add(1);
        self.stats.accepted_tokens = self.stats.accepted_tokens.wrapping_add(1);
        let (draft, counts) = self.draft_model.draft(ctx, self.max_draft);
        let mut accepted: Vec<usize> = Vec::new();
        accepted.push(sampled);
        assert(accepted@ =~= seq![sampled]);
        assert(accepted@.skip(1) =~= draft@.take(0));
        Speculation { accepted, draft, counts, next: 0, stopped: false }
    }

    /// Takes in what the target model made of the pending token.
    pub fn resolve(&mut self, s: &mut Speculation, verdict: Verdict)
        requires
            old(s).wf(),
            !old(s).stopped,
            old(s).next < old(s).draft@.len(),
        ensures
            final(s).wf(),
            final(s).draft@ == old(s).draft@,
            final(s).counts@ == old(s).counts@,
            final(self).draft_model == old(self).draft_model,
            final(self).max_draft == old(self).max_draft,
            match verdict {
                Verdict::Accept => {
                    &&& final(s).accepted@ == old(s).accepted@.push(
                        old(s).draft@[old(s).next as int],
                    )
                    &&& final(s).next == old(s).next + 1
                    &&& !final(s).stopped
                    &&& final(self).stats == (DSparkStats {
                        accepted_tokens: old(self).stats.accepted_tokens.wrapping_add(1),
                        ..old(self).stats
                    })
                },
                Verdict::Impossible => {
                    &&& final(s).accepted@ == old(s).accepted@
                    &&& final(s).next == old(s).next
                    &&& final(s).stopped
                    &&& final(self).stats == (DSparkStats {
                        rejected_steps: old(self).stats.rejected_steps.wrapping_add(1),
                        ..old(self).stats
                    })
                },
                Verdict::Resample(t) => {
                    &&& final(s).accepted@ == old(s).accepted@.push(t)
                    &&& final(s).next == old(s).next
                    &&& final(s).stopped
                    &&& final(self).stats == (DSparkStats {
                        rejected_steps: old(self).stats.rejected_steps.wrapping_add(1),
                        ..old(self).stats
                    })
                },
            },
    {
        let ghost acc = s.accepted@;
        match verdict {
            Verdict::Accept => {
                let _drafted: usize = s.draft.len();
                let d: usize = s.draft[s.next];
                s.accepted.push(d);
                self.stats.accepted_tokens = self.stats.accepted_tokens.wrapping_add(1);
                s.next = s.next + 1;
                assert(s.accepted@.skip(1) =~= acc.skip(1).push(d));
                assert(s.draft@.take(s.next as int) =~= s.draft@.take(s.next - 1).push(d));
            },
            Verdict::Impossible => {
                self.stats.rejected_steps = self.stats.rejected_steps.wrapping_add(1);
                s.stopped = true;
            },
            Verdict::Resample(t) => {
                s.accepted.push(t);
                self.stats.rejected_steps = self.stats.rejected_steps.wrapping_add(1);
                s.stopped = true;
                assert(s.accepted@.skip(1).drop_last() =~= acc.skip(1));
                assert(acc.skip(1).len() == acc.len() - 1);
            },
        }
    }
}

/// Whatever the target model says, a step gives between one token and one more than was
/// drafted, and all but the first and the last of them are the draft's, in order.
pub proof fn law_speculation_bounds(s: Speculation)
    requires
        s.wf(),
    ensures
        1 <= s.accepted@.len() <= s.draft@.len() + 1,
        forall|i: int|
            1 <= i < s.accepted@.len() - 1 ==> #[trigger] s.accepted@[i] == s.draft@[i - 1],
{
    let t = s.accepted@.skip(1);
    assert(t.len() == s.accepted@.len() - 1);
    assert forall|i: int| 1 <= i < s.accepted@.len() - 1 implies #[trigger] s.accepted@[i]
        == s.draft@[i - 1] by {
        assert(t[i - 1] == s.accepted@[i]);
        if t == s.draft@.take(s.next as int) {
            assert(t[i - 1] == s.draft@[i - 1]);
        } else {
            assert(t.drop_last()[i - 1] == t[i - 1]);
            assert(s.draft@.take(s.next as int)[i - 1] == s.draft@[i - 1]);
        }
    }
}

/// The first state of the generator behind the acceptance test.
pub const RAND_SEED: u64 = 0x0123_4567_89ab_cdef;

/// The next state of the generator.
pub open spec fn xorshift64(x: u64) -> u64 {
    let a = x ^ (x << 13u64);
    let b = a ^ (a >> 7u64);
    b ^ (b << 17u64)
}

/// Steps the generator; the state over the largest number is a number from 0 to 1.
pub fn fast_rand(state: u64) -> (r: u64)
    ensures
        r == xorshift64(state),
{
    let a: u64 = state ^ (state << 13u64);
    let b: u64 = a ^ (a >> 7u64);
    b ^ (b << 17u64)
}

/// The generator never gets stuck at zero.
pub proof fn law_xorshift64_nonzero(x: u64)
    by (bit_vector)
    requires
        x != 0,
    ensures
        xorshift64(x) != 0,
{
}

/// A sequence is counted as often as it stands in the tokens: once for each place where its
/// tokens follow each other.
pub proof fn law_occurrences_are_places(tokens: Seq<usize>, a: usize, b: usize, c: usize)
    ensures
        occurrences(tokens, 1, uni(a)) == total(
            |i: int| one_if(tokens[i] == a),
            tokens.len(),
        ),
        tokens.len() >= 1 ==> occurrences(tokens, 2, bi(a, b)) == total(
            |i: int| one_if(tokens[i] == a && tokens[i + 1] == b),
            (tokens.len() - 1) as nat,
        ),
        tokens.len() >= 2 ==> occurrences(tokens, 3, tri(a, b, c)) == total(
            |i: int| one_if(tokens[i] == a && tokens[i + 1] == b && tokens[i + 2] == c),
            (tokens.len() - 2) as nat,
        ),
    decreases tokens.len(),
{
    if tokens.len() > 0 {
        let front = tokens.drop_last();
        law_occurrences_are_places(front, a, b, c);
        let n = tokens.len();
        lemma_total_same(
            |i: int| one_if(tokens[i] == a),
            |i: int| one_if(front[i] == a),
            (n - 1) as nat,
        );
        if n >= 2 {
            lemma_total_same(
                |i: int| one_if(tokens[i] == a && tokens[i + 1] == b),
                |i: int| one_if(front[i] == a && front[i + 1] == b),
                (n - 2) as nat,
            );
        }
        if n >= 3 {
            lemma_total_same(
                |i: int| one_if(tokens[i] == a && tokens[i + 1] == b && tokens[i + 2] == c),
                |i: int| one_if(front[i] == a && front[i + 1] == b && front[i + 2] == c),
                (n - 3) as nat,
            );
        }
    }
}

/// A drafted token is the best guess there is: no other followed the two tokens before it more
/// often; where none followed them, none followed the one before it more often; and else none was
/// seen more often.
pub proof fn law_draft_is_best_guess(
    m: &NgramDraft,
    ctx: &[usize],
    k: usize,
    r: (Vec<usize>, Vec<TokenCounts>),
    i: int,
    other: usize,
)
    requires
        m.wf(),
        call_ensures(NgramDraft::draft, (m, ctx, k), r),
        0 <= i < k,
    ensures
        ({
            let before = ctx@ + r.0@.take(i);
            let n = before.len() as int;
            let t = r.0@[i];
            &&& r.0@.len() == k
            &&& n >= 2 ==> m.tri_count(before[n - 2], before[n - 1], other) <= m.tri_count(
                before[n - 2],
                before[n - 1],
                t,
            )
            &&& n >= 2 && m.tri_count(before[n - 2], before[n - 1], t) == 0 ==> m.bi_count(
                before[n - 1],
                other,
            ) <= m.bi_count(before[n - 1], t)
            &&& (n < 2 || (m.tri_count(before[n - 2], before[n - 1], t) == 0 && m.bi_count(
                before[n - 1],
                t,
            ) == 0)) ==> m.uni_count(other) <= m.uni_count(t)
            &&& (forall|u: usize| #[trigger] m.uni_count(u) == 0) && (n < 2 || (forall|u: usize|
                #[trigger] m.bi_count(before[n - 1], u) == 0 && m.tri_count(
                    before[n - 2],
                    before[n - 1],
                    u,
                ) == 0)) ==> t == 1
        }),
{
    let before = ctx@ + r.0@.take(i);
    let n = before.len() as int;
    let t = r.0@[i];
    assert(m.predicts(before, t));
    if n >= 2 {
        let (a, b) = (before[n - 2], before[n - 1]);
        if exists|c: usize| #[trigger] m.tri_count(a, b, c) > 0 {
            assert(m.tri_count(a, b, other) <= m.tri_count(a, b, t));
        } else {
            assert(!(m.tri_count(a, b, other) > 0) && !(m.tri_count(a, b, t) > 0));
            if exists|c: usize| #[trigger] m.bi_count(b, c) > 0 {
                assert(m.bi_count(b, other) <= m.bi_count(b, t));
            } else {
                assert(!(m.bi_count(b, other) > 0));
                assert(!(m.uni_count(other) > 0) || m.uni_count(other) <= m.uni_count(t));
            }
        }
    } else {
        assert(!(m.uni_count(other) > 0) || m.uni_count(other) <= m.uni_count(t));
    }
    assert(!(m.uni_count(t) > 0) || m.uni_count(t) > 0);
}

/// The counts behind a probability are those of the token itself, of it behind the last token,
/// and of it behind the last two.
pub proof fn law_counts_of_endings(
    m: &NgramDraft,
    token: usize,
    ctx: &[usize],
    r: TokenCounts,
    a: usize,
    b: usize,
)
    requires
        m.wf(),
        call_ensures(NgramDraft::token_probability, (m, token, ctx), r),
        m.seen() <= u64::MAX,
        m.uni_count(token) <= u64::MAX,
        m.bi_count(b, token) <= u64::MAX,
        m.tri_count(a, b, token) <= u64::MAX,
    ensures
        r.unigram == m.uni_count(token),
        r.total == m.seen(),
        ctx@.len() >= 1 && ctx@.last() == b ==> r.bigram == m.bi_count(b, token),
        ctx@.len() >= 2 && ctx@.last() == b && ctx@[ctx@.len() - 2] == a ==> r.trigram
            == m.tri_count(a, b, token),
        ctx@.len() == 0 ==> r.bigram == 0,
        ctx@.len() < 2 ==> r.trigram == 0,
{
}

/// A probability rests on the longest sequence that makes up more than a hundredth of what was
/// seen.
pub proof fn law_tier_needs_hundredth(c: &TokenCounts, r: Tier)
    requires
        c.total >= 1,
        call_ensures(TokenCounts::tier, (c,), r),
    ensures
        r == Tier::Trigram <==> 100 * c.trigram > c.total,
        r == Tier::Bigram <==> 100 * c.trigram <= c.total && 100 * c.bigram > c.total,
        r == Tier::Unigram <==> 100 * c.trigram <= c.total && 100 * c.bigram <= c.total,
{
}

/// Nothing is drafted of what is decided: a draft offers its next token until it is stopped or
/// used up.
pub proof fn law_pending_is_next(s: &Speculation, r: Option<usize>)
    requires
        s.wf(),
        call_ensures(Speculation::pending, (s,), r),
    ensures
        r matches Some(t) ==> !s.stopped && s.next < s.draft@.len() && t == s.draft@[s.next as int],
        r is None ==> s.stopped || s.next == s.draft@.len(),
        s.next == 0 && !s.stopped && s.draft@.len() > 0 ==> r == Some(s.draft@[0]),
{
}

/// A step of the generator can be undone, so no two states lead to the same one.
pub proof fn law_xorshift64_undone(x: u64)
    ensures
        undone64(xorshift64(x)) == x,
{
    let a = x ^ (x << 13u64);
    let b = a ^ (a >> 7u64);
    let r = b ^ (b << 17u64);
    assert(r ^ (r << 17u64) ^ (r << 34u64) ^ (r << 51u64) == b) by (bit_vector)
        requires
            r == b ^ (b << 17u64),
    ;
    assert(b ^ (b >> 7u64) ^ (b >> 14u64) ^ (b >> 21u64) ^ (b >> 28u64) ^ (b >> 35u64) ^ (b
        >> 42u64) ^ (b >> 49u64) ^ (b >> 56u64) ^ (b >> 63u64) == a) by (bit_vector)
        requires
            b == a ^ (a >> 7u64),
    ;
    assert(a ^ (a << 13u64) ^ (a << 26u64) ^ (a << 39u64) ^ (a << 52u64) == x) by (bit_vector)
        requires
            a == x ^ (x << 13u64),
    ;
}

/// The state before a step of the generator: every shift is taken back by the sum of its
/// multiples.
pub open spec fn undone64(r: u64) -> u64 {
    let b = r ^ (r << 17u64) ^ (r << 34u64) ^ (r << 51u64);
    let a = b ^ (b >> 7u64) ^ (b >> 14u64) ^ (b >> 21u64) ^ (b >> 28u64) ^ (b >> 35u64) ^ (b >> 42u64)
        ^ (b >> 49u64) ^ (b >> 56u64) ^ (b >> 63u64);
    a ^ (a << 13u64) ^ (a << 26u64) ^ (a << 39u64) ^ (a << 52u64)
}

/// A token behind others that were observed adds one to the vocabulary exactly where it was not
/// seen before, and adds one to its own count and to no other.
pub proof fn law_one_more_observed(
    some: &mut NgramDraft,
    all: &mut NgramDraft,
    tokens: &[usize],
    more: &[usize],
    t: usize,
    u: usize,
)
    requires
        old(some).wf(),
        *old(all) == *old(some),
        old(some).seen() + more@.len() <= u64::MAX,
        more@ == tokens@.push(t),
        call_ensures(NgramDraft::observe, (some, tokens), ()),
        call_ensures(NgramDraft::observe, (all, more), ()),
    ensures
        final(all).seen() == final(some).seen() + 1,
        final(all).vocab() == final(some).vocab() + if final(some).uni_count(t) == 0 {
            1int
        } else {
            0
        },
        final(all).uni_count(u) == final(some).uni_count(u) + if u == t {
            1int
        } else {
            0
        },
{
    assert(more@.drop_last() =~= tokens@);
    assert(more@.last() == t);
    assert(gram_at(more@, 1, more@.len() - 1) == uni(t));
}

} // verus!
