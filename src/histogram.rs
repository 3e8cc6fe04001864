use std::collections::HashMap;
use vstd::prelude::*;

use crate::sequence::{lemma_valid_key_fits, lemma_valid_key_injective, seq_key, valid_seq, BcSegSeq};

verus! {

broadcast use vstd::std_specs::hash::group_hash_axioms;

/// The entries of a histogram: each observed sequence with its count, in
/// the order in which the sequences were first observed.
pub type HistogramView = Seq<(Seq<u8>, u64)>;

/// No sequence appears twice.
pub open spec fn distinct_keys(e: HistogramView) -> bool {
    forall|i: int, j: int| 0 <= i < j < e.len() ==> (#[trigger] e[i]).0 != (#[trigger] e[j]).0
}

/// The count of `k`, zero where it was never observed.
pub open spec fn count_of(e: HistogramView, k: Seq<u8>) -> int
    decreases e.len(),
{
    if e.len() == 0 {
        0
    } else if e.last().0 == k {
        e.last().1 as int
    } else {
        count_of(e.drop_last(), k)
    }
}

/// The sum of all counts.
pub open spec fn total_of(e: HistogramView) -> int
    decreases e.len(),
{
    if e.len() == 0 {
        0
    } else {
        total_of(e.drop_last()) + e.last().1
    }
}

/// The entries after `n` more observations of `k`.
pub open spec fn spec_observe(e: HistogramView, k: Seq<u8>, n: u64) -> HistogramView {
    if exists|i: int| 0 <= i < e.len() && (#[trigger] e[i]).0 == k {
        let i = choose|i: int| 0 <= i < e.len() && (#[trigger] e[i]).0 == k;
        e.update(i, (k, (e[i].1 + n) as u64))
    } else {
        e.push((k, n))
    }
}

/// The entries after observing each entry of `f` in turn.
pub open spec fn observe_all(e: HistogramView, f: HistogramView) -> HistogramView
    decreases f.len(),
{
    if f.len() == 0 {
        e
    } else {
        spec_observe(observe_all(e, f.drop_last()), f.last().0, f.last().1)
    }
}

/// A count of observations per barcode sequence.
#[derive(Debug)]
pub struct SimpleHistogram {
    keys: Vec<BcSegSeq>,
    counts: Vec<u64>,
    index: HashMap<u128, usize>,
    total: u64,
}

proof fn lemma_total_update(e: HistogramView, i: int, c: u64)
    requires
        0 <= i < e.len(),
    ensures
        total_of(e.update(i, (e[i].0, c))) == total_of(e) - e[i].1 + c,
    decreases e.len(),
{
    if i < e.len() - 1 {
        lemma_total_update(e.drop_last(), i, c);
        assert(e.update(i, (e[i].0, c)).drop_last() =~= e.drop_last().update(i, (e[i].0, c)));
    } else {
        assert(e.update(i, (e[i].0, c)).drop_last() =~= e.drop_last());
    }
}

proof fn lemma_count_update(e: HistogramView, i: int, c: u64, k: Seq<u8>)
    requires
        0 <= i < e.len(),
        distinct_keys(e),
    ensures
        count_of(e.update(i, (e[i].0, c)), k) == if k == e[i].0 {
            c as int
        } else {
            count_of(e, k)
        },
    decreases e.len(),
{
    if i < e.len() - 1 {
        assert(e.update(i, (e[i].0, c)).drop_last() =~= e.drop_last().update(i, (e[i].0, c)));
        lemma_count_update(e.drop_last(), i, c, k);
        assert(e.last().0 != e[i].0);
    } else {
        assert(e.update(i, (e[i].0, c)).drop_last() =~= e.drop_last());
    }
}

pub proof fn lemma_count_absent(e: HistogramView, k: Seq<u8>)
    requires
        forall|i: int| 0 <= i < e.len() ==> (#[trigger] e[i]).0 != k,
    ensures
        count_of(e, k) == 0,
    decreases e.len(),
{
    if e.len() > 0 {
        assert(e.last().0 != k);
        lemma_count_absent(e.drop_last(), k);
    }
}

/// With distinct keys, the count of the sequence at `i` is its entry's count.
pub proof fn lemma_count_at(e: HistogramView, i: int)
    requires
        0 <= i < e.len(),
        distinct_keys(e),
    ensures
        count_of(e, e[i].0) == e[i].1,
    decreases e.len(),
{
    if i < e.len() - 1 {
        assert(e.last().0 != e[i].0);
        lemma_count_at(e.drop_last(), i);
    }
}

impl SimpleHistogram {
    /// The entries of the histogram.
    pub closed spec fn view(&self) -> HistogramView {
        Seq::new(self.keys@.len(), |i: int| (self.keys@[i]@, self.counts@[i]))
    }

    /// The histogram's internal invariant: its index files each sequence
    /// under its key, and its total is the sum of its counts.
    pub closed spec fn wf(&self) -> bool {
        &&& self.keys@.len() == self.counts@.len()
        &&& forall|i: int| 0 <= i < self.keys@.len() ==> valid_seq(#[trigger] self.keys@[i]@)
        &&& forall|i: int|
            0 <= i < self.keys@.len() ==> #[trigger] self.index@.contains_key(
                seq_key(self.keys@[i]@) as u128,
            ) && self.index@[seq_key(self.keys@[i]@) as u128] == i
        &&& forall|k: u128| #[trigger]
            self.index@.contains_key(k) ==> self.index@[k] < self.keys@.len() && seq_key(
                self.keys@[self.index@[k] as int]@,
            ) == k
        &&& self.total == total_of(self.view())
    }

    /// An empty histogram.
    pub fn new() -> (r: SimpleHistogram)
        ensures
            r.wf(),
            r.view() == Seq::<(Seq<u8>, u64)>::empty(),
    {
        let r = SimpleHistogram { keys: Vec::new(), counts: Vec::new(), index: HashMap::new(), total: 0 };
        assert(r.view() =~= Seq::<(Seq<u8>, u64)>::empty());
        r
    }

    /// The number of distinct sequences observed.
    pub fn len(&self) -> (r: usize)
        requires
            self.wf(),
        ensures
            r == self.view().len(),
    {
        self.keys.len()
    }

    /// The sum of all counts.
    pub fn total(&self) -> (r: u64)
        requires
            self.wf(),
        ensures
            r == total_of(self.view()),
            distinct_keys(self.view()),
    {
        proof {
            self.lemma_distinct();
        }
        self.total
    }

    proof fn lemma_distinct(&self)
        requires
            self.wf(),
        ensures
            distinct_keys(self.view()),
    {
        assert forall|i: int, j: int|
            0 <= i < j < self.view().len() implies (#[trigger] self.view()[i]).0 != (
            #[trigger] self.view()[j]).0 by {
            let ki = seq_key(self.keys@[i]@) as u128;
            let kj = seq_key(self.keys@[j]@) as u128;
            assert(self.view()[i].0 == self.keys@[i]@);
            assert(self.view()[j].0 == self.keys@[j]@);
            assert(self.index@.contains_key(ki));
            assert(self.index@.contains_key(kj));
            if self.keys@[i]@ == self.keys@[j]@ {
                assert(self.index@[ki] == i);
                assert(self.index@[kj] == j);
            }
        }
    }

    /// The sequence and count of entry `i`.
    pub fn entry(&self, i: usize) -> (r: (&BcSegSeq, u64))
        requires
            self.wf(),
            i < self.view().len(),
        ensures
            r.0@ == self.view()[i as int].0,
            r.1 == self.view()[i as int].1,
    {
        (&self.keys[i], self.counts[i])
    }

    /// The count of `key`.
    pub fn get(&self, key: &BcSegSeq) -> (r: u64)
        requires
            self.wf(),
        ensures
            r == count_of(self.view(), key@),
    {
        proof {
            self.lemma_distinct();
        }
        let k = key.key();
        proof {
            lemma_valid_key_fits(key@);
        }
        match self.index.get(&k) {
            Some(i) => {
                let i = *i;
                proof {
                    lemma_valid_key_fits(self.keys@[i as int]@);
                    lemma_valid_key_injective(self.keys@[i as int]@, key@);
                    lemma_count_at(self.view(), i as int);
                }
                self.counts[i]
            },
            None => {
                proof {
                    assert forall|j: int| 0 <= j < self.view().len() implies (#[trigger] self.view()[j]).0
                        != key@ by {
                        if self.keys@[j]@ == key@ {
                            assert(self.index@.contains_key(seq_key(self.keys@[j]@) as u128));
                        }
                    }
                    lemma_count_absent(self.view(), key@);
                }
                0
            },
        }
    }

    /// Adds `n` observations of `key`.
    pub fn observe_by(&mut self, key: &BcSegSeq, n: u64)
        requires
            old(self).wf(),
            total_of(old(self).view()) + n <= u64::MAX,
        ensures
            final(self).wf(),
            final(self).view() == spec_observe(old(self).view(), key@, n),
            total_of(final(self).view()) == total_of(old(self).view()) + n,
    {
        proof {
            self.lemma_distinct();
        }
        let ghost e = self.view();
        let k = key.key();
        proof {
            lemma_valid_key_fits(key@);
        }
        let found = match self.index.get(&k) {
            Some(i) => Some(*i),
            None => None,
        };
        match found {
            Some(i) => {
                proof {
                    lemma_valid_key_fits(self.keys@[i as int]@);
                    lemma_valid_key_injective(self.keys@[i as int]@, key@);
                    lemma_count_at(e, i as int);
                    lemma_total_update(e, i as int, (e[i as int].1 + n) as u64);
                    assert(e[i as int].1 <= total_of(e)) by {
                        lemma_entry_le_total(e, i as int);
                    }
                    let c = choose|c: int| 0 <= c < e.len() && (#[trigger] e[c]).0 == key@;
                    assert(c == i) by {
                        if c != i {
                            assert(e[c].0 == e[i as int].0);
                        }
                    }
                }
                let c = self.counts[i] + n;
                self.counts.set(i, c);
                self.total = self.total + n;
                proof {
                    assert(self.view() =~= e.update(i as int, (key@, c)));
                }
            },
            None => {
                proof {
                    assert forall|j: int| 0 <= j < e.len() implies (#[trigger] e[j]).0 != key@ by {
                        if self.keys@[j]@ == key@ {
                            assert(self.index@.contains_key(seq_key(self.keys@[j]@) as u128));
                        }
                    }
                }
                let pos = self.keys.len();
                let copy = key.duplicate();
                self.keys.push(copy);
                self.counts.push(n);
                self.index.insert(k, pos);
                self.total = self.total + n;
                proof {
                    assert(self.view() =~= e.push((key@, n)));
                    assert(e.push((key@, n)).drop_last() =~= e);
                    assert forall|j: int| 0 <= j < self.keys@.len() implies #[trigger] self.index@.contains_key(
                        seq_key(self.keys@[j]@) as u128,
                    ) && self.index@[seq_key(self.keys@[j]@) as u128] == j by {
                        if j < pos {
                            lemma_valid_key_fits(self.keys@[j]@);
                            if seq_key(self.keys@[j]@) as u128 == k {
                                lemma_valid_key_injective(self.keys@[j]@, key@);
                            }
                        }
                    }
                }
            },
        }
    }

    /// Adds the observations of `other`.
    pub fn merge(&mut self, other: &SimpleHistogram)
        requires
            old(self).wf(),
            other.wf(),
            total_of(old(self).view()) + total_of(other.view()) <= u64::MAX,
        ensures
            final(self).wf(),
            final(self).view() == observe_all(old(self).view(), other.view()),
            total_of(final(self).view()) == total_of(old(self).view()) + total_of(other.view()),
    {
        let ghost start = self.view();
        let ghost f = other.view();
        let n = other.len();
        let mut i: usize = 0;
        while i < n
            invariant
                0 <= i <= n,
                self.wf(),
                other.wf(),
                n == f.len(),
                f == other.view(),
                self.view() == observe_all(start, f.subrange(0, i as int)),
                total_of(self.view()) == total_of(start) + total_of(f.subrange(0, i as int)),
                total_of(start) + total_of(f) <= u64::MAX,
            decreases n - i,
        {
            let (k, c) = other.entry(i);
            proof {
                assert(f.subrange(0, i + 1).drop_last() =~= f.subrange(0, i as int));
                lemma_prefix_total_le(f, i + 1);
            }
            self.observe_by(k, c);
            i += 1;
        }
        assert(f.subrange(0, n as int) =~= f);
    }
}

/// An entry's count is at most the total.
pub proof fn lemma_entry_le_total(e: HistogramView, i: int)
    requires
        0 <= i < e.len(),
    ensures
        e[i].1 <= total_of(e),
    decreases e.len(),
{
    lemma_total_nonneg(e.drop_last());
    if i < e.len() - 1 {
        lemma_entry_le_total(e.drop_last(), i);
    }
}

pub proof fn lemma_total_nonneg(e: HistogramView)
    ensures
        total_of(e) >= 0,
    decreases e.len(),
{
    if e.len() > 0 {
        lemma_total_nonneg(e.drop_last());
    }
}

/// The total of a prefix is at most the total.
pub proof fn lemma_prefix_total_le(e: HistogramView, n: int)
    requires
        0 <= n <= e.len(),
    ensures
        total_of(e.subrange(0, n)) <= total_of(e),
        total_of(e.subrange(0, n)) + e.subrange(n, e.len() as int).len() * 0 <= total_of(e),
    decreases e.len() - n,
{
    if n < e.len() {
        lemma_prefix_total_le(e, n + 1);
        assert(e.subrange(0, n + 1).drop_last() =~= e.subrange(0, n));
    } else {
        assert(e.subrange(0, n) =~= e);
    }
}

} // verus!
