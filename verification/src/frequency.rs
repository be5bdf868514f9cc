//! The frequency counter: an associative counter from derived prefixes
//! to occurrence counts, with increment-or-insert semantics.

use vstd::prelude::*;

verus! {

/// Count recorded for the prefix `v`: the count stored beside the last
/// key whose characters equal `v`, or zero when no key matches.
pub open spec fn lookup(ks: Seq<String>, cs: Seq<usize>, v: Seq<char>) -> int
    decreases ks.len(),
{
    if ks.len() == 0 || cs.len() == 0 {
        0
    } else if ks.last()@ == v {
        cs.last() as int
    } else {
        lookup(ks.drop_last(), cs.drop_last(), v)
    }
}

/// Accumulates occurrence counts for derived prefixes. Prefixes are kept
/// in first-observation order; each carries the number of times it was
/// counted.
pub struct FrequencyCounter {
    /// The distinct prefixes observed so far.
    pub keys: Vec<String>,
    /// The count of each prefix, position by position.
    pub counts: Vec<usize>,
}

impl FrequencyCounter {
    /// The two columns line up and no prefix appears twice.
    pub open spec fn wf(self) -> bool {
        &&& self.keys@.len() == self.counts@.len()
        &&& forall|i: int, j: int|
            0 <= i < j < self.keys@.len() ==> (#[trigger] self.keys@[i])@ != (
            #[trigger] self.keys@[j])@
    }

    /// Count recorded for the prefix `v`.
    pub open spec fn spec_count(self, v: Seq<char>) -> int {
        lookup(self.keys@, self.counts@, v)
    }

    /// Number of distinct prefixes observed.
    pub open spec fn spec_len(self) -> int {
        self.keys@.len() as int
    }

    /// An empty counter.
    pub fn new() -> (r: Self)
        ensures
            r.wf(),
            r.spec_len() == 0,
            forall|v: Seq<char>| r.spec_count(v) == 0,
    {
        FrequencyCounter { keys: Vec::new(), counts: Vec::new() }
    }

    /// Number of distinct prefixes observed.
    pub fn len(&self) -> (n: usize)
        ensures
            n as int == self.spec_len(),
    {
        self.keys.len()
    }

    /// The prefix at position `i`.
    pub fn key_at(&self, i: usize) -> (k: &String)
        requires
            0 <= i < self.spec_len(),
        ensures
            k == self.keys@[i as int],
    {
        &self.keys[i]
    }

    /// The count at position `i`.
    pub fn count_at(&self, i: usize) -> (c: usize)
        requires
            0 <= i < self.spec_len(),
            i < self.counts@.len(),
        ensures
            c == self.counts@[i as int],
    {
        self.counts[i]
    }

    /// If `value` is absent, insert it with count one; otherwise add one
    /// to its count.
    pub fn increment(&mut self, value: String)
        requires
            old(self).wf(),
            old(self).spec_count(value@) < usize::MAX,
        ensures
            final(self).wf(),
            forall|v: Seq<char>|
                final(self).spec_count(v) == old(self).spec_count(v) + (if v == value@ {
                    1int
                } else {
                    0int
                }),
            final(self).spec_len() == old(self).spec_len() || final(self).spec_len() == old(
                self,
            ).spec_len() + 1,
    {
        let ghost pre = *old(self);
        let n = self.keys.len();
        let mut i: usize = 0;
        while i < n
            invariant
                *self == pre,
                pre == *old(self),
                pre.wf(),
                pre.spec_count(value@) < usize::MAX,
                n == pre.keys@.len(),
                i <= n,
                forall|t: int| 0 <= t < i ==> (#[trigger] pre.keys@[t])@ != value@,
            decreases n - i,
        {
            if self.keys[i] == value {
                proof {
                    lemma_lookup_at_index(pre.keys@, pre.counts@, i as int);
                }
                let c = self.counts[i];
                self.counts[i] = c + 1;
                proof {
                    assert(self.keys@ == pre.keys@);
                    assert(self.counts@ =~= pre.counts@.update(i as int, (c + 1) as usize));
                    lemma_lookup_update(pre.keys@, pre.counts@, i as int, (c + 1) as usize);
                    assert forall|v: Seq<char>|
                        self.spec_count(v) == pre.spec_count(v) + (if v == value@ {
                            1int
                        } else {
                            0int
                        }) by {
                        if v == value@ {
                            assert(self.spec_count(v) == c + 1);
                        }
                    }
                }
                return ;
            }
            i = i + 1;
        }
        self.keys.push(value);
        self.counts.push(1);
        proof {
            assert(self.keys@.drop_last() =~= pre.keys@);
            assert(self.counts@.drop_last() =~= pre.counts@);
            assert forall|v: Seq<char>|
                self.spec_count(v) == pre.spec_count(v) + (if v == value@ {
                    1int
                } else {
                    0int
                }) by {
                if v == value@ {
                    lemma_lookup_absent(pre.keys@, pre.counts@, v);
                }
            }
        }
    }
}

/// When no key of the counter has the characters `v`, the recorded count
/// is zero.
proof fn lemma_lookup_absent(ks: Seq<String>, cs: Seq<usize>, v: Seq<char>)
    requires
        forall|t: int| 0 <= t < ks.len() ==> (#[trigger] ks[t])@ != v,
    ensures
        lookup(ks, cs, v) == 0,
    decreases ks.len(),
{
    if ks.len() > 0 && cs.len() > 0 {
        lemma_lookup_absent(ks.drop_last(), cs.drop_last(), v);
    }
}

/// In a counter without repeated keys, the recorded count of the key at
/// position `i` is the count stored at position `i`.
proof fn lemma_lookup_at_index(ks: Seq<String>, cs: Seq<usize>, i: int)
    requires
        ks.len() == cs.len(),
        0 <= i < ks.len(),
        forall|t: int, u: int| 0 <= t < u < ks.len() ==> (#[trigger] ks[t])@ != (#[trigger] ks[u])@,
    ensures
        lookup(ks, cs, ks[i]@) == cs[i] as int,
    decreases ks.len(),
{
    if i == ks.len() - 1 {
    } else {
        assert(ks.drop_last()[i] == ks[i]);
        lemma_lookup_at_index(ks.drop_last(), cs.drop_last(), i);
    }
}

/// Raising the count stored beside the key at position `i` raises the
/// recorded count of that key alone.
proof fn lemma_lookup_update(ks: Seq<String>, cs: Seq<usize>, i: int, c: usize)
    requires
        ks.len() == cs.len(),
        0 <= i < ks.len(),
        forall|t: int, u: int| 0 <= t < u < ks.len() ==> (#[trigger] ks[t])@ != (#[trigger] ks[u])@,
    ensures
        forall|v: Seq<char>|
            lookup(ks, cs.update(i, c), v) == (if v == ks[i]@ {
                c as int
            } else {
                lookup(ks, cs, v)
            }),
    decreases ks.len(),
{
    let cs2 = cs.update(i, c);
    if i == ks.len() - 1 {
        assert forall|v: Seq<char>|
            lookup(ks, cs2, v) == (if v == ks[i]@ {
                c as int
            } else {
                lookup(ks, cs, v)
            }) by {
            assert(cs2.last() == c);
            assert(cs2.drop_last() =~= cs.drop_last());
        }
    } else {
        lemma_lookup_update(ks.drop_last(), cs.drop_last(), i, c);
        assert forall|v: Seq<char>|
            lookup(ks, cs2, v) == (if v == ks[i]@ {
                c as int
            } else {
                lookup(ks, cs, v)
            }) by {
            assert(cs2.last() == cs.last());
            assert(cs2.drop_last() =~= cs.drop_last().update(i, c));
            assert(ks.drop_last()[i] == ks[i]);
            assert(lookup(ks.drop_last(), cs.drop_last().update(i, c), v) == (if v
                == ks.drop_last()[i]@ {
                c as int
            } else {
                lookup(ks.drop_last(), cs.drop_last(), v)
            }));
            assert(ks[i]@ != ks[ks.len() - 1]@);
        }
    }
}

/// A recorded count that is not zero points at a position of the counter:
/// the key there has the characters `v` and carries that count.
pub proof fn lemma_lookup_index_exists(ks: Seq<String>, cs: Seq<usize>, v: Seq<char>)
    requires
        ks.len() == cs.len(),
        lookup(ks, cs, v) != 0,
    ensures
        exists|i: int|
            0 <= i < ks.len() && (#[trigger] ks[i])@ == v && cs[i] as int == lookup(ks, cs, v),
    decreases ks.len(),
{
    if ks.len() > 0 {
        if ks.last()@ == v {
            assert(ks[ks.len() - 1]@ == v && cs[ks.len() - 1] as int == lookup(ks, cs, v));
        } else {
            lemma_lookup_index_exists(ks.drop_last(), cs.drop_last(), v);
            let i = choose|i: int|
                0 <= i < ks.drop_last().len() && (#[trigger] ks.drop_last()[i])@ == v
                    && cs.drop_last()[i] as int == lookup(ks.drop_last(), cs.drop_last(), v);
            assert(ks[i]@ == v && cs[i] as int == lookup(ks, cs, v));
        }
    }
}

/// In a counter without repeated keys, the recorded count of the key at
/// position `i` is the count stored at position `i`.
pub proof fn lemma_count_at_index(counter: FrequencyCounter, i: int)
    requires
        counter.wf(),
        0 <= i < counter.spec_len(),
    ensures
        counter.spec_count(counter.keys@[i]@) == counter.counts@[i] as int,
{
    lemma_lookup_at_index(counter.keys@, counter.counts@, i);
}

} // verus!
