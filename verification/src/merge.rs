use vstd::prelude::*;

use crate::pattern::Iter;
use crate::stamp::MAX_DAY;
use crate::stamp::Stamp;

verus! {

/// Index of the first minimum key among the pending stamps: the least
/// timestamp, with ties broken towards the earliest source.
pub open spec fn first_min_index(pend: Seq<Stamp>) -> int
    decreases pend.len(),
{
    if pend.len() <= 1 {
        0
    } else {
        let i = first_min_index(pend.drop_last());
        if pend.last().key() < pend[i].key() {
            pend.len() - 1
        } else {
            i
        }
    }
}

/// The first minimum index points at a least key and every earlier entry is
/// strictly larger.
pub proof fn lemma_first_min(pend: Seq<Stamp>)
    requires
        pend.len() > 0,
    ensures
        0 <= first_min_index(pend) < pend.len(),
        forall|j: int|
            0 <= j < pend.len() ==> pend[first_min_index(pend)].key() <= (#[trigger] pend[j]).key(),
        forall|j: int|
            0 <= j < first_min_index(pend) ==> (#[trigger] pend[j]).key()
                > pend[first_min_index(pend)].key(),
    decreases pend.len(),
{
    if pend.len() > 1 {
        lemma_first_min(pend.drop_last());
        assert(forall|j: int| 0 <= j < pend.len() - 1 ==> pend.drop_last()[j] == pend[j]);
    }
}

/// How far one pending stamp still is from passing `bound`, at least zero.
pub open spec fn pot1(key: int, bound: int) -> int {
    if key <= bound {
        bound + 1 - key
    } else {
        0
    }
}

/// How far the pending stamps together still are from all passing `bound`:
/// each pull of a pending value at or below `bound` strictly shrinks this.
pub open spec fn potential(pend: Seq<Stamp>, bound: int) -> int
    decreases pend.len(),
{
    if pend.len() == 0 {
        0
    } else {
        potential(pend.drop_last(), bound) + pot1(pend.last().key(), bound)
    }
}

/// The potential never goes below zero.
pub proof fn lemma_potential_nonneg(pend: Seq<Stamp>, bound: int)
    ensures
        potential(pend, bound) >= 0,
    decreases pend.len(),
{
    if pend.len() > 0 {
        lemma_potential_nonneg(pend.drop_last(), bound);
    }
}

/// Replacing one pending stamp moves the potential by the difference of the
/// two entries' own distances.
pub proof fn lemma_potential_update(pend: Seq<Stamp>, i: int, s: Stamp, bound: int)
    requires
        0 <= i < pend.len(),
    ensures
        potential(pend.update(i, s), bound) == potential(pend, bound) - pot1(pend[i].key(), bound)
            + pot1(s.key(), bound),
    decreases pend.len(),
{
    let u = pend.update(i, s);
    if i == pend.len() - 1 {
        assert(u.drop_last() =~= pend.drop_last());
        assert(u.last() == s);
    } else {
        assert(u.drop_last() =~= pend.drop_last().update(i, s));
        assert(u.last() == pend.last());
        lemma_potential_update(pend.drop_last(), i, s, bound);
    }
}

/// The k-way merge of several positioned iterators into one globally ordered
/// occurrence sequence: one pending value per source; each pull emits the
/// least pending value and refills only its source.
pub struct MergedIterator {
    pub sources: Vec<Iter>,
    pub pending: Vec<Stamp>,
    pub hist: Ghost<Seq<int>>,
}

impl MergedIterator {
    /// Validity: one valid pending stamp per valid source, each source's next
    /// emission strictly above its pending value, and everything emitted so
    /// far ordered and at or below every pending value.
    pub open spec fn wf(self) -> bool {
        &&& self.sources@.len() == self.pending@.len()
        &&& self.sources@.len() <= usize::MAX
        &&& forall|i: int| 0 <= i < self.sources@.len() ==> (#[trigger] self.sources@[i]).wf()
        &&& forall|i: int| 0 <= i < self.pending@.len() ==> (#[trigger] self.pending@[i]).wf()
        &&& forall|i: int|
            0 <= i < self.pending@.len() ==> (#[trigger] self.pending@[i]).key()
                < self.sources@[i].peek().key()
        &&& forall|i: int|
            0 <= i < self.pending@.len() && self.hist@.len() > 0 ==> self.hist@.last()
                <= (#[trigger] self.pending@[i]).key()
        &&& forall|k1: int, k2: int|
            0 <= k1 < k2 < self.hist@.len() ==> self.hist@[k1] <= self.hist@[k2]
    }

    /// Build the merge by pulling each source once to seed its pending
    /// value. Fails only at the far end of the representable range.
    #[verifier::loop_isolation(false)]
    pub fn new(sources: Vec<Iter>) -> (r: Option<MergedIterator>)
        requires
            forall|i: int| 0 <= i < sources@.len() ==> (#[trigger] sources@[i]).wf(),
        ensures
            r is Some <==> (forall|i: int|
                0 <= i < sources@.len() ==> (#[trigger] sources@[i]).date + 7 <= MAX_DAY),
            r is Some ==> r.unwrap().wf(),
            r is Some ==> r.unwrap().sources@.len() == sources@.len(),
            r is Some ==> r.unwrap().hist@ == Seq::<int>::empty(),
            r is Some ==> forall|i: int|
                0 <= i < sources@.len() ==> r.unwrap().sources@[i] == (#[trigger] sources@[i]).spec_step()
                    && r.unwrap().pending@[i] == sources@[i].peek(),
    {
        let ghost orig = sources@;
        let mut rest = sources;
        let mut seeded: Vec<Iter> = Vec::new();
        let mut pending: Vec<Stamp> = Vec::new();
        while rest.len() > 0
            invariant
                seeded@.len() == pending@.len(),
                seeded@.len() + rest@.len() == orig.len(),
                rest@ == orig.subrange(seeded@.len() as int, orig.len() as int),
                forall|i: int| 0 <= i < orig.len() ==> (#[trigger] orig[i]).wf(),
                forall|i: int|
                    0 <= i < seeded@.len() ==> (#[trigger] seeded@[i]) == orig[i].spec_step()
                        && pending@[i] == orig[i].peek() && orig[i].date + 7 <= MAX_DAY
                        && seeded@[i].wf() && pending@[i].wf(),
            decreases rest@.len(),
        {
            let mut it = rest.remove(0);
            let ghost k = seeded@.len() as int;
            proof {
                assert(it == orig[k]);
            }
            match it.next() {
                None => {
                    proof {
                        assert(sources@[k].date + 7 > MAX_DAY);
                    }
                    return None;
                },
                Some(st) => {
                    seeded.push(it);
                    pending.push(st);
                },
            }
            proof {
                assert(rest@ =~= orig.subrange(seeded@.len() as int, orig.len() as int));
            }
        }
        let n = seeded.len();
        let r = MergedIterator { sources: seeded, pending, hist: Ghost(Seq::empty()) };
        proof {
            assert(r.sources@.len() == n);
            assert forall|i: int| 0 <= i < sources@.len() implies (#[trigger] sources@[i]).date + 7
                <= MAX_DAY by {
                assert(seeded@[i] == orig[i].spec_step());
            }
            assert forall|i: int| 0 <= i < r.sources@.len() implies (#[trigger] r.pending@[i]).key()
                < r.sources@[i].peek().key() by {
                assert(seeded@[i] == orig[i].spec_step());
                orig[i].lemma_peek_strictly_increases();
            }
            assert forall|i: int| 0 <= i < r.sources@.len() implies (#[trigger] r.sources@[i]).wf()
                && r.pending@[i].wf() by {
                assert(seeded@[i] == orig[i].spec_step() && seeded@[i].wf());
            }
        }
        Some(r)
    }

    /// How many sources feed the merge.
    pub fn source_count(&self) -> (n: usize)
        ensures
            n == self.sources@.len(),
    {
        self.sources.len()
    }

    /// One pull: emit the least pending timestamp (ties towards the earliest
    /// source) and refill only that source. Returns nothing when there is no
    /// source, or at the far end of the representable range; otherwise the
    /// merged output never decreases.
    pub fn next(&mut self) -> (r: Option<Stamp>)
        requires
            old(self).wf(),
        ensures
            final(self).wf(),
            old(self).sources@.len() == 0 ==> r is None && *final(self) == *old(self),
            old(self).sources@.len() > 0 ==> {
                let i = first_min_index(old(self).pending@);
                if old(self).sources@[i].date + 7 <= MAX_DAY {
                    &&& r == Some(old(self).pending@[i])
                    &&& r.unwrap().wf()
                    &&& final(self).sources@ == old(self).sources@.update(
                        i,
                        old(self).sources@[i].spec_step(),
                    )
                    &&& final(self).pending@ == old(self).pending@.update(
                        i,
                        old(self).sources@[i].peek(),
                    )
                    &&& final(self).hist@ == old(self).hist@.push(old(self).pending@[i].key())
                    &&& forall|j: int|
                        0 <= j < old(self).pending@.len() ==> r.unwrap().key()
                            <= (#[trigger] old(self).pending@[j]).key()
                    &&& (old(self).hist@.len() > 0 ==> r.unwrap().key() >= old(self).hist@.last())
                } else {
                    &&& r is None
                    &&& final(self).sources@ == old(self).sources@
                    &&& final(self).pending@ == old(self).pending@
                    &&& final(self).hist@ == old(self).hist@
                }
            },
    {
        if self.sources.len() == 0 {
            return None;
        }
        proof {
            lemma_first_min(self.pending@);
        }
        let mut best: usize = 0;
        let mut bk: i64 = self.pending[0].key_val();
        let mut j: usize = 1;
        while j < self.pending.len()
            invariant
                *old(self) == *self,
                self.wf(),
                self.pending@.len() > 0,
                1 <= j <= self.pending@.len(),
                0 <= best < j,
                best == first_min_index(self.pending@.take(j as int)),
                bk == self.pending@[best as int].key(),
            decreases self.pending@.len() - j,
        {
            let kj = self.pending[j].key_val();
            proof {
                assert(self.pending@.take(j + 1).drop_last() =~= self.pending@.take(j as int));
                assert(self.pending@.take(j + 1).last() == self.pending@[j as int]);
            }
            if kj < bk {
                best = j;
                bk = kj;
            }
            j = j + 1;
        }
        proof {
            assert(self.pending@.take(self.pending@.len() as int) =~= self.pending@);
        }
        let ghost pre = *self;
        let mut it = self.sources.remove(best);
        if it.date > MAX_DAY - 7 {
            self.sources.insert(best, it);
            proof {
                assert(self.sources@ =~= pre.sources@);
            }
            return None;
        }
        let emitted = self.pending[best];
        let refill = match it.next() {
            Some(st) => st,
            None => {
                proof {
                    assert(false);
                }
                vstd::pervasive::unreached()
            },
        };
        self.sources.insert(best, it);
        let _ = self.pending.remove(best);
        self.pending.insert(best, refill);
        proof {
            self.hist@ = pre.hist@.push(emitted.key());
        }
        proof {
            assert(self.sources@ =~= pre.sources@.update(
                best as int,
                pre.sources@[best as int].spec_step(),
            ));
            assert(self.pending@ =~= pre.pending@.update(
                best as int,
                pre.sources@[best as int].peek(),
            ));
            pre.sources@[best as int].lemma_peek_strictly_increases();
        }
        Some(emitted)
    }
}

} // verus!
