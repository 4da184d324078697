//! The aggregation of one window: how often each sample was seen.

use crate::sample::{idle, StackInfo};
use vstd::multiset::*;
use vstd::prelude::*;

verus! {

/// A sample and the number of times it was seen in the window.
#[derive(Clone, Copy, Debug, PartialEq, Eq)]
pub struct Counted {
    pub sample: StackInfo,
    pub count: u64,
}

/// Whether a sample takes part in aggregation: all do but those of the idle
/// thread while they are dropped.
pub open spec fn accepts(skip_idle: bool, s: StackInfo) -> bool {
    !(skip_idle && idle(s))
}

/// The sum of the counts of a list.
pub open spec fn sum_counts(entries: Seq<Counted>) -> nat
    decreases entries.len(),
{
    if entries.len() == 0 {
        0
    } else {
        sum_counts(entries.drop_last()) + entries.last().count as nat
    }
}

/// Whether the window is over: more than `duration` seconds have passed.
pub fn window_over(elapsed_secs: u64, duration: u32) -> (res: bool)
    ensures
        res == (elapsed_secs > duration),
{
    elapsed_secs > duration as u64
}

proof fn lemma_sum_push(entries: Seq<Counted>, c: Counted)
    ensures
        sum_counts(entries.push(c)) == sum_counts(entries) + c.count,
{
    assert(entries.push(c).drop_last() =~= entries);
}

proof fn lemma_sum_update(entries: Seq<Counted>, i: int, c: Counted)
    requires
        0 <= i < entries.len(),
    ensures
        sum_counts(entries.update(i, c)) == sum_counts(entries) - entries[i].count + c.count,
    decreases entries.len(),
{
    if i == entries.len() - 1 {
        assert(entries.update(i, c).drop_last() =~= entries.drop_last());
    } else {
        lemma_sum_update(entries.drop_last(), i, c);
        assert(entries.update(i, c).drop_last() =~= entries.drop_last().update(i, c));
    }
}

/// Counting one more sample makes its count one greater, leaves every other
/// count as it was, and makes the number of samples one greater.
pub proof fn lemma_count_grows_by_one(seen: Multiset<StackInfo>, sample: StackInfo, other: StackInfo)
    requires
        other != sample,
    ensures
        seen.insert(sample).count(sample) == seen.count(sample) + 1,
        seen.insert(sample).count(other) == seen.count(other),
        seen.insert(sample).len() == seen.len() + 1,
{
    broadcast use group_multiset_axioms;
    broadcast use group_multiset_properties;

}

/// The samples of one window, counted by fingerprint. Its value is the
/// multiset of the samples that were accepted.
pub struct SampleWindow {
    skip_idle: bool,
    entries: Vec<Counted>,
    total: u64,
    seen: Ghost<Multiset<StackInfo>>,
}

impl View for SampleWindow {
    type V = Multiset<StackInfo>;

    closed spec fn view(&self) -> Multiset<StackInfo> {
        self.seen@
    }
}

impl SampleWindow {
    /// Whether samples of the idle thread are dropped.
    pub closed spec fn skips_idle(&self) -> bool {
        self.skip_idle
    }

    /// The invariant of the type: the list of counts holds each sample that
    /// was accepted once, with the number of times it was accepted.
    pub closed spec fn wf(&self) -> bool {
        &&& forall|i: int, j: int|
            0 <= i < j < self.entries@.len() ==> (#[trigger] self.entries@[i]).sample != (
            #[trigger] self.entries@[j]).sample
        &&& forall|i: int|
            0 <= i < self.entries@.len() ==> (#[trigger] self.entries@[i]).count >= 1
                && self.entries@[i].count == self.seen@.count(self.entries@[i].sample)
        &&& forall|s: StackInfo|
            self.seen@.count(s) > 0 ==> exists|i: int|
                0 <= i < self.entries@.len() && (#[trigger] self.entries@[i]).sample == s
        &&& self.seen@.len() == self.total
        &&& sum_counts(self.entries@) == self.total
        &&& self.skip_idle ==> forall|s: StackInfo| self.seen@.count(s) > 0 ==> !idle(s)
    }

    /// An empty window.
    pub fn new(skip_idle: bool) -> (res: SampleWindow)
        ensures
            res.wf(),
            res.skips_idle() == skip_idle,
            res@ == Multiset::<StackInfo>::empty(),
    {
        broadcast use group_multiset_axioms;

        SampleWindow { skip_idle, entries: Vec::new(), total: 0, seen: Ghost(Multiset::empty()) }
    }

    /// Empties the window, as at the start of the next one.
    pub fn clear(&mut self)
        requires
            old(self).wf(),
        ensures
            final(self).wf(),
            final(self).skips_idle() == old(self).skips_idle(),
            final(self)@ == Multiset::<StackInfo>::empty(),
    {
        broadcast use group_multiset_axioms;

        self.entries.clear();
        self.total = 0;
        self.seen = Ghost(Multiset::empty());
    }

    /// Counts one sample. A sample of the idle thread is dropped while those
    /// are skipped; so is any sample once the window holds as many as the
    /// counter can count. The result says whether the sample was counted.
    pub fn observe(&mut self, sample: StackInfo) -> (accepted: bool)
        requires
            old(self).wf(),
        ensures
            final(self).wf(),
            final(self).skips_idle() == old(self).skips_idle(),
            accepted == (accepts(old(self).skips_idle(), sample) && old(self)@.len() < u64::MAX),
            final(self)@ == if accepted {
                old(self)@.insert(sample)
            } else {
                old(self)@
            },
    {
        broadcast use group_multiset_axioms;
        broadcast use group_multiset_properties;

        if (self.skip_idle && sample.is_idle()) || self.total == u64::MAX {
            return false;
        }
        let ghost before = self.entries@;
        let ghost after_seen = self.seen@.insert(sample);
        let mut i: usize = 0;
        while i < self.entries.len()
            invariant
                i <= self.entries@.len(),
                self.entries@ == before,
                forall|k: int| 0 <= k < i ==> (#[trigger] self.entries@[k]).sample != sample,
            ensures
                i <= self.entries@.len(),
                i < self.entries@.len() ==> self.entries@[i as int].sample == sample,
            decreases self.entries@.len() - i,
        {
            if self.entries[i].sample.same(&sample) {
                break ;
            }
            i += 1;
        }
        if i < self.entries.len() {
            let entry = self.entries[i];
            assert(entry.sample == sample);
            assert(entry.count == self.seen@.count(sample));
            assert(self.seen@.count(sample) <= self.seen@.len());
            let next = Counted { sample, count: entry.count + 1 };
            self.entries[i] = next;
            proof {
                lemma_sum_update(before, i as int, next);
                assert(self.entries@ =~= before.update(i as int, next));
            }
        } else {
            assert(self.seen@.count(sample) == 0) by {
                if self.seen@.count(sample) > 0 {
                    let k = choose|k: int|
                        0 <= k < before.len() && (#[trigger] before[k]).sample == sample;
                }
            }
            let next = Counted { sample, count: 1 };
            self.entries.push(next);
            proof {
                lemma_sum_push(before, next);
                assert(self.entries@ =~= before.push(next));
            }
        }
        self.total = self.total + 1;
        self.seen = Ghost(after_seen);
        proof {
            assert forall|s: StackInfo| self.seen@.count(s) > 0 implies exists|k: int|
                0 <= k < self.entries@.len() && (#[trigger] self.entries@[k]).sample == s by {
                if s == sample {
                    if i < before.len() {
                        assert(self.entries@[i as int].sample == s);
                    } else {
                        assert(self.entries@[before.len() as int].sample == s);
                    }
                } else {
                    assert(old(self).seen@.count(s) > 0);
                    let k = choose|k: int|
                        0 <= k < before.len() && (#[trigger] before[k]).sample == s;
                    assert(self.entries@[k].sample == s);
                }
            }
            assert forall|a: int, b: int| 0 <= a < b < self.entries@.len() implies (
            #[trigger] self.entries@[a]).sample != (#[trigger] self.entries@[b]).sample by {
                if b < before.len() {
                    assert(before[a].sample != before[b].sample);
                } else {
                    assert(before[a].sample != sample);
                }
            }
        }
        true
    }

    /// The samples of the window with their counts: each accepted sample
    /// once, with a count of at least one, and the counts add up to the
    /// number of samples that were accepted.
    pub fn counts(&self) -> (res: &Vec<Counted>)
        requires
            self.wf(),
        ensures
            forall|i: int, j: int|
                0 <= i < j < res@.len() ==> (#[trigger] res@[i]).sample != (#[trigger] res@[j]).sample,
            forall|i: int|
                0 <= i < res@.len() ==> (#[trigger] res@[i]).count >= 1 && res@[i].count
                    == self@.count(res@[i].sample),
            forall|s: StackInfo|
                self@.count(s) > 0 ==> exists|i: int|
                    0 <= i < res@.len() && (#[trigger] res@[i]).sample == s,
            sum_counts(res@) == self@.len(),
            self.skips_idle() ==> forall|i: int|
                0 <= i < res@.len() ==> !idle((#[trigger] res@[i]).sample),
    {
        &self.entries
    }

    /// How many samples were accepted.
    pub fn total(&self) -> (res: u64)
        requires
            self.wf(),
        ensures
            res == self@.len(),
    {
        self.total
    }
}

} // verus!
