//! Per-period performance accounting: blocks authored by each producer.
//!
//! The tracker holds one counter per account for the current period. A
//! counter is created on the first authored block, saturates at the top of
//! the counter type instead of overflowing, and an absent entry means zero.
//! The whole tracker is cleared at each period start, and a single entry is
//! cleared when its candidate leaves the registry.

use vstd::prelude::*;

use crate::AccountId;
use crate::BlockCount;

verus! {

/// Blocks authored by one account within the current period.
#[derive(Clone, Copy, PartialEq, Eq, Structural, Debug)]
pub struct PerfRecord {
    /// The producer.
    pub who: AccountId,
    /// How many blocks it authored this period.
    pub blocks: BlockCount,
}

/// No account occurs in two records of `s`.
pub open spec fn unique_producers(s: Seq<PerfRecord>) -> bool {
    forall|i: int, j: int|
        #![trigger s[i], s[j]]
        0 <= i < j < s.len() ==> s[i].who != s[j].who
}

/// There is a record for `who` in `s`.
pub open spec fn has_entry(s: Seq<PerfRecord>, who: AccountId) -> bool {
    exists|i: int| 0 <= i < s.len() && (#[trigger] s[i]).who == who
}

/// Index of the record for `who` (meaningful only when `has_entry`).
pub open spec fn entry_index(s: Seq<PerfRecord>, who: AccountId) -> int {
    choose|i: int| 0 <= i < s.len() && (#[trigger] s[i]).who == who
}

/// Blocks recorded for `who` in `s`; an absent entry means zero.
pub open spec fn blocks_in(s: Seq<PerfRecord>, who: AccountId) -> BlockCount {
    if has_entry(s, who) {
        s[entry_index(s, who)].blocks
    } else {
        0
    }
}

/// In a sequence without duplicate producers, the record at index `i` is
/// the one that `entry_index` finds for its account.
pub proof fn lemma_entry_at_index(s: Seq<PerfRecord>, i: int)
    requires
        unique_producers(s),
        0 <= i < s.len(),
    ensures
        has_entry(s, s[i].who),
        entry_index(s, s[i].who) == i,
        blocks_in(s, s[i].who) == s[i].blocks,
{
    let who = s[i].who;
    assert(0 <= i < s.len() && s[i].who == who);
    assert(has_entry(s, who));
    let j = entry_index(s, who);
    if j != i {
        assert(s[i].who != s[j].who);
        assert(false);
    }
}

/// How every counter reads after one record is replaced in place.
proof fn lemma_entry_update(s: Seq<PerfRecord>, i: int, e: PerfRecord)
    requires
        unique_producers(s),
        0 <= i < s.len(),
        e.who == s[i].who,
    ensures
        unique_producers(s.update(i, e)),
        forall|k: AccountId| #[trigger] has_entry(s.update(i, e), k) == has_entry(s, k),
        blocks_in(s.update(i, e), e.who) == e.blocks,
        forall|k: AccountId|
            k != e.who ==> #[trigger] blocks_in(s.update(i, e), k) == blocks_in(s, k),
{
    let t = s.update(i, e);
    assert forall|k: AccountId| #[trigger] has_entry(t, k) == has_entry(s, k) by {
        if has_entry(s, k) {
            let m = entry_index(s, k);
            assert(t[m].who == k);
            assert(has_entry(t, k));
        }
        if has_entry(t, k) {
            let m = entry_index(t, k);
            assert(s[m].who == k);
            assert(has_entry(s, k));
        }
    }
    lemma_entry_at_index(t, i);
    assert forall|k: AccountId|
        k != e.who implies #[trigger] blocks_in(t, k) == blocks_in(s, k) by {
        if has_entry(s, k) {
            let m = entry_index(s, k);
            lemma_entry_at_index(s, m);
            lemma_entry_at_index(t, m);
            assert(m != i);
        }
    }
}

/// How every counter reads after a record for a fresh account is appended.
proof fn lemma_entry_push(s: Seq<PerfRecord>, e: PerfRecord)
    requires
        unique_producers(s),
        !has_entry(s, e.who),
    ensures
        unique_producers(s.push(e)),
        has_entry(s.push(e), e.who),
        blocks_in(s.push(e), e.who) == e.blocks,
        forall|k: AccountId| k != e.who ==> #[trigger] has_entry(s.push(e), k) == has_entry(s, k),
        forall|k: AccountId| k != e.who ==> #[trigger] blocks_in(s.push(e), k) == blocks_in(s, k),
{
    let t = s.push(e);
    let n = s.len() as int;
    assert forall|i: int, j: int|
        #![trigger t[i], t[j]]
        0 <= i < j < t.len() implies t[i].who != t[j].who by {
        if j < n {
            assert(s[i].who != s[j].who);
        } else {
            assert(t[i] == s[i]);
            if s[i].who == e.who {
                assert(has_entry(s, e.who));
            }
        }
    }
    assert(t[n].who == e.who);
    lemma_entry_at_index(t, n);
    assert forall|k: AccountId|
        k != e.who implies #[trigger] has_entry(t, k) == has_entry(s, k) by {
        if has_entry(s, k) {
            let m = entry_index(s, k);
            assert(t[m].who == k);
            assert(has_entry(t, k));
        }
        if has_entry(t, k) {
            let m = entry_index(t, k);
            assert(m != n);
            assert(s[m].who == k);
            assert(has_entry(s, k));
        }
    }
    assert forall|k: AccountId|
        k != e.who implies #[trigger] blocks_in(t, k) == blocks_in(s, k) by {
        if has_entry(s, k) {
            let m = entry_index(s, k);
            lemma_entry_at_index(s, m);
            lemma_entry_at_index(t, m);
        }
    }
}

/// How every counter reads after the record at index `i` is removed.
pub proof fn lemma_entry_remove(s: Seq<PerfRecord>, i: int)
    requires
        unique_producers(s),
        0 <= i < s.len(),
    ensures
        unique_producers(s.remove(i)),
        !has_entry(s.remove(i), s[i].who),
        forall|k: AccountId|
            k != s[i].who ==> #[trigger] has_entry(s.remove(i), k) == has_entry(s, k),
        forall|k: AccountId|
            k != s[i].who ==> #[trigger] blocks_in(s.remove(i), k) == blocks_in(s, k),
{
    let t = s.remove(i);
    assert forall|a: int, b: int|
        #![trigger t[a], t[b]]
        0 <= a < b < t.len() implies t[a].who != t[b].who by {
        let a0 = if a < i { a } else { a + 1 };
        let b0 = if b < i { b } else { b + 1 };
        assert(t[a] == s[a0]);
        assert(t[b] == s[b0]);
        assert(s[a0].who != s[b0].who);
    }
    if has_entry(t, s[i].who) {
        let m = entry_index(t, s[i].who);
        let m0 = if m < i { m } else { m + 1 };
        assert(t[m] == s[m0]);
        assert(s[m0].who != s[i].who);
        assert(false);
    }
    assert forall|k: AccountId|
        k != s[i].who implies #[trigger] has_entry(t, k) == has_entry(s, k) by {
        if has_entry(s, k) {
            let m = entry_index(s, k);
            assert(m != i);
            if m < i {
                assert(t[m] == s[m]);
                assert(has_entry(t, k));
            } else {
                assert(t[m - 1] == s[m]);
                assert(has_entry(t, k));
            }
        }
        if has_entry(t, k) {
            let m = entry_index(t, k);
            let m0 = if m < i { m } else { m + 1 };
            assert(t[m] == s[m0]);
            assert(has_entry(s, k));
        }
    }
    assert forall|k: AccountId|
        k != s[i].who implies #[trigger] blocks_in(t, k) == blocks_in(s, k) by {
        if has_entry(s, k) {
            let m = entry_index(s, k);
            lemma_entry_at_index(s, m);
            if m < i {
                lemma_entry_at_index(t, m);
            } else {
                assert(t[m - 1] == s[m]);
                lemma_entry_at_index(t, m - 1);
            }
        }
    }
}

/// The per-period performance tracker.
pub struct PerformanceTracker {
    /// One counter per producer seen this period, in first-authored order.
    pub entries: Vec<PerfRecord>,
}

impl PerformanceTracker {
    /// There is a counter for `who`.
    pub open spec fn spec_has(self, who: AccountId) -> bool {
        has_entry(self.entries@, who)
    }

    /// Blocks recorded for `who`; an absent counter means zero.
    pub open spec fn spec_blocks_of(self, who: AccountId) -> BlockCount {
        blocks_in(self.entries@, who)
    }

    /// Well-formed: one counter per account.
    pub open spec fn wf(self) -> bool {
        unique_producers(self.entries@)
    }

    /// An empty tracker.
    pub fn new() -> (r: PerformanceTracker)
        ensures
            r.wf(),
            r.entries@.len() == 0,
            forall|k: AccountId| !r.spec_has(k),
    {
        PerformanceTracker { entries: Vec::new() }
    }

    /// Index of the counter for `who`, if there is one.
    fn find_entry(&self, who: AccountId) -> (r: Option<usize>)
        requires
            self.wf(),
        ensures
            match r {
                Some(i) => self.spec_has(who) && i < self.entries@.len() && i as int == entry_index(
                    self.entries@,
                    who,
                ) && self.entries@[i as int].who == who,
                None => !self.spec_has(who),
            },
    {
        let n = self.entries.len();
        let mut i: usize = 0;
        while i < n
            invariant
                unique_producers(self.entries@),
                n == self.entries@.len(),
                i <= n,
                forall|j: int| 0 <= j < i ==> (#[trigger] self.entries@[j]).who != who,
            decreases n - i,
        {
            if self.entries[i].who == who {
                proof {
                    lemma_entry_at_index(self.entries@, i as int);
                }
                return Some(i);
            }
            i += 1;
        }
        proof {
            if self.spec_has(who) {
                let m = entry_index(self.entries@, who);
                assert(self.entries@[m].who == who);
                assert(false);
            }
        }
        None
    }

    /// Blocks recorded for `who` this period.
    pub fn blocks_of(&self, who: AccountId) -> (r: BlockCount)
        requires
            self.wf(),
        ensures
            r == self.spec_blocks_of(who),
    {
        match self.find_entry(who) {
            Some(i) => self.entries[i].blocks,
            None => 0,
        }
    }

    /// Count one authored block for `who`: the counter is created at one on
    /// the first block and saturates instead of overflowing.
    pub fn record_block(&mut self, who: AccountId)
        requires
            old(self).wf(),
        ensures
            final(self).wf(),
            final(self).spec_has(who),
            final(self).spec_blocks_of(who) == if old(self).spec_blocks_of(who) == BlockCount::MAX {
                BlockCount::MAX
            } else {
                (old(self).spec_blocks_of(who) + 1) as BlockCount
            },
            forall|k: AccountId| k != who ==> #[trigger] final(self).spec_has(k) == old(self).spec_has(k),
            forall|k: AccountId|
                k != who ==> #[trigger] final(self).spec_blocks_of(k) == old(self).spec_blocks_of(k),
    {
        match self.find_entry(who) {
            Some(i) => {
                let mut rec = self.entries[i];
                rec.blocks = if rec.blocks == BlockCount::MAX {
                    BlockCount::MAX
                } else {
                    rec.blocks + 1
                };
                proof {
                    lemma_entry_update(self.entries@, i as int, rec);
                }
                self.entries[i] = rec;
            },
            None => {
                let rec = PerfRecord { who, blocks: 1 };
                proof {
                    lemma_entry_push(self.entries@, rec);
                }
                self.entries.push(rec);
            },
        }
    }

    /// Forget the counter of `who`, if any; used when a candidate leaves.
    pub fn remove(&mut self, who: AccountId)
        requires
            old(self).wf(),
        ensures
            final(self).wf(),
            !final(self).spec_has(who),
            final(self).spec_blocks_of(who) == 0,
            old(self).spec_has(who) ==> final(self).entries@ == old(self).entries@.remove(
                entry_index(old(self).entries@, who),
            ),
            !old(self).spec_has(who) ==> final(self).entries@ == old(self).entries@,
            forall|k: AccountId| k != who ==> #[trigger] final(self).spec_has(k) == old(self).spec_has(k),
            forall|k: AccountId|
                k != who ==> #[trigger] final(self).spec_blocks_of(k) == old(self).spec_blocks_of(k),
    {
        match self.find_entry(who) {
            Some(i) => {
                proof {
                    lemma_entry_remove(self.entries@, i as int);
                }
                self.entries.remove(i);
            },
            None => {},
        }
    }

    /// Clear every counter; run once at each period start.
    pub fn reset(&mut self)
        ensures
            final(self).wf(),
            final(self).entries@.len() == 0,
            forall|k: AccountId| !final(self).spec_has(k),
            forall|k: AccountId| #[trigger] final(self).spec_blocks_of(k) == 0,
    {
        self.entries.clear();
    }

    /// All counters of the period, one per producer, in first-authored
    /// order; the eviction pass sorts them itself.
    pub fn snapshot(&self) -> (r: Vec<PerfRecord>)
        ensures
            r@ == self.entries@,
    {
        let mut out: Vec<PerfRecord> = Vec::new();
        let n = self.entries.len();
        let mut i: usize = 0;
        while i < n
            invariant
                n == self.entries@.len(),
                i <= n,
                out@ == self.entries@.subrange(0, i as int),
            decreases n - i,
        {
            out.push(self.entries[i]);
            proof {
                assert(out@ =~= self.entries@.subrange(0, i + 1 as int));
            }
            i += 1;
        }
        proof {
            assert(out@ =~= self.entries@);
        }
        out
    }
}

} // verus!
