//! Eviction arithmetic and the performance ordering.
//!
//! The eviction pass ranks the period's producers by authored blocks,
//! reads the block count at a configured percentile of that ranking
//! (exclusive nearest-rank method), and computes the largest count that
//! still counts as underperforming relative to it. All arithmetic is exact
//! integer arithmetic, so every participant replaying the same ledger
//! reaches the same roster.

use vstd::prelude::*;
use vstd::multiset::Multiset;
use vstd::relations::sorted_by;
use vstd::relations::total_ordering;
use vstd::seq_lib::group_to_multiset_ensures;

use crate::tracker::PerfRecord;
use crate::BlockCount;

verus! {

/// Order on performance records: fewer blocks first, ties broken by
/// account, so that the ranking is a total order and the pass
/// deterministic.
pub open spec fn perf_le(a: PerfRecord, b: PerfRecord) -> bool {
    a.blocks < b.blocks || (a.blocks == b.blocks && a.who <= b.who)
}

/// The record ordering as a relation value, for vstd's sorting vocabulary.
pub open spec fn perf_leq() -> spec_fn(PerfRecord, PerfRecord) -> bool {
    |a: PerfRecord, b: PerfRecord| perf_le(a, b)
}

/// The record ordering is a total order.
pub proof fn lemma_perf_leq_total()
    ensures
        total_ordering(perf_leq()),
{
    let r = perf_leq();
    assert forall|x: PerfRecord| #[trigger] r(x, x) by {}
    assert forall|x: PerfRecord, y: PerfRecord| #[trigger] r(x, y) && #[trigger] r(y, x)
        implies x == y by {}
    assert forall|x: PerfRecord, y: PerfRecord, z: PerfRecord|
        #[trigger] r(x, y) && #[trigger] r(y, z) implies r(x, z) by {}
    assert forall|x: PerfRecord, y: PerfRecord| #[trigger] r(x, y) || #[trigger] r(y, x) by {}
}

/// Two sequences sorted by the record ordering with the same contents are
/// the same sequence: the ranking of a snapshot is unique.
pub proof fn lemma_sorted_unique(a: Seq<PerfRecord>, b: Seq<PerfRecord>)
    requires
        sorted_by(a, perf_leq()),
        sorted_by(b, perf_leq()),
        a.to_multiset() == b.to_multiset(),
    ensures
        a == b,
    decreases a.len(),
{
    broadcast use group_to_multiset_ensures;

    a.to_multiset_ensures();
    b.to_multiset_ensures();
    assert(a.len() == b.len());
    if a.len() == 0 {
        assert(a =~= b);
    } else {
        assert(a.contains(a[0]));
        assert(b.to_multiset().count(a[0]) > 0);
        assert(b.contains(a[0]));
        let i = choose|i: int| 0 <= i < b.len() && b[i] == a[0];
        assert(b.contains(b[0]));
        assert(a.to_multiset().count(b[0]) > 0);
        assert(a.contains(b[0]));
        let j = choose|j: int| 0 <= j < a.len() && a[j] == b[0];
        if i > 0 {
            assert(perf_leq()(b[0], b[i]));
        }
        if j > 0 {
            assert(perf_leq()(a[0], a[j]));
        }
        assert(perf_le(a[0], b[0]) && perf_le(b[0], a[0]));
        assert(a[0] == b[0]);
        let at = a.remove(0);
        let bt = b.remove(0);
        assert(at.to_multiset() == a.to_multiset().remove(a[0]));
        assert(bt.to_multiset() == b.to_multiset().remove(b[0]));
        assert(at.to_multiset() == bt.to_multiset());
        assert forall|p: int, q: int| 0 <= p < q < at.len() implies #[trigger] perf_leq()(
            at[p],
            at[q],
        ) by {
            assert(at[p] == a[p + 1]);
            assert(at[q] == a[q + 1]);
            assert(perf_leq()(a[p + 1], a[q + 1]));
        }
        assert forall|p: int, q: int| 0 <= p < q < bt.len() implies #[trigger] perf_leq()(
            bt[p],
            bt[q],
        ) by {
            assert(bt[p] == b[p + 1]);
            assert(bt[q] == b[q + 1]);
            assert(perf_leq()(b[p + 1], b[q + 1]));
        }
        lemma_sorted_unique(at, bt);
        assert forall|m: int| 0 <= m < a.len() implies a[m] == b[m] by {
            if m > 0 {
                assert(a[m] == at[m - 1]);
                assert(b[m] == bt[m - 1]);
            }
        }
        assert(a =~= b);
    }
}

/// Rearranging records keeps producers unique: a permutation of a snapshot
/// without duplicate accounts has no duplicate accounts.
pub proof fn lemma_permutation_unique_producers(a: Seq<PerfRecord>, b: Seq<PerfRecord>)
    requires
        crate::tracker::unique_producers(a),
        a.to_multiset() == b.to_multiset(),
    ensures
        crate::tracker::unique_producers(b),
{
    broadcast use group_to_multiset_ensures;

    assert forall|i: int, j: int|
        #![trigger b[i], b[j]]
        0 <= i < j < b.len() implies b[i].who != b[j].who by {
        if b[i].who == b[j].who {
            if b[i] == b[j] {
                let bt = b.remove(j);
                assert(bt.to_multiset() == b.to_multiset().remove(b[j]));
                assert(bt[i] == b[i]);
                assert(bt.contains(b[i]));
                assert(bt.to_multiset().count(b[i]) > 0);
                assert(b.to_multiset().count(b[i]) >= 2);
                assert(a.to_multiset().count(b[i]) >= 2);
                assert(a.contains(b[i]));
                let k = choose|k: int| 0 <= k < a.len() && a[k] == b[i];
                let at = a.remove(k);
                assert(at.to_multiset() == a.to_multiset().remove(a[k]));
                assert(at.to_multiset().count(b[i]) >= 1);
                assert(at.contains(b[i]));
                let l = choose|l: int| 0 <= l < at.len() && at[l] == b[i];
                let l0 = if l < k {
                    l
                } else {
                    l + 1
                };
                assert(at[l] == a[l0]);
                assert(l0 != k);
                assert(a[k].who == a[l0].who);
                assert(false);
            } else {
                assert(a.to_multiset().count(b[i]) > 0);
                assert(a.contains(b[i]));
                assert(a.to_multiset().count(b[j]) > 0);
                assert(a.contains(b[j]));
                let k = choose|k: int| 0 <= k < a.len() && a[k] == b[i];
                let l = choose|l: int| 0 <= l < a.len() && a[l] == b[j];
                assert(k != l);
                assert(a[k].who != a[l].who);
                assert(false);
            }
        }
    }
}

/// Index of the percentile entry in an ascending ranking of `n` entries,
/// by the exclusive nearest-rank method: one below the nearest rank,
/// saturating at the bottom of the ranking.
pub open spec fn spec_ordinal_rank(percentile: u8, n: int) -> int {
    let q = (percentile * n) / 100;
    if q == 0 {
        0
    } else {
        q - 1
    }
}

/// Largest authored-block count that still counts as underperforming: the
/// percentile benchmark reduced by `underperform` percent, rounded down.
pub open spec fn spec_kick_threshold(underperform: u8, benchmark: BlockCount) -> int {
    ((100 - underperform) * benchmark) / 100
}

/// With a percentile below one hundred, the percentile entry's index
/// always falls inside a non-empty ranking.
pub proof fn lemma_rank_in_range(percentile: u8, n: int)
    requires
        percentile < 100,
        n >= 1,
    ensures
        0 <= spec_ordinal_rank(percentile, n) < n,
{
    let p = percentile as int;
    vstd::arithmetic::div_mod::lemma_fundamental_div_mod(p * n, 100);
    assert(p * n <= 99 * n) by (nonlinear_arith)
        requires
            p <= 99,
            n >= 1,
    ;
    assert(p * n >= 0) by (nonlinear_arith)
        requires
            p >= 0,
            n >= 0,
    ;
    assert(100 * ((p * n) / 100) <= 99 * n);
    assert((p * n) / 100 < n);
}

/// Compute the percentile entry's index for a ranking of `n` entries.
pub fn ordinal_rank(percentile: u8, n: usize) -> (r: usize)
    requires
        percentile < 100,
        n >= 1,
    ensures
        r as int == spec_ordinal_rank(percentile, n as int),
        r < n,
{
    proof {
        assert((percentile as u128) * (n as u128) <= 99 * (usize::MAX as u128)) by (nonlinear_arith)
            requires
                percentile < 100,
                n <= usize::MAX,
        ;
    }
    let q = ((percentile as u128) * (n as u128)) / 100;
    proof {
        lemma_rank_in_range(percentile, n as int);
    }
    let r = if q == 0 {
        0
    } else {
        q - 1
    };
    r as usize
}

/// Compute the eviction threshold from the percentile benchmark.
pub fn kick_threshold(underperform: u8, benchmark: BlockCount) -> (r: BlockCount)
    requires
        underperform <= 100,
    ensures
        r as int == spec_kick_threshold(underperform, benchmark),
        r <= benchmark,
{
    let f = (100 - underperform) as u64;
    proof {
        assert(f * (benchmark as u64) <= 100 * (BlockCount::MAX as u64)) by (nonlinear_arith)
            requires
                f <= 100,
                benchmark <= BlockCount::MAX,
        ;
        let fi = f as int;
        let bi = benchmark as int;
        vstd::arithmetic::div_mod::lemma_fundamental_div_mod(fi * bi, 100);
        assert(fi * bi <= 100 * bi) by (nonlinear_arith)
            requires
                fi <= 100,
                bi >= 0,
        ;
        assert(100 * ((fi * bi) / 100) <= 100 * bi);
        assert((fi * bi) / 100 <= bi);
    }
    let t = (f * (benchmark as u64)) / 100;
    t as BlockCount
}

/// Rank a performance snapshot ascending by the record ordering. The
/// result is the one sorted arrangement of the snapshot's records.
pub fn rank_by_performance(v: Vec<PerfRecord>) -> (out: Vec<PerfRecord>)
    ensures
        sorted_by(out@, perf_leq()),
        out@.to_multiset() == v@.to_multiset(),
        out@ == v@.sort_by(perf_leq()),
{
    let ghost orig = v@;
    let mut rest = v;
    let mut out: Vec<PerfRecord> = Vec::new();
    proof {
        broadcast use group_to_multiset_ensures;

        assert(out@.to_multiset().add(rest@.to_multiset()) =~= orig.to_multiset());
    }
    while rest.len() > 0
        invariant
            out@.to_multiset().add(rest@.to_multiset()) == orig.to_multiset(),
            sorted_by(out@, perf_leq()),
            forall|k: int, l: int|
                #![trigger out@[k], rest@[l]]
                0 <= k < out@.len() && 0 <= l < rest@.len() ==> perf_le(out@[k], rest@[l]),
        decreases rest.len(),
    {
        let n = rest.len();
        let mut m: usize = 0;
        let mut idx: usize = 1;
        while idx < n
            invariant
                n == rest@.len(),
                m < idx <= n,
                forall|l: int| 0 <= l < idx ==> perf_le(rest@[m as int], #[trigger] rest@[l]),
            decreases n - idx,
        {
            let a = rest.as_slice()[idx];
            let b = rest.as_slice()[m];
            if a.blocks < b.blocks || (a.blocks == b.blocks && a.who < b.who) {
                proof {
                    assert forall|l: int| 0 <= l < idx + 1 implies perf_le(
                        rest@[idx as int],
                        #[trigger] rest@[l],
                    ) by {
                        assert(perf_le(rest@[idx as int], rest@[m as int]));
                        if l < idx {
                            assert(perf_le(rest@[m as int], rest@[l]));
                        }
                    }
                }
                m = idx;
            }
            idx += 1;
        }
        let ghost pre_rest = rest@;
        let ghost pre_out = out@;
        let rec = rest.remove(m);
        out.push(rec);
        proof {
            broadcast use group_to_multiset_ensures;

            assert(rest@.to_multiset() == pre_rest.to_multiset().remove(rec));
            assert(out@.to_multiset() == pre_out.to_multiset().insert(rec));
            assert(pre_rest.to_multiset().count(rec) > 0);
            assert(out@.to_multiset().add(rest@.to_multiset()) =~= orig.to_multiset());
            assert forall|p: int, q: int| 0 <= p < q < out@.len() implies #[trigger] perf_leq()(
                out@[p],
                out@[q],
            ) by {
                if q < out@.len() - 1 {
                    assert(perf_leq()(pre_out[p], pre_out[q]));
                } else {
                    assert(out@[q] == rec);
                    assert(perf_le(pre_out[p], pre_rest[m as int]));
                }
            }
            assert forall|k: int, l: int|
                #![trigger out@[k], rest@[l]]
                0 <= k < out@.len() && 0 <= l < rest@.len() implies perf_le(out@[k], rest@[l]) by {
                let l0 = if l < m {
                    l
                } else {
                    l + 1
                };
                assert(rest@[l] == pre_rest[l0]);
                if k < out@.len() - 1 {
                    assert(perf_le(pre_out[k], pre_rest[l0]));
                } else {
                    assert(out@[k] == rec);
                    assert(perf_le(pre_rest[m as int], pre_rest[l0]));
                }
            }
        }
    }
    proof {
        broadcast use group_to_multiset_ensures;

        assert(rest@ =~= Seq::<PerfRecord>::empty());
        assert(rest@.to_multiset() =~= Multiset::<PerfRecord>::empty());
        assert(out@.to_multiset() =~= orig.to_multiset());
        lemma_perf_leq_total();
        orig.lemma_sort_by_ensures(perf_leq());
        lemma_sorted_unique(out@, orig.sort_by(perf_leq()));
    }
    out
}

} // verus!
