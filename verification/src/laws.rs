//! Cross-cutting laws of the engine, stated and proved over the same spec
//! functions its contracts use.

use vstd::prelude::*;

use crate::group::bucket_of;
use crate::group::distinct_labels;
use crate::group::label_of;
use crate::group::KeyKind;
use crate::model::AnalysisResultTask;
use crate::stats::sum_est;
use crate::stats::sum_ts;

verus! {

/// The division guard for the gap ratio: a collection in which no record
/// carries an estimate has total estimated time exactly 0, the case in
/// which the aggregate contract leaves the total-time-gap ratio absent
/// rather than dividing by zero.
pub proof fn lemma_no_estimates_no_gap_ratio(s: Seq<AnalysisResultTask>)
    requires
        forall|i: int| 0 <= i < s.len() ==> (#[trigger] s[i]).estimated_time is None,
    ensures
        sum_est(s) == 0,
    decreases s.len(),
{
    if s.len() > 0 {
        assert(forall|i: int| 0 <= i < s.len() - 1 ==> #[trigger] s.drop_last()[i] == s[i]);
        lemma_no_estimates_no_gap_ratio(s.drop_last());
        assert(s[s.len() - 1].estimated_time is None);
    }
}

/// No two entries of the label list are the same label.
pub open spec fn labels_distinct(labs: Seq<Seq<char>>) -> bool {
    forall|j1: int, j2: int| 0 <= j1 < j2 < labs.len() ==> labs[j1] != labs[j2]
}

/// Total work time summed bucket by bucket over a label list.
pub open spec fn buckets_work_sum(
    s: Seq<AnalysisResultTask>,
    labs: Seq<Seq<char>>,
    kind: KeyKind,
) -> int
    decreases labs.len(),
{
    if labs.len() == 0 {
        0
    } else {
        buckets_work_sum(s, labs.drop_last(), kind) + sum_ts(bucket_of(s, kind, labs.last()))
    }
}

proof fn lemma_buckets_work_sum_push(
    s0: Seq<AnalysisResultTask>,
    r: AnalysisResultTask,
    labs: Seq<Seq<char>>,
    kind: KeyKind,
)
    requires
        labels_distinct(labs),
    ensures
        buckets_work_sum(s0.push(r), labs, kind) == buckets_work_sum(s0, labs, kind) + (
        if labs.contains(label_of(r, kind)) {
            r.timespan as int
        } else {
            0
        }),
    decreases labs.len(),
{
    if labs.len() > 0 {
        let lab = labs.last();
        let l = label_of(r, kind);
        assert(labels_distinct(labs.drop_last())) by {
            assert(forall|j: int|
                0 <= j < labs.len() - 1 ==> #[trigger] labs.drop_last()[j] == labs[j]);
        }
        lemma_buckets_work_sum_push(s0, r, labs.drop_last(), kind);
        let s = s0.push(r);
        assert(s.drop_last() =~= s0);
        assert(s.last() == r);
        if lab == l {
            assert(bucket_of(s, kind, lab) == bucket_of(s0, kind, lab).push(r));
            assert(sum_ts(bucket_of(s0, kind, lab).push(r)) == sum_ts(bucket_of(s0, kind, lab))
                + r.timespan) by {
                assert(bucket_of(s0, kind, lab).push(r).drop_last() =~= bucket_of(
                    s0,
                    kind,
                    lab,
                ));
            }
            assert(!labs.drop_last().contains(l)) by {
                if labs.drop_last().contains(l) {
                    let j = choose|j: int|
                        0 <= j < labs.len() - 1 && #[trigger] labs.drop_last()[j] == l;
                    assert(labs[j] == labs[labs.len() - 1]);
                }
            }
            assert(labs.contains(l)) by {
                assert(labs[labs.len() - 1] == l);
            }
        } else {
            assert(bucket_of(s, kind, lab) == bucket_of(s0, kind, lab));
            if labs.contains(l) {
                let j = choose|j: int| 0 <= j < labs.len() && #[trigger] labs[j] == l;
                assert(labs.drop_last()[j] == l);
                assert(labs.drop_last().contains(l));
            } else {
                assert(!labs.drop_last().contains(l)) by {
                    if labs.drop_last().contains(l) {
                        let j = choose|j: int|
                            0 <= j < labs.len() - 1 && #[trigger] labs.drop_last()[j] == l;
                        assert(labs[j] == l);
                    }
                }
            }
        }
    }
}

/// The sum law: partitioning by any key loses and duplicates no minutes —
/// the bucket totals of the distinct labels add up to the whole
/// collection's total work time. This holds for the day-type and the
/// group breakdown alike.
pub proof fn lemma_partition_preserves_work_time(s: Seq<AnalysisResultTask>, kind: KeyKind)
    ensures
        buckets_work_sum(s, distinct_labels(s, kind), kind) == sum_ts(s),
    decreases s.len(),
{
    if s.len() > 0 {
        let s0 = s.drop_last();
        let r = s.last();
        let l = label_of(r, kind);
        let labs0 = distinct_labels(s0, kind);
        lemma_partition_preserves_work_time(s0, kind);
        crate::group::lemma_distinct_labels(s0, kind);
        crate::group::lemma_distinct_labels(s, kind);
        assert(s0.push(r) =~= s);
        if labs0.contains(l) {
            assert(distinct_labels(s, kind) == labs0);
            lemma_buckets_work_sum_push(s0, r, labs0, kind);
        } else {
            assert(distinct_labels(s, kind) == labs0.push(l));
            lemma_buckets_work_sum_push(s0, r, labs0, kind);
            assert(buckets_work_sum(s, labs0.push(l), kind) == buckets_work_sum(
                s,
                labs0,
                kind,
            ) + sum_ts(bucket_of(s, kind, l))) by {
                assert(labs0.push(l).drop_last() =~= labs0);
            }
            assert(bucket_of(s0, kind, l).len() == 0) by {
                crate::group::lemma_bucket_of_props(s0, kind, l);
                if bucket_of(s0, kind, l).len() > 0 {
                    let i = choose|i: int|
                        0 <= i < s0.len() && bucket_of(s0, kind, l)[0] == s0[i];
                    assert(label_of(s0[i], kind) == l);
                    assert(labs0.contains(label_of(s0[i], kind)));
                }
            }
            assert(bucket_of(s, kind, l) == bucket_of(s0, kind, l).push(r));
            let b = bucket_of(s, kind, l);
            assert(b.len() == 1);
            assert(b.drop_last() =~= Seq::<AnalysisResultTask>::empty());
            assert(b.last() == r);
            assert(sum_ts(b.drop_last()) == 0);
            assert(sum_ts(b) == sum_ts(b.drop_last()) + b.last().timespan);
            assert(sum_ts(bucket_of(s, kind, l)) == r.timespan);
        }
    }
}

} // verus!
