//! The statistical aggregator: reduces one bucket of analysis records to
//! the report's numeric fields, every one of them an exact integer or an
//! exact integer quotient.

use vstd::multiset::Multiset;
use vstd::prelude::*;

use crate::model::day_of;
use crate::model::rec_valid;
use crate::model::AnalysisResultTask;
use crate::model::Ratio;
use crate::model::MAX_SPAN;
use crate::model::MAX_TASKS;

verus! {

/// Sum of the timespans of all records, in minutes.
pub open spec fn sum_ts(s: Seq<AnalysisResultTask>) -> int
    decreases s.len(),
{
    if s.len() == 0 {
        0
    } else {
        sum_ts(s.drop_last()) + s.last().timespan
    }
}

/// Sum of the estimated minutes of the records that carry an estimate.
pub open spec fn sum_est(s: Seq<AnalysisResultTask>) -> int
    decreases s.len(),
{
    if s.len() == 0 {
        0
    } else {
        sum_est(s.drop_last()) + (match s.last().estimated_time {
            Some(m) => m as int,
            None => 0,
        })
    }
}

/// The distinct calendar days the records' begin timestamps fall on.
pub open spec fn days(s: Seq<AnalysisResultTask>) -> Set<int>
    decreases s.len(),
{
    if s.len() == 0 {
        Set::empty()
    } else {
        days(s.drop_last()).insert(day_of(s.last().begin_time as int))
    }
}

/// Total minutes worked on one calendar day across the records.
pub open spec fn day_total(s: Seq<AnalysisResultTask>, d: int) -> int
    decreases s.len(),
{
    if s.len() == 0 {
        0
    } else {
        day_total(s.drop_last(), d) + (if day_of(s.last().begin_time as int) == d {
            s.last().timespan as int
        } else {
            0
        })
    }
}

/// Records ordered by ascending begin timestamp.
pub open spec fn sorted_by_begin(s: Seq<AnalysisResultTask>) -> bool {
    forall|i: int, j: int| 0 <= i < j < s.len() ==> s[i].begin_time <= s[j].begin_time
}

/// Every record internally consistent and within the machine limits.
pub open spec fn recs_bounded(s: Seq<AnalysisResultTask>) -> bool {
    forall|i: int| 0 <= i < s.len() ==> rec_valid(#[trigger] s[i])
}

/// The per-day series of records sorted by begin timestamp: one `(day,
/// total minutes)` pair per distinct day, in ascending day order.
pub open spec fn day_series(s: Seq<AnalysisResultTask>) -> Seq<(int, int)>
    decreases s.len(),
{
    if s.len() == 0 {
        Seq::empty()
    } else {
        let rest = day_series(s.drop_last());
        let d = day_of(s.last().begin_time as int);
        let v = s.last().timespan as int;
        if rest.len() > 0 && rest.last().0 == d {
            rest.update(rest.len() - 1, (d, rest.last().1 + v))
        } else {
            rest.push((d, v))
        }
    }
}

pub proof fn lemma_days_mem(s: Seq<AnalysisResultTask>)
    ensures
        days(s).finite(),
        forall|d: int|
            days(s).contains(d) <==> exists|i: int|
                0 <= i < s.len() && d == day_of(#[trigger] s[i].begin_time as int),
    decreases s.len(),
{
    if s.len() > 0 {
        lemma_days_mem(s.drop_last());
        assert forall|d: int| days(s).contains(d) implies exists|i: int|
            0 <= i < s.len() && d == day_of(#[trigger] s[i].begin_time as int) by {
            if d == day_of(s.last().begin_time as int) {
                assert(0 <= s.len() - 1 < s.len() && d == day_of(
                    s[s.len() - 1].begin_time as int,
                ));
            } else {
                let i = choose|i: int|
                    0 <= i < s.len() - 1 && d == day_of(
                        #[trigger] s.drop_last()[i].begin_time as int,
                    );
                assert(s.drop_last()[i] == s[i]);
                assert(d == day_of(s[i].begin_time as int));
            }
        }
        assert forall|d: int|
            (exists|i: int|
                0 <= i < s.len() && d == day_of(
                    #[trigger] s[i].begin_time as int,
                )) implies days(s).contains(d) by {
            let i = choose|i: int|
                0 <= i < s.len() && d == day_of(#[trigger] s[i].begin_time as int);
            if i < s.len() - 1 {
                assert(s.drop_last()[i] == s[i]);
                assert(days(s.drop_last()).contains(d));
            }
        }
    }
}

pub proof fn lemma_day_total_absent(s: Seq<AnalysisResultTask>, d: int)
    requires
        !days(s).contains(d),
    ensures
        day_total(s, d) == 0,
    decreases s.len(),
{
    if s.len() > 0 {
        lemma_day_total_absent(s.drop_last(), d);
    }
}

pub proof fn lemma_sum_ts_bound(s: Seq<AnalysisResultTask>)
    requires
        recs_bounded(s),
    ensures
        -(s.len() as int) * (MAX_SPAN as int) <= sum_ts(s) <= (s.len() as int) * (
        MAX_SPAN as int),
    decreases s.len(),
{
    if s.len() > 0 {
        assert(recs_bounded(s.drop_last())) by {
            assert(forall|i: int|
                0 <= i < s.len() - 1 ==> #[trigger] s.drop_last()[i] == s[i]);
        }
        lemma_sum_ts_bound(s.drop_last());
        assert(rec_valid(s[s.len() - 1]));
    }
}

pub proof fn lemma_day_total_bound(s: Seq<AnalysisResultTask>, d: int)
    requires
        recs_bounded(s),
    ensures
        -(s.len() as int) * (MAX_SPAN as int) <= day_total(s, d) <= (s.len() as int) * (
        MAX_SPAN as int),
    decreases s.len(),
{
    if s.len() > 0 {
        assert(recs_bounded(s.drop_last())) by {
            assert(forall|i: int|
                0 <= i < s.len() - 1 ==> #[trigger] s.drop_last()[i] == s[i]);
        }
        lemma_day_total_bound(s.drop_last(), d);
        assert(rec_valid(s[s.len() - 1]));
    }
}

/// The shape of the per-day series of a sorted record collection: strictly
/// ascending days, one entry per distinct day, each entry carrying that
/// day's total.
pub proof fn lemma_day_series(s: Seq<AnalysisResultTask>)
    requires
        sorted_by_begin(s),
    ensures
        day_series(s).len() == days(s).len(),
        day_series(s).len() <= s.len(),
        s.len() > 0 ==> day_series(s).len() >= 1,
        forall|k: int|
            0 <= k < day_series(s).len() ==> days(s).contains(#[trigger] day_series(s)[k].0)
                && day_series(s)[k].1 == day_total(s, day_series(s)[k].0),
        forall|k1: int, k2: int|
            0 <= k1 < k2 < day_series(s).len() ==> day_series(s)[k1].0 < day_series(s)[k2].0,
        forall|d: int|
            days(s).contains(d) ==> exists|k: int|
                0 <= k < day_series(s).len() && #[trigger] day_series(s)[k].0 == d,
    decreases s.len(),
{
    lemma_days_mem(s);
    if s.len() > 0 {
        let s0 = s.drop_last();
        let rest = day_series(s0);
        let d = day_of(s.last().begin_time as int);
        let v = s.last().timespan as int;
        assert(sorted_by_begin(s0) && forall|i: int|
            0 <= i < s0.len() ==> #[trigger] s0[i] == s[i]);
        lemma_day_series(s0);
        lemma_days_mem(s0);
        // the new record's day is the largest in sight
        assert forall|k: int| 0 <= k < rest.len() implies #[trigger] rest[k].0 <= d by {
            let dk = rest[k].0;
            let i = choose|i: int|
                0 <= i < s0.len() && dk == day_of(#[trigger] s0[i].begin_time as int);
            assert(s0[i].begin_time <= s.last().begin_time);
            crate::model::lemma_day_of_ordered(s0[i].begin_time as int, s.last().begin_time as int);
        }
        if rest.len() > 0 && rest.last().0 == d {
            // the last entry absorbs the new record
            assert(days(s0).contains(d));
            assert(days(s) =~= days(s0));
            let ser = day_series(s);
            assert(ser == rest.update(rest.len() - 1, (d, rest.last().1 + v)));
            assert forall|k: int| 0 <= k < ser.len() implies days(s).contains(
                #[trigger] ser[k].0,
            ) && ser[k].1 == day_total(s, ser[k].0) by {
                if k < ser.len() - 1 {
                    assert(ser[k] == rest[k]);
                    assert(rest[k].0 < d);
                    assert(day_total(s, ser[k].0) == day_total(s0, ser[k].0));
                } else {
                    assert(ser[k] == (d, rest.last().1 + v));
                    assert(day_total(s, d) == day_total(s0, d) + v);
                }
            }
            assert forall|dd: int| days(s).contains(dd) implies exists|k: int|
                0 <= k < ser.len() && #[trigger] ser[k].0 == dd by {
                let k = choose|k: int| 0 <= k < rest.len() && #[trigger] rest[k].0 == dd;
                assert(ser[k].0 == dd);
            }
        } else {
            // a fresh day begins
            assert(!days(s0).contains(d)) by {
                if days(s0).contains(d) {
                    let k = choose|k: int| 0 <= k < rest.len() && #[trigger] rest[k].0 == d;
                    assert(rest[k].0 <= rest.last().0);
                    assert(rest.last().0 <= d);
                }
            }
            assert(days(s) =~= days(s0).insert(d));
            assert(days(s).len() == days(s0).len() + 1);
            let ser = day_series(s);
            assert(ser == rest.push((d, v)));
            lemma_day_total_absent(s0, d);
            assert forall|k: int| 0 <= k < ser.len() implies days(s).contains(
                #[trigger] ser[k].0,
            ) && ser[k].1 == day_total(s, ser[k].0) by {
                if k < ser.len() - 1 {
                    assert(ser[k] == rest[k]);
                    assert(rest[k].0 != d);
                    assert(day_total(s, ser[k].0) == day_total(s0, ser[k].0));
                } else {
                    assert(ser[k] == (d, v));
                    assert(day_total(s, d) == day_total(s0, d) + v);
                }
            }
            assert forall|k1: int, k2: int|
                0 <= k1 < k2 < ser.len() implies ser[k1].0 < ser[k2].0 by {
                if k2 < ser.len() - 1 {
                } else {
                    assert(ser[k1].0 == rest[k1].0);
                    if k1 < rest.len() - 1 {
                        assert(rest[k1].0 < rest.last().0);
                    }
                    assert(rest[k1].0 != d);
                }
            }
            assert forall|dd: int| days(s).contains(dd) implies exists|k: int|
                0 <= k < ser.len() && #[trigger] ser[k].0 == dd by {
                if dd == d {
                    assert(ser[ser.len() - 1].0 == dd);
                } else {
                    let k = choose|k: int| 0 <= k < rest.len() && #[trigger] rest[k].0 == dd;
                    assert(ser[k].0 == dd);
                }
            }
        }
    }
}

/// The day totals of a per-day series, in series order.
pub open spec fn totals_of(ds: Seq<(int, int)>) -> Seq<int> {
    ds.map_values(|p: (int, int)| p.1)
}

/// A machine-integer sequence read as mathematical integers.
pub open spec fn ints_of(v: Seq<i64>) -> Seq<int> {
    v.map_values(|x: i64| x as int)
}

/// Inserts a value into a sequence just before its strictly larger suffix.
pub open spec fn insert_sorted_int(s: Seq<int>, x: int) -> Seq<int>
    decreases s.len(),
{
    if s.len() == 0 {
        seq![x]
    } else if s.last() <= x {
        s.push(x)
    } else {
        insert_sorted_int(s.drop_last(), x).push(s.last())
    }
}

/// Insertion sort of a sequence of integers, ascending.
pub open spec fn sort_ints(s: Seq<int>) -> Seq<int>
    decreases s.len(),
{
    if s.len() == 0 {
        Seq::empty()
    } else {
        insert_sorted_int(sort_ints(s.drop_last()), s.last())
    }
}

/// The median the aggregator reports: the element at index `len / 2` of
/// the ascending per-day totals, hence the upper of the two middle values
/// for an even-length series; 0 for an empty one.
pub open spec fn spec_median(ds: Seq<(int, int)>) -> int {
    let t = sort_ints(totals_of(ds));
    if t.len() == 0 {
        0
    } else {
        t[t.len() as int / 2]
    }
}

/// `m` is the largest day total of the series, or 0 when there is none.
pub open spec fn is_max_total(ds: Seq<(int, int)>, m: int) -> bool {
    if ds.len() == 0 {
        m == 0
    } else {
        (exists|k: int| 0 <= k < ds.len() && (#[trigger] ds[k]).1 == m) && (forall|k: int|
            0 <= k < ds.len() ==> (#[trigger] ds[k]).1 <= m)
    }
}

/// `m` is the smallest day total of the series, or 0 when there is none.
pub open spec fn is_min_total(ds: Seq<(int, int)>, m: int) -> bool {
    if ds.len() == 0 {
        m == 0
    } else {
        (exists|k: int| 0 <= k < ds.len() && (#[trigger] ds[k]).1 == m) && (forall|k: int|
            0 <= k < ds.len() ==> (#[trigger] ds[k]).1 >= m)
    }
}

/// Sum of the squared distances `total * nd - tw` over the series: the
/// numerator of the reported dispersion once the common denominator `nd`
/// is factored out of each `total - tw / nd`.
pub open spec fn sq_dev_sum(ds: Seq<(int, int)>, nd: int, tw: int) -> int
    decreases ds.len(),
{
    if ds.len() == 0 {
        0
    } else {
        sq_dev_sum(ds.drop_last(), nd, tw) + (ds.last().1 * nd - tw) * (ds.last().1 * nd - tw)
    }
}

proof fn lemma_insert_sorted_at(s: Seq<int>, x: int, j: int)
    requires
        0 <= j <= s.len(),
        forall|k: int| j <= k < s.len() ==> s[k] > x,
        j > 0 ==> s[j - 1] <= x,
    ensures
        insert_sorted_int(s, x) =~= s.insert(j, x),
    decreases s.len(),
{
    if j == s.len() {
        if s.len() == 0 {
        } else {
            assert(s.last() <= x);
        }
    } else {
        assert(s[s.len() - 1] > x);
        lemma_insert_sorted_at(s.drop_last(), x, j);
        assert(insert_sorted_int(s, x) =~= s.drop_last().insert(j, x).push(s.last()));
    }
}

/// What insertion into a sorted sequence yields: one element longer, still
/// sorted, and the same values with the new one counted once more.
pub proof fn lemma_insert_sorted_ensures(s: Seq<int>, x: int)
    requires
        forall|a: int, b: int| 0 <= a < b < s.len() ==> s[a] <= s[b],
    ensures
        insert_sorted_int(s, x).len() == s.len() + 1,
        forall|a: int, b: int|
            0 <= a < b < insert_sorted_int(s, x).len() ==> insert_sorted_int(s, x)[a]
                <= insert_sorted_int(s, x)[b],
        insert_sorted_int(s, x).to_multiset() =~= s.to_multiset().insert(x),
    decreases s.len(),
{
    broadcast use vstd::seq_lib::group_to_multiset_ensures;

    if s.len() == 0 {
        assert(insert_sorted_int(s, x) =~= Seq::empty().push(x));
        assert(s.to_multiset() =~= Multiset::empty());
    } else if s.last() <= x {
    } else {
        assert(forall|a: int, b: int|
            0 <= a < b < s.len() - 1 ==> s.drop_last()[a] <= s.drop_last()[b]);
        lemma_insert_sorted_ensures(s.drop_last(), x);
        let t = insert_sorted_int(s.drop_last(), x);
        assert forall|a: int, b: int|
            0 <= a < b < t.push(s.last()).len() implies t.push(s.last())[a] <= t.push(
            s.last(),
        )[b] by {
            if b == t.len() {
                assert(t.to_multiset().contains(t[a]));
                assert(s.drop_last().to_multiset().insert(x).contains(t[a]));
                if s.drop_last().to_multiset().contains(t[a]) {
                    let i = choose|i: int|
                        0 <= i < s.drop_last().len() && s.drop_last()[i] == t[a];
                    assert(s[i] <= s.last());
                } else {
                    assert(t[a] == x);
                }
            }
        }
        assert(s.drop_last().push(s.last()) =~= s);
        assert(s.drop_last().to_multiset().insert(s.last()) =~= s.to_multiset());
    }
}

/// What the insertion sort yields: the same values, ascending.
pub proof fn lemma_sort_ints_ensures(s: Seq<int>)
    ensures
        sort_ints(s).len() == s.len(),
        forall|a: int, b: int|
            0 <= a < b < s.len() ==> sort_ints(s)[a] <= sort_ints(s)[b],
        sort_ints(s).to_multiset() =~= s.to_multiset(),
    decreases s.len(),
{
    broadcast use vstd::seq_lib::group_to_multiset_ensures;

    if s.len() > 0 {
        lemma_sort_ints_ensures(s.drop_last());
        lemma_insert_sorted_ensures(sort_ints(s.drop_last()), s.last());
        assert(s.drop_last().push(s.last()) =~= s);
        assert(s.drop_last().to_multiset().insert(s.last()) =~= s.to_multiset());
    }
}

/// The aggregate a bucket reduces to. Quotient-valued statistics are exact
/// `Ratio`s; the dispersion field carries the squared deviation, since the
/// square root is irrational in general.
pub struct TasksAnalysisResult {
    pub total_estimated_time: i64,
    pub total_work_time: i64,
    pub total_time_gap_ratio: Option<Ratio>,
    pub work_days: i64,
    pub work_time_per_day: Ratio,
    pub work_time_per_day_max: i64,
    pub work_time_per_day_min: i64,
    pub work_time_per_day_median: i64,
    pub work_time_per_day_deviation_sq: Ratio,
    pub work_time_per_value: Option<Ratio>,
    pub tasks: Vec<AnalysisResultTask>,
}

/// What the aggregator owes for a bucket `s` with carried scalar `value`:
/// each report field equals the corresponding statistic of `s`.
pub open spec fn report_matches(
    rep: TasksAnalysisResult,
    s: Seq<AnalysisResultTask>,
    value: Option<i64>,
) -> bool {
    let tw = sum_ts(s);
    let te = sum_est(s);
    let ds = day_series(s);
    let nd = days(s).len() as int;
    &&& rep.total_estimated_time as int == te
    &&& rep.total_work_time as int == tw
    &&& (match rep.total_time_gap_ratio {
        Some(r) => te != 0 && r.num as int == tw && r.den as int == te,
        None => te == 0,
    })
    &&& rep.work_days as int == nd
    &&& rep.work_time_per_day.num as int == tw
    &&& rep.work_time_per_day.den as int == nd
    &&& is_max_total(ds, rep.work_time_per_day_max as int)
    &&& is_min_total(ds, rep.work_time_per_day_min as int)
    &&& rep.work_time_per_day_median as int == spec_median(ds)
    &&& rep.work_time_per_day_deviation_sq.num as int == sq_dev_sum(ds, nd, tw)
    &&& rep.work_time_per_day_deviation_sq.den as int == s.len() * nd * nd
    &&& (match (value, rep.work_time_per_value) {
        (Some(v), Some(r)) => r.num as int == tw && r.den as int == v as int,
        (None, None) => true,
        _ => false,
    })
    &&& rep.tasks@ == s
}

/// One bucket of analysis records together with the externally supplied
/// scalar that rides along unchanged.
pub struct Tasks {
    pub records: Vec<AnalysisResultTask>,
    pub value: Option<i64>,
}

impl Tasks {
    /// A bucket the aggregator accepts: bounded, internally consistent
    /// records in ascending begin-timestamp order.
    pub open spec fn wf(self) -> bool {
        &&& self.records@.len() <= MAX_TASKS
        &&& recs_bounded(self.records@)
        &&& sorted_by_begin(self.records@)
    }

    /// Sum of every record's timespan, in minutes.
    pub fn total_work_time(&self) -> (tw: i64)
        requires
            self.wf(),
        ensures
            tw as int == sum_ts(self.records@),
    {
        let ghost s = self.records@;
        let n = self.records.len();
        let mut acc: i64 = 0;
        let mut i: usize = 0;
        while i < n
            invariant
                s == self.records@,
                n == s.len(),
                self.wf(),
                0 <= i <= n,
                acc as int == sum_ts(s.take(i as int)),
                -(i as int) * (MAX_SPAN as int) <= acc as int <= (i as int) * (MAX_SPAN as int),
            decreases n - i,
        {
            proof {
                assert(s.take(i + 1).drop_last() =~= s.take(i as int));
                assert(s.take(i + 1).last() == s[i as int]);
                assert(rec_valid(s[i as int]));
            }
            acc = acc + self.records[i].timespan;
            i = i + 1;
        }
        proof {
            assert(s.take(n as int) =~= s);
        }
        acc
    }

    /// Sum of the estimated minutes of the records that carry an estimate;
    /// records without one contribute nothing.
    pub fn total_estimated_time(&self) -> (te: i64)
        requires
            self.wf(),
        ensures
            te as int == sum_est(self.records@),
    {
        let ghost s = self.records@;
        let n = self.records.len();
        let mut acc: i64 = 0;
        let mut i: usize = 0;
        while i < n
            invariant
                s == self.records@,
                n == s.len(),
                self.wf(),
                0 <= i <= n,
                acc as int == sum_est(s.take(i as int)),
                -(i as int) * (MAX_SPAN as int) <= acc as int <= (i as int) * (MAX_SPAN as int),
            decreases n - i,
        {
            proof {
                assert(s.take(i + 1).drop_last() =~= s.take(i as int));
                assert(s.take(i + 1).last() == s[i as int]);
                assert(rec_valid(s[i as int]));
            }
            match self.records[i].estimated_time {
                Some(m) => {
                    acc = acc + m;
                },
                None => {},
            }
            i = i + 1;
        }
        proof {
            assert(s.take(n as int) =~= s);
        }
        acc
    }

    /// The per-day work-time series: one `(day, total minutes)` pair per
    /// distinct calendar day, in ascending day order.
    pub fn work_time_per_days(&self) -> (res: Vec<(i64, i64)>)
        requires
            self.wf(),
        ensures
            res@.len() == day_series(self.records@).len(),
            forall|k: int|
                0 <= k < res@.len() ==> (#[trigger] res@[k]).0 as int == day_series(
                    self.records@,
                )[k].0 && res@[k].1 as int == day_series(self.records@)[k].1,
    {
        let ghost s = self.records@;
        let n = self.records.len();
        let mut res: Vec<(i64, i64)> = Vec::new();
        let mut i: usize = 0;
        while i < n
            invariant
                s == self.records@,
                n == s.len(),
                self.wf(),
                0 <= i <= n,
                res@.len() == day_series(s.take(i as int)).len(),
                forall|k: int|
                    0 <= k < res@.len() ==> (#[trigger] res@[k]).0 as int == day_series(
                        s.take(i as int),
                    )[k].0 && res@[k].1 as int == day_series(s.take(i as int))[k].1,
            decreases n - i,
        {
            let ghost pre = s.take(i as int);
            let ghost post = s.take(i + 1);
            proof {
                assert(post.drop_last() =~= pre);
                assert(post.last() == s[i as int]);
                assert(rec_valid(s[i as int]));
                assert(forall|a: int, b: int|
                    0 <= a < b < post.len() ==> post[a].begin_time <= post[b].begin_time);
                lemma_day_series(pre);
                lemma_day_series(post);
            }
            let r = &self.records[i];
            let d = crate::model::day_of_exec(r.begin_time);
            let len = res.len();
            if len > 0 && res[len - 1].0 == d {
                let last = res[len - 1];
                proof {
                    assert(pre.len() > 0) by {
                        if pre.len() == 0 {
                            assert(day_series(pre).len() == 0);
                        }
                    }
                    assert(day_series(pre).last().1 == day_total(
                        pre,
                        day_series(pre).last().0,
                    ));
                    assert(recs_bounded(pre)) by {
                        assert(forall|a: int| 0 <= a < pre.len() ==> pre[a] == s[a]);
                    }
                    lemma_day_total_bound(pre, day_series(pre).last().0);
                }
                let _ = res.pop();
                res.push((last.0, last.1 + r.timespan));
            } else {
                res.push((d, r.timespan));
            }
            i = i + 1;
        }
        proof {
            assert(s.take(n as int) =~= s);
        }
        res
    }

    /// Number of distinct calendar days on which any work began.
    pub fn work_days(&self) -> (wd: i64)
        requires
            self.wf(),
        ensures
            wd as int == days(self.records@).len(),
    {
        let series = self.work_time_per_days();
        proof {
            lemma_day_series(self.records@);
        }
        series.len() as i64
    }

    /// Mean work time per day, as the exact quotient of total work time by
    /// the work-day count.
    pub fn work_time_per_day(&self) -> (r: Ratio)
        requires
            self.wf(),
        ensures
            r.num as int == sum_ts(self.records@),
            r.den as int == days(self.records@).len() as int,
    {
        let tw = self.total_work_time();
        let wd = self.work_days();
        Ratio { num: tw as i128, den: wd as i128 }
    }

    /// Largest per-day total, 0 when there are no records.
    pub fn work_time_per_day_max(&self) -> (m: i64)
        requires
            self.wf(),
        ensures
            is_max_total(day_series(self.records@), m as int),
    {
        let series = self.work_time_per_days();
        let ghost ds = day_series(self.records@);
        if series.len() == 0 {
            return 0;
        }
        let mut m = series[0].1;
        let mut k: usize = 1;
        while k < series.len()
            invariant
                series@.len() == ds.len(),
                forall|t: int|
                    0 <= t < ds.len() ==> (#[trigger] series@[t]).0 as int == ds[t].0
                        && series@[t].1 as int == ds[t].1,
                1 <= k <= ds.len(),
                exists|t: int| 0 <= t < k && (#[trigger] ds[t]).1 == m as int,
                forall|t: int| 0 <= t < k ==> (#[trigger] ds[t]).1 <= m as int,
            decreases series@.len() - k,
        {
            if series[k].1 > m {
                m = series[k].1;
            }
            k = k + 1;
        }
        m
    }

    /// Smallest per-day total, 0 when there are no records.
    pub fn work_time_per_day_min(&self) -> (m: i64)
        requires
            self.wf(),
        ensures
            is_min_total(day_series(self.records@), m as int),
    {
        let series = self.work_time_per_days();
        let ghost ds = day_series(self.records@);
        if series.len() == 0 {
            return 0;
        }
        let mut m = series[0].1;
        let mut k: usize = 1;
        while k < series.len()
            invariant
                series@.len() == ds.len(),
                forall|t: int|
                    0 <= t < ds.len() ==> (#[trigger] series@[t]).0 as int == ds[t].0
                        && series@[t].1 as int == ds[t].1,
                1 <= k <= ds.len(),
                exists|t: int| 0 <= t < k && (#[trigger] ds[t]).1 == m as int,
                forall|t: int| 0 <= t < k ==> (#[trigger] ds[t]).1 >= m as int,
            decreases series@.len() - k,
        {
            if series[k].1 < m {
                m = series[k].1;
            }
            k = k + 1;
        }
        m
    }

    /// The per-day total at index `len / 2` of the ascending per-day
    /// series: for an even-length series the upper of the two middle
    /// values, a deliberate simplification over a true median.
    pub fn work_time_per_day_median(&self) -> (m: i64)
        requires
            self.wf(),
        ensures
            m as int == spec_median(day_series(self.records@)),
    {
        let series = self.work_time_per_days();
        let ghost ds = day_series(self.records@);
        let mut v: Vec<i64> = Vec::new();
        let mut k: usize = 0;
        while k < series.len()
            invariant
                series@.len() == ds.len(),
                forall|t: int|
                    0 <= t < ds.len() ==> (#[trigger] series@[t]).0 as int == ds[t].0
                        && series@[t].1 as int == ds[t].1,
                0 <= k <= ds.len(),
                v@.len() == k,
                forall|t: int| 0 <= t < k ==> #[trigger] v@[t] == series@[t].1,
            decreases series@.len() - k,
        {
            v.push(series[k].1);
            k = k + 1;
        }
        proof {
            assert(ints_of(v@) =~= totals_of(ds));
        }
        let mut sorted: Vec<i64> = Vec::new();
        let mut i: usize = 0;
        while i < v.len()
            invariant
                0 <= i <= v@.len(),
                ints_of(sorted@) =~= sort_ints(ints_of(v@.take(i as int))),
                sorted@.len() == i,
            decreases v@.len() - i,
        {
            let x = v[i];
            let mut j: usize = sorted.len();
            while j > 0 && sorted[j - 1] > x
                invariant
                    0 <= j <= sorted@.len(),
                    forall|t: int| j <= t < sorted@.len() ==> #[trigger] sorted@[t] > x,
                decreases j,
            {
                j = j - 1;
            }
            proof {
                lemma_insert_sorted_at(ints_of(sorted@), x as int, j as int);
                assert(v@.take(i + 1).drop_last() =~= v@.take(i as int));
                assert(v@.take(i + 1).last() == v@[i as int]);
                assert(ints_of(v@.take(i + 1)).drop_last() =~= ints_of(v@.take(i as int)));
                assert(ints_of(v@.take(i + 1)).last() == x as int);
            }
            sorted.insert(j, x);
            proof {
                assert(ints_of(sorted@) =~= sort_ints(ints_of(v@.take(i + 1))));
            }
            i = i + 1;
        }
        proof {
            assert(v@.take(v@.len() as int) =~= v@);
        }
        if sorted.len() == 0 {
            0
        } else {
            let m = sorted[sorted.len() / 2];
            proof {
                assert(m as int == ints_of(sorted@)[sorted@.len() as int / 2]);
            }
            m
        }
    }

    /// Squared dispersion of the per-day totals around the mean, as an
    /// exact quotient. With `nd` work days, `n` records and total work
    /// time `tw`, each term `(total - tw / nd)^2` is brought onto the
    /// common denominator `nd^2`, and the sum is divided by `n` — the
    /// record count, not the day count, the divisor the report calls for.
    pub fn work_time_per_day_deviation_sq(&self) -> (r: Ratio)
        requires
            self.wf(),
        ensures
            r.num as int == sq_dev_sum(
                day_series(self.records@),
                days(self.records@).len() as int,
                sum_ts(self.records@),
            ),
            r.den as int == self.records@.len() * (days(self.records@).len() as int) * (
            days(self.records@).len() as int),
    {
        let series = self.work_time_per_days();
        let tw = self.total_work_time();
        let nd = self.work_days();
        let n = self.records.len();
        let ghost s = self.records@;
        let ghost ds = day_series(s);
        proof {
            lemma_day_series(s);
            lemma_sum_ts_bound(s);
        }
        let mut acc: i128 = 0;
        let mut k: usize = 0;
        while k < series.len()
            invariant
                s == self.records@,
                self.wf(),
                ds == day_series(s),
                series@.len() == ds.len(),
                forall|t: int|
                    0 <= t < ds.len() ==> (#[trigger] series@[t]).0 as int == ds[t].0
                        && series@[t].1 as int == ds[t].1,
                n == s.len() <= 65536,
                tw as int == sum_ts(s),
                -274_877_906_944 <= tw as int <= 274_877_906_944,
                nd as int == days(s).len(),
                ds.len() == days(s).len(),
                0 <= nd as int <= n as int,
                0 <= k <= ds.len(),
                acc as int == sq_dev_sum(ds.take(k as int), nd as int, tw as int),
                0 <= acc as int <= (k as int) * 1298074214633706907132624082305024,
            decreases series@.len() - k,
        {
            let v = series[k].1;
            proof {
                lemma_day_series(s);
                assert(ds[k as int].1 == day_total(s, ds[k as int].0));
                lemma_day_total_bound(s, ds[k as int].0);
                assert(-274_877_906_944 <= v as int <= 274_877_906_944);
            }
            proof {
                assert(-18_014_398_509_481_984 <= (v as int) * (nd as int)
                    <= 18_014_398_509_481_984) by (nonlinear_arith)
                    requires
                        -274_877_906_944 <= v as int <= 274_877_906_944,
                        0 <= nd as int <= 65536,
                ;
            }
            let vd: i128 = (v as i128) * (nd as i128);
            let diff: i128 = vd - (tw as i128);
            proof {
                assert((diff as int) * (diff as int)
                    <= 1298074214633706907132624082305024 && 0 <= (diff as int) * (
                diff as int)) by (nonlinear_arith)
                    requires
                        -36_028_797_018_963_968 <= diff as int <= 36_028_797_018_963_968,
                ;
            }
            let sq: i128 = diff * diff;
            proof {
                assert(ds.take(k + 1).drop_last() =~= ds.take(k as int));
                assert(ds.take(k + 1).last() == ds[k as int]);
            }
            acc = acc + sq;
            k = k + 1;
        }
        proof {
            assert(ds.take(ds.len() as int) =~= ds);
        }
        proof {
            assert(0 <= (n as int) * (nd as int) <= 4_294_967_296 && 0 <= (n as int) * (
            nd as int) * (nd as int) <= 281_474_976_710_656) by (nonlinear_arith)
                requires
                    0 <= n as int <= 65536,
                    0 <= nd as int <= 65536,
            ;
        }
        let den: i128 = (n as i128) * (nd as i128) * (nd as i128);
        Ratio { num: acc, den }
    }

    /// Work time per externally supplied unit, absent when no scalar was
    /// supplied.
    pub fn work_time_per_value(&self) -> (r: Option<Ratio>)
        requires
            self.wf(),
        ensures
            match (self.value, r) {
                (Some(v), Some(q)) => q.num as int == sum_ts(self.records@) && q.den as int
                    == v as int,
                (None, None) => true,
                _ => false,
            },
    {
        match self.value {
            Some(v) => {
                let tw = self.total_work_time();
                Some(Ratio { num: tw as i128, den: v as i128 })
            },
            None => None,
        }
    }

    /// The bucket's records, unmodified and in their incoming order.
    pub fn tasks(self) -> (v: Vec<AnalysisResultTask>)
        ensures
            v@ == self.records@,
    {
        self.records
    }

    /// Reduces the bucket to its aggregate report. Buckets are non-empty
    /// by construction, so every statistic below is well defined.
    pub fn analyze(self) -> (res: TasksAnalysisResult)
        requires
            self.wf(),
            self.records@.len() >= 1,
        ensures
            report_matches(res, self.records@, self.value),
    {
        let tw = self.total_work_time();
        let te = self.total_estimated_time();
        let total_time_gap_ratio = if te == 0 {
            None
        } else {
            Some(Ratio { num: tw as i128, den: te as i128 })
        };
        let work_days = self.work_days();
        let work_time_per_day = self.work_time_per_day();
        let work_time_per_day_max = self.work_time_per_day_max();
        let work_time_per_day_min = self.work_time_per_day_min();
        let work_time_per_day_median = self.work_time_per_day_median();
        let work_time_per_day_deviation_sq = self.work_time_per_day_deviation_sq();
        let work_time_per_value = self.work_time_per_value();
        TasksAnalysisResult {
            total_estimated_time: te,
            total_work_time: tw,
            total_time_gap_ratio,
            work_days,
            work_time_per_day,
            work_time_per_day_max,
            work_time_per_day_min,
            work_time_per_day_median,
            work_time_per_day_deviation_sq,
            work_time_per_value,
            tasks: self.records,
        }
    }
}

} // verus!
