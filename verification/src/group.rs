//! The grouping primitive: partitions a bucket of analysis records into
//! labeled sub-buckets, each keeping the records' relative order and the
//! carried scalar.

use vstd::prelude::*;

use crate::model::day_of;
use crate::model::is_weekend_day;
use crate::model::rec_valid;
use crate::model::AnalysisResultTask;
use crate::model::MAX_ABS_TIME;
use crate::stats::recs_bounded;
use crate::stats::sorted_by_begin;
use crate::stats::Tasks;

verus! {

/// The two fixed keys the report composer partitions by.
#[derive(Clone, Copy, PartialEq, Eq, Structural, Debug)]
pub enum KeyKind {
    /// `"holiday"` for weekend begin days or flagged records, else
    /// `"workday"`.
    DayType,
    /// The record's derived group label, or the placeholder `"-"`.
    GroupLabel,
}

/// The bucket label a record falls under for a key.
pub open spec fn label_of(r: AnalysisResultTask, kind: KeyKind) -> Seq<char> {
    match kind {
        KeyKind::DayType => if is_weekend_day(day_of(r.begin_time as int)) || r.holiday {
            "holiday"@
        } else {
            "workday"@
        },
        KeyKind::GroupLabel => match r.group {
            Some(g) => g@,
            None => "-"@,
        },
    }
}

/// The distinct labels of a record collection, in order of first
/// appearance.
pub open spec fn distinct_labels(s: Seq<AnalysisResultTask>, kind: KeyKind) -> Seq<Seq<char>>
    decreases s.len(),
{
    if s.len() == 0 {
        Seq::empty()
    } else {
        let rest = distinct_labels(s.drop_last(), kind);
        if rest.contains(label_of(s.last(), kind)) {
            rest
        } else {
            rest.push(label_of(s.last(), kind))
        }
    }
}

/// The sub-collection of records carrying one label, in incoming order.
pub open spec fn bucket_of(
    s: Seq<AnalysisResultTask>,
    kind: KeyKind,
    l: Seq<char>,
) -> Seq<AnalysisResultTask>
    decreases s.len(),
{
    if s.len() == 0 {
        Seq::empty()
    } else {
        let rest = bucket_of(s.drop_last(), kind, l);
        if label_of(s.last(), kind) == l {
            rest.push(s.last())
        } else {
            rest
        }
    }
}

/// The label list is duplicate-free, covers every record, and names only
/// labels that some record carries.
pub proof fn lemma_distinct_labels(s: Seq<AnalysisResultTask>, kind: KeyKind)
    ensures
        distinct_labels(s, kind).len() <= s.len(),
        forall|j1: int, j2: int|
            0 <= j1 < j2 < distinct_labels(s, kind).len() ==> distinct_labels(s, kind)[j1]
                != distinct_labels(s, kind)[j2],
        forall|i: int|
            0 <= i < s.len() ==> distinct_labels(s, kind).contains(
                label_of(#[trigger] s[i], kind),
            ),
        forall|j: int|
            0 <= j < distinct_labels(s, kind).len() ==> exists|i: int|
                0 <= i < s.len() && label_of(#[trigger] s[i], kind) == #[trigger] distinct_labels(
                    s,
                    kind,
                )[j],
    decreases s.len(),
{
    if s.len() > 0 {
        let s0 = s.drop_last();
        lemma_distinct_labels(s0, kind);
        let rest = distinct_labels(s0, kind);
        let l = label_of(s.last(), kind);
        assert(forall|i: int| 0 <= i < s0.len() ==> #[trigger] s0[i] == s[i]);
        assert forall|j: int|
            0 <= j < distinct_labels(s, kind).len() implies exists|i: int|
            0 <= i < s.len() && label_of(#[trigger] s[i], kind) == #[trigger] distinct_labels(
                s,
                kind,
            )[j] by {
            if j < rest.len() {
                let i = choose|i: int|
                    0 <= i < s0.len() && label_of(#[trigger] s0[i], kind) == rest[j];
                assert(label_of(s[i], kind) == distinct_labels(s, kind)[j]);
            } else {
                assert(label_of(s[s.len() - 1], kind) == distinct_labels(s, kind)[j]);
            }
        }
        if !rest.contains(l) {
            assert forall|j1: int, j2: int|
                0 <= j1 < j2 < distinct_labels(s, kind).len() implies distinct_labels(
                s,
                kind,
            )[j1] != distinct_labels(s, kind)[j2] by {
                if j2 == rest.len() {
                    assert(rest.contains(rest[j1]));
                }
            }
        }
        assert forall|i: int| 0 <= i < s.len() implies distinct_labels(s, kind).contains(
            label_of(#[trigger] s[i], kind),
        ) by {
            if i < s.len() - 1 {
                assert(rest.contains(label_of(s0[i], kind)));
                let j = choose|j: int|
                    0 <= j < rest.len() && rest[j] == label_of(s0[i], kind);
                assert(distinct_labels(s, kind)[j] == label_of(s[i], kind));
            } else {
                if rest.contains(l) {
                } else {
                    assert(distinct_labels(s, kind)[rest.len() as int] == l);
                }
            }
        }
    }
}

/// A bucket is a sub-collection of its source: ordered like it, bounded
/// like it, and made only of records carrying the bucket's label.
pub proof fn lemma_bucket_of_props(s: Seq<AnalysisResultTask>, kind: KeyKind, l: Seq<char>)
    ensures
        bucket_of(s, kind, l).len() <= s.len(),
        forall|k: int|
            0 <= k < bucket_of(s, kind, l).len() ==> label_of(
                #[trigger] bucket_of(s, kind, l)[k],
                kind,
            ) == l && exists|i: int| 0 <= i < s.len() && bucket_of(s, kind, l)[k] == s[i],
        sorted_by_begin(s) ==> sorted_by_begin(bucket_of(s, kind, l)),
        recs_bounded(s) ==> recs_bounded(bucket_of(s, kind, l)),
        (exists|i: int| 0 <= i < s.len() && label_of(#[trigger] s[i], kind) == l)
            ==> bucket_of(s, kind, l).len() >= 1,
    decreases s.len(),
{
    if s.len() > 0 {
        let s0 = s.drop_last();
        lemma_bucket_of_props(s0, kind, l);
        let rest = bucket_of(s0, kind, l);
        let b = bucket_of(s, kind, l);
        assert(forall|i: int| 0 <= i < s0.len() ==> #[trigger] s0[i] == s[i]);
        assert forall|k: int| 0 <= k < b.len() implies label_of(#[trigger] b[k], kind) == l
            && exists|i: int| 0 <= i < s.len() && b[k] == s[i] by {
            if k < rest.len() {
                assert(b[k] == rest[k]);
                let i = choose|i: int| 0 <= i < s0.len() && rest[k] == s0[i];
                assert(b[k] == s[i]);
            } else {
                assert(b[k] == s[s.len() - 1]);
            }
        }
        if sorted_by_begin(s) {
            assert(sorted_by_begin(s0));
            assert forall|a: int, c: int| 0 <= a < c < b.len() implies b[a].begin_time
                <= b[c].begin_time by {
                if c < rest.len() {
                } else if c == b.len() - 1 && b.len() > rest.len() {
                    let i = choose|i: int| 0 <= i < s0.len() && rest[a] == s0[i];
                    assert(s[i].begin_time <= s[s.len() - 1].begin_time);
                }
            }
        }
        if recs_bounded(s) {
            assert(recs_bounded(s0));
            assert forall|k: int| 0 <= k < b.len() implies rec_valid(#[trigger] b[k]) by {
                let i = choose|i: int| 0 <= i < s.len() && b[k] == s[i];
                assert(rec_valid(s[i]));
            }
        }
        if exists|i: int| 0 <= i < s.len() && label_of(#[trigger] s[i], kind) == l {
            let i = choose|i: int| 0 <= i < s.len() && label_of(#[trigger] s[i], kind) == l;
            if i < s.len() - 1 {
                assert(label_of(s0[i], kind) == l);
            }
        }
    }
}

/// A multiple of 7 at least as large as any representable day number's
/// magnitude: adding it moves a day count into nonnegative territory
/// without changing its weekday.
pub const WEEK_OFFSET_DAYS: i64 = 190_887_445;

fn is_weekend_day_exec(d: i64) -> (b: bool)
    requires
        -190_887_436 <= d <= 190_887_436,
    ensures
        b == is_weekend_day(d as int),
{
    let u: u64 = (d + WEEK_OFFSET_DAYS) as u64;
    let r: u64 = u % 7;
    proof {
        vstd::arithmetic::div_mod::lemma_mod_multiples_vanish(27_269_635, d as int, 7);
        assert(u as int == 7 * 27_269_635 + d as int);
        vstd::arithmetic::div_mod::lemma_mod_bound(d as int, 7);
    }
    r == 2 || r == 3
}

/// The executable bucket label of a record under a key.
pub fn label_of_exec(r: &AnalysisResultTask, kind: KeyKind) -> (l: String)
    requires
        rec_valid(*r),
    ensures
        l@ == label_of(*r, kind),
{
    match kind {
        KeyKind::DayType => {
            let d = crate::model::day_of_exec(r.begin_time);
            proof {
                vstd::arithmetic::div_mod::lemma_div_is_ordered(
                    -(MAX_ABS_TIME as int),
                    r.begin_time as int,
                    1440,
                );
                vstd::arithmetic::div_mod::lemma_div_is_ordered(
                    r.begin_time as int,
                    MAX_ABS_TIME as int,
                    1440,
                );
                vstd::arithmetic::div_mod::lemma_fundamental_div_mod_converse(
                    MAX_ABS_TIME as int,
                    1440,
                    190_887_435,
                    544,
                );
                vstd::arithmetic::div_mod::lemma_fundamental_div_mod_converse(
                    -(MAX_ABS_TIME as int),
                    1440,
                    -190_887_436,
                    896,
                );
            }
            if is_weekend_day_exec(d) || r.holiday {
                "holiday".to_owned()
            } else {
                "workday".to_owned()
            }
        },
        KeyKind::GroupLabel => match &r.group {
            Some(g) => g.clone(),
            None => "-".to_owned(),
        },
    }
}

impl Tasks {
    /// Partitions the bucket by a key: one sub-bucket per distinct label,
    /// labels in order of first appearance, each sub-bucket holding
    /// exactly the records with its label in their incoming order, and
    /// every sub-bucket carrying the parent's scalar unchanged.
    pub fn group_by(&self, kind: KeyKind) -> (out: Vec<(String, Tasks)>)
        requires
            self.wf(),
        ensures
            out@.len() == distinct_labels(self.records@, kind).len(),
            forall|j: int|
                0 <= j < out@.len() ==> (#[trigger] out@[j]).0@ == distinct_labels(
                    self.records@,
                    kind,
                )[j] && out@[j].1.records@ == bucket_of(
                    self.records@,
                    kind,
                    distinct_labels(self.records@, kind)[j],
                ) && out@[j].1.value == self.value,
    {
        let ghost s = self.records@;
        let ghost labs = distinct_labels(s, kind);
        let n = self.records.len();
        let mut labels: Vec<String> = Vec::new();
        let mut i: usize = 0;
        while i < n
            invariant
                s == self.records@,
                n == s.len(),
                self.wf(),
                0 <= i <= n,
                labels@.len() == distinct_labels(s.take(i as int), kind).len(),
                forall|j: int|
                    0 <= j < labels@.len() ==> (#[trigger] labels@[j])@ == distinct_labels(
                        s.take(i as int),
                        kind,
                    )[j],
            decreases n - i,
        {
            let ghost pre = s.take(i as int);
            let ghost post = s.take(i + 1);
            proof {
                assert(post.drop_last() =~= pre);
                assert(post.last() == s[i as int]);
                assert(rec_valid(s[i as int]));
            }
            let l = label_of_exec(&self.records[i], kind);
            let mut found = false;
            let mut j: usize = 0;
            while j < labels.len()
                invariant
                    0 <= j <= labels@.len(),
                    l@ == label_of(s[i as int], kind),
                    s == self.records@,
                    0 <= i < s.len(),
                    forall|t: int|
                        0 <= t < labels@.len() ==> (#[trigger] labels@[t])@ == distinct_labels(
                            s.take(i as int),
                            kind,
                        )[t],
                    labels@.len() == distinct_labels(s.take(i as int), kind).len(),
                    !found ==> forall|t: int|
                        0 <= t < j ==> (#[trigger] labels@[t])@ != l@,
                    found ==> distinct_labels(s.take(i as int), kind).contains(l@),
                decreases labels@.len() - j,
            {
                if labels[j].eq(&l) {
                    found = true;
                    proof {
                        assert(distinct_labels(s.take(i as int), kind)[j as int] == l@);
                    }
                }
                j = j + 1;
            }
            proof {
                let pl = distinct_labels(pre, kind);
                if !found {
                    if pl.contains(l@) {
                        let t = choose|t: int| 0 <= t < pl.len() && pl[t] == l@;
                        assert(labels@[t]@ == l@);
                    }
                    assert(!pl.contains(l@));
                    assert(distinct_labels(post, kind) == pl.push(l@));
                } else {
                    assert(distinct_labels(post, kind) == pl);
                }
            }
            if !found {
                labels.push(l);
            }
            i = i + 1;
        }
        proof {
            assert(s.take(n as int) =~= s);
        }
        let mut out: Vec<(String, Tasks)> = Vec::new();
        let mut j: usize = 0;
        while j < labels.len()
            invariant
                s == self.records@,
                n == s.len(),
                self.wf(),
                labs == distinct_labels(s, kind),
                labels@.len() == labs.len(),
                forall|t: int| 0 <= t < labs.len() ==> (#[trigger] labels@[t])@ == labs[t],
                0 <= j <= labs.len(),
                out@.len() == j,
                forall|t: int|
                    0 <= t < j ==> (#[trigger] out@[t]).0@ == labs[t] && out@[t].1.records@
                        == bucket_of(s, kind, labs[t]) && out@[t].1.value == self.value,
            decreases labels@.len() - j,
        {
            let lab = labels[j].clone();
            let mut bucket: Vec<AnalysisResultTask> = Vec::new();
            let mut i: usize = 0;
            while i < n
                invariant
                    s == self.records@,
                    n == s.len(),
                    self.wf(),
                    0 <= i <= n,
                    lab@ == labs[j as int],
                    0 <= j < labs.len(),
                    bucket@ == bucket_of(s.take(i as int), kind, lab@),
                decreases n - i,
            {
                let ghost pre = s.take(i as int);
                let ghost post = s.take(i + 1);
                proof {
                    assert(post.drop_last() =~= pre);
                    assert(post.last() == s[i as int]);
                    assert(rec_valid(s[i as int]));
                }
                let l = label_of_exec(&self.records[i], kind);
                if l.eq(&lab) {
                    bucket.push(self.records[i].clone());
                }
                i = i + 1;
            }
            proof {
                assert(s.take(n as int) =~= s);
            }
            out.push((lab, Tasks { records: bucket, value: self.value }));
            j = j + 1;
        }
        out
    }
}

} // verus!
