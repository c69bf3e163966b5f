//! The record normalizer and report composer: filters raw tasks down to
//! one project's complete entries, orders them by begin timestamp, and
//! assembles the whole-set aggregate plus the day-type and group
//! breakdowns.

use vstd::multiset::Multiset;
use vstd::prelude::*;

use crate::group::bucket_of;
use crate::group::distinct_labels;
use crate::group::KeyKind;
use crate::model::rec_of;
use crate::model::rec_valid;
use crate::model::task_bounded;
use crate::model::AnalysisResultTask;
use crate::model::Task;
use crate::model::MAX_TASKS;
use crate::stats::recs_bounded;
use crate::stats::report_matches;
use crate::stats::sorted_by_begin;
use crate::stats::Tasks;
use crate::stats::TasksAnalysisResult;

verus! {

/// Whether a raw task belongs to the target project and carries both
/// timestamps, the two conditions for entering the analysis.
pub open spec fn task_matches(t: Task, pid: Seq<char>) -> bool {
    &&& (t.project matches Some(p) && p.id@ == pid)
    &&& t.begin_time is Some
    &&& t.end_time is Some
}

/// The raw tasks that survive filtering, in incoming order.
pub open spec fn filtered_tasks(ts: Seq<Task>, pid: Seq<char>) -> Seq<Task>
    decreases ts.len(),
{
    if ts.len() == 0 {
        Seq::empty()
    } else {
        let rest = filtered_tasks(ts.drop_last(), pid);
        if task_matches(ts.last(), pid) {
            rest.push(ts.last())
        } else {
            rest
        }
    }
}

/// Filtering keeps only matching tasks, and no more of them than came in.
pub proof fn lemma_filtered_tasks(ts: Seq<Task>, pid: Seq<char>)
    ensures
        filtered_tasks(ts, pid).len() <= ts.len(),
        forall|k: int|
            0 <= k < filtered_tasks(ts, pid).len() ==> task_matches(
                #[trigger] filtered_tasks(ts, pid)[k],
                pid,
            ),
    decreases ts.len(),
{
    if ts.len() > 0 {
        lemma_filtered_tasks(ts.drop_last(), pid);
    }
}

/// `rs` is the record collection the normalizer derives before ordering:
/// one record per surviving task, index by index.
pub open spec fn normalizes(rs: Seq<AnalysisResultTask>, ts: Seq<Task>, pid: Seq<char>) -> bool {
    let ft = filtered_tasks(ts, pid);
    &&& rs.len() == ft.len()
    &&& forall|i: int| 0 <= i < ft.len() ==> rec_of(#[trigger] rs[i], ft[i])
}

/// Inserts a record just before the suffix of strictly later records, so
/// that equal begin timestamps keep their incoming order.
pub open spec fn insert_by_begin(
    s: Seq<AnalysisResultTask>,
    r: AnalysisResultTask,
) -> Seq<AnalysisResultTask>
    decreases s.len(),
{
    if s.len() == 0 {
        seq![r]
    } else if s.last().begin_time <= r.begin_time {
        s.push(r)
    } else {
        insert_by_begin(s.drop_last(), r).push(s.last())
    }
}

/// Stable insertion sort of records by ascending begin timestamp.
pub open spec fn sort_by_begin(s: Seq<AnalysisResultTask>) -> Seq<AnalysisResultTask>
    decreases s.len(),
{
    if s.len() == 0 {
        Seq::empty()
    } else {
        insert_by_begin(sort_by_begin(s.drop_last()), s.last())
    }
}

proof fn lemma_insert_by_begin_at(s: Seq<AnalysisResultTask>, r: AnalysisResultTask, j: int)
    requires
        0 <= j <= s.len(),
        forall|k: int| j <= k < s.len() ==> s[k].begin_time > r.begin_time,
        j > 0 ==> s[j - 1].begin_time <= r.begin_time,
    ensures
        insert_by_begin(s, r) =~= s.insert(j, r),
    decreases s.len(),
{
    if j == s.len() {
    } else {
        assert(s[s.len() - 1].begin_time > r.begin_time);
        lemma_insert_by_begin_at(s.drop_last(), r, j);
        assert(insert_by_begin(s, r) =~= s.drop_last().insert(j, r).push(s.last()));
    }
}

/// What the ordering step yields: the same records, by ascending begin
/// timestamp, none lost and none invented.
pub proof fn lemma_sort_by_begin_ensures(s: Seq<AnalysisResultTask>)
    ensures
        sort_by_begin(s).len() == s.len(),
        sorted_by_begin(sort_by_begin(s)),
        sort_by_begin(s).to_multiset() =~= s.to_multiset(),
        forall|k: int|
            0 <= k < s.len() ==> exists|i: int|
                0 <= i < s.len() && #[trigger] sort_by_begin(s)[k] == s[i],
    decreases s.len(),
{
    broadcast use vstd::seq_lib::group_to_multiset_ensures;

    if s.len() > 0 {
        lemma_sort_by_begin_ensures(s.drop_last());
        lemma_insert_by_begin_ensures(sort_by_begin(s.drop_last()), s.last());
        assert(s.drop_last().push(s.last()) =~= s);
        assert(s.drop_last().to_multiset().insert(s.last()) =~= s.to_multiset());
        assert forall|k: int| 0 <= k < s.len() implies exists|i: int|
            0 <= i < s.len() && #[trigger] sort_by_begin(s)[k] == s[i] by {
            let x = sort_by_begin(s)[k];
            assert(sort_by_begin(s).to_multiset().contains(x));
            assert(s.to_multiset().contains(x));
            let i = choose|i: int| 0 <= i < s.len() && s[i] == x;
            assert(sort_by_begin(s)[k] == s[i]);
        }
    }
}

proof fn lemma_insert_by_begin_ensures(s: Seq<AnalysisResultTask>, r: AnalysisResultTask)
    requires
        sorted_by_begin(s),
    ensures
        insert_by_begin(s, r).len() == s.len() + 1,
        sorted_by_begin(insert_by_begin(s, r)),
        insert_by_begin(s, r).to_multiset() =~= s.to_multiset().insert(r),
    decreases s.len(),
{
    broadcast use vstd::seq_lib::group_to_multiset_ensures;

    if s.len() == 0 {
        assert(insert_by_begin(s, r) =~= Seq::empty().push(r));
        assert(s.to_multiset() =~= Multiset::empty());
    } else if s.last().begin_time <= r.begin_time {
    } else {
        assert(sorted_by_begin(s.drop_last()));
        lemma_insert_by_begin_ensures(s.drop_last(), r);
        let t = insert_by_begin(s.drop_last(), r);
        assert forall|a: int, b: int|
            0 <= a < b < t.push(s.last()).len() implies t.push(s.last())[a].begin_time <= t.push(
            s.last(),
        )[b].begin_time by {
            if b == t.len() {
                assert(t.to_multiset().contains(t[a]));
                assert(s.drop_last().to_multiset().insert(r).contains(t[a]));
                if s.drop_last().to_multiset().contains(t[a]) {
                    let i = choose|i: int|
                        0 <= i < s.drop_last().len() && s.drop_last()[i] == t[a];
                    assert(s[i].begin_time <= s.last().begin_time);
                }
            }
        }
        assert(s.drop_last().push(s.last()) =~= s);
        assert(s.drop_last().to_multiset().insert(s.last()) =~= s.to_multiset());
    }
}

/// Whether a record points at the target project.
pub open spec fn rec_proj_matches(r: AnalysisResultTask, pid: Seq<char>) -> bool {
    match r.project {
        Some(p) => p.id@ == pid,
        None => false,
    }
}

impl Tasks {
    /// The display name of the target project, read off the first record
    /// that references it; absent when no record does.
    pub fn project_name(&self, project_id: &str) -> (res: Option<String>)
        ensures
            match res {
                None => forall|i: int|
                    0 <= i < self.records@.len() ==> !rec_proj_matches(
                        #[trigger] self.records@[i],
                        project_id@,
                    ),
                Some(nm) => exists|i: int|
                    0 <= i < self.records@.len() && rec_proj_matches(
                        #[trigger] self.records@[i],
                        project_id@,
                    ) && nm@ == self.records@[i].project->0.name@ && (forall|k: int|
                        0 <= k < i ==> !rec_proj_matches(self.records@[k], project_id@)),
            },
    {
        let pid = project_id.to_owned();
        let n = self.records.len();
        let mut i: usize = 0;
        while i < n
            invariant
                n == self.records@.len(),
                pid@ == project_id@,
                0 <= i <= n,
                forall|k: int|
                    0 <= k < i ==> !rec_proj_matches(#[trigger] self.records@[k], project_id@),
            decreases n - i,
        {
            match &self.records[i].project {
                Some(p) => {
                    if p.id.eq(&pid) {
                        return Some(p.name.clone());
                    }
                },
                None => {},
            }
            i = i + 1;
        }
        None
    }
}

/// The top-level report: the project's display name, the carried scalar,
/// the whole-set aggregate, and the two fixed breakdowns.
pub struct AnalysisResult {
    pub project_name: String,
    pub value: Option<i64>,
    pub all: TasksAnalysisResult,
    pub day: Vec<(String, TasksAnalysisResult)>,
    pub group: Vec<(String, TasksAnalysisResult)>,
}

/// Every field of the report follows from its member list `ar.all.tasks`:
/// the name comes from the first record, the whole-set aggregate matches
/// it, and each breakdown pairs the distinct labels, in first-appearance
/// order, with the aggregate of exactly that label's bucket.
pub open spec fn analysis_fields_ok(ar: AnalysisResult, pid: Seq<char>, value: Option<i64>) -> bool {
    let nr = ar.all.tasks@;
    let dl = distinct_labels(nr, KeyKind::DayType);
    let gl = distinct_labels(nr, KeyKind::GroupLabel);
    &&& nr.len() > 0
    &&& sorted_by_begin(nr)
    &&& recs_bounded(nr)
    &&& forall|i: int| 0 <= i < nr.len() ==> rec_proj_matches(#[trigger] nr[i], pid)
    &&& ar.project_name@ == nr[0].project->0.name@
    &&& ar.value == value
    &&& report_matches(ar.all, nr, value)
    &&& ar.day@.len() == dl.len()
    &&& forall|j: int|
        0 <= j < dl.len() ==> (#[trigger] ar.day@[j]).0@ == dl[j] && report_matches(
            ar.day@[j].1,
            bucket_of(nr, KeyKind::DayType, dl[j]),
            value,
        )
    &&& ar.group@.len() == gl.len()
    &&& forall|j: int|
        0 <= j < gl.len() ==> (#[trigger] ar.group@[j]).0@ == gl[j] && report_matches(
            ar.group@[j].1,
            bucket_of(nr, KeyKind::GroupLabel, gl[j]),
            value,
        )
}

/// Aggregates every bucket of a breakdown, keeping its label.
fn analyze_group(g: Vec<(String, Tasks)>) -> (out: Vec<(String, TasksAnalysisResult)>)
    requires
        forall|j: int|
            0 <= j < g@.len() ==> (#[trigger] g@[j]).1.wf() && g@[j].1.records@.len() >= 1,
    ensures
        out@.len() == g@.len(),
        forall|j: int|
            0 <= j < g@.len() ==> (#[trigger] out@[j]).0 == g@[j].0 && report_matches(
                out@[j].1,
                g@[j].1.records@,
                g@[j].1.value,
            ),
{
    let ghost orig = g@;
    let mut g = g;
    let mut out: Vec<(String, TasksAnalysisResult)> = Vec::new();
    while g.len() > 0
        invariant
            out@.len() + g@.len() == orig.len(),
            forall|j: int| 0 <= j < g@.len() ==> g@[j] == orig[out@.len() + j],
            forall|j: int|
                0 <= j < orig.len() ==> (#[trigger] orig[j]).1.wf() && orig[j].1.records@.len()
                    >= 1,
            forall|j: int|
                0 <= j < out@.len() ==> (#[trigger] out@[j]).0 == orig[j].0 && report_matches(
                    out@[j].1,
                    orig[j].1.records@,
                    orig[j].1.value,
                ),
        decreases g@.len(),
    {
        proof {
            assert(g@[0] == orig[out@.len() as int]);
        }
        let (lab, bucket) = g.remove(0);
        let rep = bucket.analyze();
        out.push((lab, rep));
    }
    out
}


/// Filters the raw tasks down to the target project's complete entries,
/// derives one record each, and orders them by ascending begin timestamp.
fn normalize_sorted(tasks: &Vec<Task>, project_id: &str) -> (out: Vec<AnalysisResultTask>)
    requires
        tasks@.len() <= MAX_TASKS,
        forall|i: int| 0 <= i < tasks@.len() ==> task_bounded(#[trigger] tasks@[i]),
    ensures
        out@.len() == filtered_tasks(tasks@, project_id@).len(),
        exists|rs: Seq<AnalysisResultTask>|
            #[trigger] normalizes(rs, tasks@, project_id@) && out@ == sort_by_begin(rs),
        sorted_by_begin(out@),
        recs_bounded(out@),
        forall|k: int|
            0 <= k < out@.len() ==> rec_proj_matches(#[trigger] out@[k], project_id@),
{
    let ghost ts = tasks@;
    let n = tasks.len();
    let pid_string = project_id.to_owned();
    let mut recs: Vec<AnalysisResultTask> = Vec::new();
    let ghost mut rs: Seq<AnalysisResultTask> = Seq::empty();
    let mut i: usize = 0;
    while i < n
        invariant
            ts == tasks@,
            n == ts.len(),
            ts.len() <= MAX_TASKS,
            forall|k: int| 0 <= k < ts.len() ==> task_bounded(#[trigger] ts[k]),
            pid_string@ == project_id@,
            0 <= i <= n,
            rs.len() == filtered_tasks(ts.take(i as int), project_id@).len(),
            forall|k: int|
                0 <= k < rs.len() ==> rec_of(
                    #[trigger] rs[k],
                    filtered_tasks(ts.take(i as int), project_id@)[k],
                ),
            rs.len() <= i,
            recs@ == sort_by_begin(rs),
        decreases n - i,
    {
        let ghost pre = ts.take(i as int);
        let ghost post = ts.take(i + 1);
        proof {
            assert(post.drop_last() =~= pre);
            assert(post.last() == ts[i as int]);
        }
        let t = &tasks[i];
        let matches_project = match &t.project {
            Some(p) => p.id.eq(&pid_string),
            None => false,
        };
        let has_times = t.begin_time.is_some() && t.end_time.is_some();
        if matches_project && has_times {
            let r = AnalysisResultTask::from_task(t);
            let mut j: usize = recs.len();
            while j > 0 && recs[j - 1].begin_time > r.begin_time
                invariant
                    0 <= j <= recs@.len(),
                    forall|k: int| j <= k < recs@.len() ==> recs@[k].begin_time > r.begin_time,
                decreases j,
            {
                j = j - 1;
            }
            proof {
                lemma_insert_by_begin_at(recs@, r, j as int);
                assert(rs.push(r).drop_last() =~= rs);
                assert(filtered_tasks(post, project_id@) == filtered_tasks(
                    pre,
                    project_id@,
                ).push(ts[i as int]));
            }
            recs.insert(j, r);
            proof {
                rs = rs.push(r);
                assert(forall|k: int|
                    0 <= k < rs.len() - 1 ==> #[trigger] rs[k] == rs.drop_last()[k]);
            }
        } else {
            proof {
                assert(!task_matches(ts[i as int], project_id@));
                assert(filtered_tasks(post, project_id@) == filtered_tasks(pre, project_id@));
            }
        }
        i = i + 1;
    }
    proof {
        assert(ts.take(n as int) =~= ts);
        let ft = filtered_tasks(ts, project_id@);
        lemma_sort_by_begin_ensures(rs);
        lemma_filtered_tasks(ts, project_id@);
        assert(recs_bounded(rs)) by {
            assert(forall|k: int|
                0 <= k < rs.len() ==> rec_of(#[trigger] rs[k], ft[k]) && rec_valid(rs[k]));
        }
        assert(recs_bounded(recs@)) by {
            assert(forall|k: int|
                0 <= k < recs@.len() ==> exists|t2: int|
                    0 <= t2 < rs.len() && #[trigger] recs@[k] == rs[t2]);
        }
        assert(forall|k: int|
            0 <= k < recs@.len() ==> rec_proj_matches(#[trigger] recs@[k], project_id@)) by {
            assert(forall|k: int|
                0 <= k < rs.len() ==> rec_of(#[trigger] rs[k], ft[k]) && task_matches(
                    ft[k],
                    project_id@,
                ) && rec_proj_matches(rs[k], project_id@));
            assert(forall|k: int|
                0 <= k < recs@.len() ==> exists|t2: int|
                    0 <= t2 < rs.len() && #[trigger] recs@[k] == rs[t2]);
        }
        assert(normalizes(rs, ts, project_id@));
    }
    recs
}

/// Produces the report for one project from the raw task collection, or
/// nothing when no task of that project carries both timestamps.
#[verifier::rlimit(100)]
pub fn analyze(tasks: Vec<Task>, project_id: &str, value: Option<i64>) -> (res: Option<
    AnalysisResult,
>)
    requires
        tasks@.len() <= MAX_TASKS,
        forall|i: int| 0 <= i < tasks@.len() ==> task_bounded(#[trigger] tasks@[i]),
    ensures
        match res {
            None => filtered_tasks(tasks@, project_id@).len() == 0,
            Some(ar) => {
                &&& filtered_tasks(tasks@, project_id@).len() > 0
                &&& exists|rs: Seq<AnalysisResultTask>|
                    #[trigger] normalizes(rs, tasks@, project_id@) && ar.all.tasks@
                        == sort_by_begin(rs)
                &&& analysis_fields_ok(ar, project_id@, value)
            },
        },
{
    let ghost ts = tasks@;
    let ghost ft = filtered_tasks(ts, project_id@);
    let recs = normalize_sorted(&tasks, project_id);
    let target = Tasks { records: recs, value };
    proof {
        lemma_filtered_tasks(ts, project_id@);
        assert(target.wf());
    }
    let name = match target.project_name(project_id) {
        Some(nm) => nm,
        None => {
            proof {
                if ft.len() > 0 {
                    assert(rec_proj_matches(target.records@[0], project_id@));
                }
            }
            return None;
        },
    };
    proof {
        assert(ft.len() > 0) by {
            if ft.len() == 0 {
                assert(target.records@.len() == 0);
            }
        }
        assert(target.records@[0].project->0.name@ == name@) by {
            let i0 = choose|i0: int|
                0 <= i0 < target.records@.len() && rec_proj_matches(
                    #[trigger] target.records@[i0],
                    project_id@,
                ) && name@ == target.records@[i0].project->0.name@ && (forall|k: int|
                    0 <= k < i0 ==> !rec_proj_matches(target.records@[k], project_id@));
            assert(rec_proj_matches(target.records@[0], project_id@));
            assert(i0 == 0);
        }
    }
    let day_groups = target.group_by(KeyKind::DayType);
    let group_groups = target.group_by(KeyKind::GroupLabel);
    let ghost nr = target.records@;
    proof {
        crate::group::lemma_distinct_labels(nr, KeyKind::DayType);
        crate::group::lemma_distinct_labels(nr, KeyKind::GroupLabel);
        assert forall|j: int| 0 <= j < day_groups@.len() implies (#[trigger] day_groups@[j]).1.wf()
            && day_groups@[j].1.records@.len() >= 1 by {
            crate::group::lemma_bucket_of_props(
                nr,
                KeyKind::DayType,
                distinct_labels(nr, KeyKind::DayType)[j],
            );
        }
        assert forall|j: int|
            0 <= j < group_groups@.len() implies (#[trigger] group_groups@[j]).1.wf()
            && group_groups@[j].1.records@.len() >= 1 by {
            crate::group::lemma_bucket_of_props(
                nr,
                KeyKind::GroupLabel,
                distinct_labels(nr, KeyKind::GroupLabel)[j],
            );
        }
    }
    let day = analyze_group(day_groups);
    let group = analyze_group(group_groups);
    let all = target.analyze();
    Some(AnalysisResult { project_name: name, value, all, day, group })
}

} // verus!
