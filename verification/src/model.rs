//! Input and output value types of the engine, and the derivation rules that
//! turn a raw task into an analysis record.

use vstd::prelude::*;

verus! {

/// Minutes in one calendar day.
pub const MINUTES_PER_DAY: i64 = 1440;

/// Largest magnitude accepted for a timestamp, in minutes from the epoch.
pub const MAX_ABS_TIME: i64 = 274_877_906_944;

/// Largest magnitude accepted for one task's duration or estimate, in minutes.
pub const MAX_SPAN: i64 = 4_194_304;

/// Largest number of tasks one invocation accepts.
pub const MAX_TASKS: usize = 65_536;

/// The project a task belongs to: a stable identifier plus a display name.
pub struct Project {
    pub id: String,
    pub name: String,
}

impl Clone for Project {
    fn clone(&self) -> (res: Self)
        ensures
            res == *self,
    {
        Project { id: self.id.clone(), name: self.name.clone() }
    }
}

/// One raw time-tracked work entry, as handed in by the caller. Timestamps
/// are minutes since the Unix epoch; the estimate is in minutes.
pub struct Task {
    pub id: String,
    pub name: String,
    pub group: Option<String>,
    pub project: Option<Project>,
    pub comment: Option<String>,
    pub estimated_time: Option<i64>,
    pub begin_time: Option<i64>,
    pub end_time: Option<i64>,
    pub holiday: bool,
}

/// An exact quotient of two integers. Kept unevaluated: the engine never
/// divides, it records numerator and denominator.
#[derive(Clone, Copy, PartialEq, Eq, Structural, Debug)]
pub struct Ratio {
    pub num: i128,
    pub den: i128,
}

/// Calendar day (count of whole days from the epoch) a minute timestamp
/// falls on.
pub open spec fn day_of(t: int) -> int {
    t / (MINUTES_PER_DAY as int)
}

/// Whether a day number falls on a Saturday or Sunday. Day 0 of the epoch
/// is a Thursday, so days congruent to 2 and 3 modulo 7 are the weekend.
pub open spec fn is_weekend_day(d: int) -> bool {
    d % 7 == 2 || d % 7 == 3
}

/// Days from the epoch down to the earliest representable timestamp,
/// rounded up to whole days.
pub const DAY_OFFSET_DAYS: i64 = 190_887_440;

/// The same offset in minutes: adding it moves every representable
/// timestamp into nonnegative territory without leaving its calendar day.
pub const DAY_OFFSET_MIN: i64 = DAY_OFFSET_DAYS * MINUTES_PER_DAY;

/// Computes the calendar day of a minute timestamp, shifting into the
/// nonnegative range first so that the machine division rounds the same
/// way the mathematical floor does.
pub fn day_of_exec(t: i64) -> (d: i64)
    requires
        -MAX_ABS_TIME <= t <= MAX_ABS_TIME,
    ensures
        d as int == day_of(t as int),
{
    let u: u64 = (t + DAY_OFFSET_MIN) as u64;
    let q: u64 = u / (MINUTES_PER_DAY as u64);
    proof {
        let ti = t as int;
        let dd = MINUTES_PER_DAY as int;
        let k = DAY_OFFSET_DAYS as int;
        vstd::arithmetic::div_mod::lemma_fundamental_div_mod(ti, dd);
        vstd::arithmetic::div_mod::lemma_mod_bound(ti, dd);
        assert(dd * (ti / dd + k) + ti % dd == ti + dd * k) by (nonlinear_arith)
            requires
                ti == dd * (ti / dd) + ti % dd,
        ;
        vstd::arithmetic::div_mod::lemma_div_multiples_vanish_fancy(ti / dd + k, ti % dd, dd);
        assert(u as int == ti + dd * k);
        assert(q as int == ti / dd + k);
    }
    (q as i64) - DAY_OFFSET_DAYS
}

/// A later timestamp never falls on an earlier calendar day.
pub proof fn lemma_day_of_ordered(t1: int, t2: int)
    requires
        t1 <= t2,
    ensures
        day_of(t1) <= day_of(t2),
{
    vstd::arithmetic::div_mod::lemma_div_is_ordered(t1, t2, MINUTES_PER_DAY as int);
}

/// Whether a character has the Unicode `White_Space` property, the
/// separator `str::split_whitespace` splits on.
pub open spec fn is_ws(c: char) -> bool {
    let u = c as u32;
    (9 <= u && u <= 13) || u == 32 || u == 0x85 || u == 0xa0 || u == 0x1680 || (0x2000 <= u && u
        <= 0x200a) || u == 0x2028 || u == 0x2029 || u == 0x202f || u == 0x205f || u == 0x3000
}

fn is_ws_exec(c: char) -> (b: bool)
    ensures
        b == is_ws(c),
{
    let u = c as u32;
    (9 <= u && u <= 13) || u == 32 || u == 0x85 || u == 0xa0 || u == 0x1680 || (0x2000 <= u && u
        <= 0x200a) || u == 0x2028 || u == 0x2029 || u == 0x202f || u == 0x205f || u == 0x3000
}

/// Length of the longest whitespace prefix of a character sequence.
pub open spec fn ws_prefix_len(s: Seq<char>) -> nat
    decreases s.len(),
{
    if s.len() == 0 || !is_ws(s[0]) {
        0
    } else {
        1 + ws_prefix_len(s.drop_first())
    }
}

/// Length of the longest non-whitespace prefix of a character sequence.
pub open spec fn tok_prefix_len(s: Seq<char>) -> nat
    decreases s.len(),
{
    if s.len() == 0 || is_ws(s[0]) {
        0
    } else {
        1 + tok_prefix_len(s.drop_first())
    }
}

proof fn lemma_ws_prefix_at(s: Seq<char>, i: int)
    requires
        0 <= i <= s.len(),
        forall|k: int| 0 <= k < i ==> is_ws(s[k]),
        i < s.len() ==> !is_ws(s[i]),
    ensures
        ws_prefix_len(s) == i,
    decreases i,
{
    if i == 0 {
    } else {
        assert(is_ws(s[0]));
        lemma_ws_prefix_at(s.drop_first(), i - 1);
    }
}

proof fn lemma_tok_prefix_at(s: Seq<char>, i: int)
    requires
        0 <= i <= s.len(),
        forall|k: int| 0 <= k < i ==> !is_ws(s[k]),
        i < s.len() ==> is_ws(s[i]),
    ensures
        tok_prefix_len(s) == i,
    decreases i,
{
    if i == 0 {
    } else {
        assert(!is_ws(s[0]));
        lemma_tok_prefix_at(s.drop_first(), i - 1);
    }
}

/// The group label a task name yields: the first whitespace-delimited token,
/// present only when the name has at least two tokens.
pub open spec fn spec_group_label(s: Seq<char>) -> Option<Seq<char>> {
    let i = ws_prefix_len(s) as int;
    let j = i + tok_prefix_len(s.skip(i)) as int;
    let k = j + ws_prefix_len(s.skip(j)) as int;
    if j == i {
        None
    } else if k < s.len() {
        Some(s.subrange(i, j))
    } else {
        None
    }
}

/// Derives the group label of a task name: its first whitespace-delimited
/// token if a second token follows, nothing otherwise.
pub fn group_label_of(name: &str) -> (res: Option<String>)
    ensures
        match res {
            Some(g) => spec_group_label(name@) == Some(g@),
            None => spec_group_label(name@) is None,
        },
{
    let ghost s = name@;
    let n = name.unicode_len();
    let mut i: usize = 0;
    loop
        invariant
            s == name@,
            n == s.len(),
            0 <= i <= n,
            forall|k: int| 0 <= k < i ==> is_ws(s[k]),
        ensures
            0 <= i <= n,
            forall|k: int| 0 <= k < i ==> is_ws(s[k]),
            i == n || !is_ws(s[i as int]),
        decreases n - i,
    {
        if i >= n {
            break ;
        }
        if !is_ws_exec(name.get_char(i)) {
            break ;
        }
        i = i + 1;
    }
    proof {
        lemma_ws_prefix_at(s, i as int);
    }
    let mut j: usize = i;
    loop
        invariant
            s == name@,
            n == s.len(),
            i <= j <= n,
            forall|k: int| i <= k < j ==> !is_ws(s[k]),
        ensures
            i <= j <= n,
            forall|k: int| i <= k < j ==> !is_ws(s[k]),
            j == n || is_ws(s[j as int]),
        decreases n - j,
    {
        if j >= n {
            break ;
        }
        if is_ws_exec(name.get_char(j)) {
            break ;
        }
        j = j + 1;
    }
    proof {
        assert(forall|k: int|
            0 <= k < j - i ==> s.skip(i as int)[k] == s[k + i] && !is_ws(s.skip(i as int)[k]));
        lemma_tok_prefix_at(s.skip(i as int), j - i);
    }
    if j == i {
        return None;
    }
    let mut k: usize = j;
    loop
        invariant
            s == name@,
            n == s.len(),
            j <= k <= n,
            forall|m: int| j <= m < k ==> is_ws(s[m]),
        ensures
            j <= k <= n,
            forall|m: int| j <= m < k ==> is_ws(s[m]),
            k == n || !is_ws(s[k as int]),
        decreases n - k,
    {
        if k >= n {
            break ;
        }
        if !is_ws_exec(name.get_char(k)) {
            break ;
        }
        k = k + 1;
    }
    proof {
        assert(forall|m: int|
            0 <= m < k - j ==> s.skip(j as int)[m] == s[m + j] && is_ws(s.skip(j as int)[m]));
        lemma_ws_prefix_at(s.skip(j as int), k - j);
    }
    if k < n {
        Some(name.substring_char(i, j).to_owned())
    } else {
        None
    }
}

/// Machine limits on one task's magnitudes: timestamps, the duration they
/// span, and the estimate must all fit the engine's bounded arithmetic.
pub open spec fn task_bounded(t: Task) -> bool {
    &&& (t.begin_time matches Some(b) ==> -MAX_ABS_TIME <= b <= MAX_ABS_TIME)
    &&& (t.end_time matches Some(e) ==> -MAX_ABS_TIME <= e <= MAX_ABS_TIME)
    &&& (match (t.begin_time, t.end_time) {
        (Some(b), Some(e)) => -MAX_SPAN <= e - b <= MAX_SPAN,
        _ => true,
    })
    &&& (t.estimated_time matches Some(m) ==> -MAX_SPAN <= m <= MAX_SPAN)
}

/// The normalized view of one task, immutable once built. Only tasks with
/// both timestamps present reach this type.
pub struct AnalysisResultTask {
    pub id: String,
    pub name: String,
    pub group: Option<String>,
    pub project: Option<Project>,
    pub comment: Option<String>,
    pub estimated_time: Option<i64>,
    pub time_gap_ratio: Option<Ratio>,
    pub begin_time: i64,
    pub end_time: i64,
    pub timespan: i64,
    pub holiday: bool,
}

/// The time-gap ratio a record carries: actual over estimated minutes,
/// absent when there is no estimate.
pub open spec fn spec_gap_ratio(est: Option<i64>, timespan: i64) -> Option<Ratio> {
    match est {
        Some(m) => Some(Ratio { num: timespan as i128, den: m as i128 }),
        None => None,
    }
}

/// Internal consistency of a record: its timespan is the timestamp
/// difference, its gap ratio and group label follow the derivation rules,
/// and all magnitudes respect the machine limits.
pub open spec fn rec_valid(r: AnalysisResultTask) -> bool {
    &&& -MAX_ABS_TIME <= r.begin_time <= MAX_ABS_TIME
    &&& -MAX_ABS_TIME <= r.end_time <= MAX_ABS_TIME
    &&& r.timespan == r.end_time - r.begin_time
    &&& -MAX_SPAN <= r.timespan <= MAX_SPAN
    &&& (r.estimated_time matches Some(m) ==> -MAX_SPAN <= m <= MAX_SPAN)
    &&& r.time_gap_ratio == spec_gap_ratio(r.estimated_time, r.timespan)
    &&& (match r.group {
        Some(g) => spec_group_label(r.name@) == Some(g@),
        None => spec_group_label(r.name@) is None,
    })
}

/// How a record derives from the task it normalizes: every field carried
/// over unchanged, timestamps unwrapped, timespan and the two derived
/// fields computed by the derivation rules above.
pub open spec fn rec_of(r: AnalysisResultTask, t: Task) -> bool {
    &&& t.begin_time is Some
    &&& t.end_time is Some
    &&& r.id == t.id
    &&& r.name == t.name
    &&& r.project == t.project
    &&& r.comment == t.comment
    &&& r.estimated_time == t.estimated_time
    &&& r.begin_time == t.begin_time->0
    &&& r.end_time == t.end_time->0
    &&& r.holiday == t.holiday
    &&& rec_valid(r)
}

fn clone_opt_string(o: &Option<String>) -> (res: Option<String>)
    ensures
        res == *o,
{
    match o {
        Some(s) => Some(s.clone()),
        None => None,
    }
}

impl AnalysisResultTask {
    /// Builds the analysis record of one task. Callable only for tasks with
    /// both timestamps present and in-bounds magnitudes.
    pub fn from_task(t: &Task) -> (res: Self)
        requires
            task_bounded(*t),
            t.begin_time is Some,
            t.end_time is Some,
        ensures
            rec_of(res, *t),
    {
        let begin_time = match &t.begin_time {
            Some(b) => *b,
            None => 0,
        };
        let end_time = match &t.end_time {
            Some(e) => *e,
            None => 0,
        };
        let timespan = end_time - begin_time;
        let estimated_time = match &t.estimated_time {
            Some(m) => Some(*m),
            None => None,
        };
        let time_gap_ratio = match &t.estimated_time {
            Some(m) => Some(Ratio { num: timespan as i128, den: *m as i128 }),
            None => None,
        };
        AnalysisResultTask {
            id: t.id.clone(),
            name: t.name.clone(),
            group: group_label_of(t.name.as_str()),
            project: match &t.project {
                Some(p) => Some(p.clone()),
                None => None,
            },
            comment: clone_opt_string(&t.comment),
            estimated_time,
            time_gap_ratio,
            begin_time,
            end_time,
            timespan,
            holiday: t.holiday,
        }
    }
}

impl Clone for AnalysisResultTask {
    /// A clone carries every field over unchanged.
    fn clone(&self) -> (res: Self)
        ensures
            res == *self,
    {
        AnalysisResultTask {
            id: self.id.clone(),
            name: self.name.clone(),
            group: clone_opt_string(&self.group),
            project: match &self.project {
                Some(p) => Some(p.clone()),
                None => None,
            },
            comment: clone_opt_string(&self.comment),
            estimated_time: self.estimated_time,
            time_gap_ratio: self.time_gap_ratio,
            begin_time: self.begin_time,
            end_time: self.end_time,
            timespan: self.timespan,
            holiday: self.holiday,
        }
    }
}

impl PartialEq for AnalysisResultTask {
    /// Two records are the same entry exactly when their identifiers agree.
    fn eq(&self, other: &Self) -> (r: bool) {
        self.id == other.id
    }
}

impl Eq for AnalysisResultTask {

}

impl vstd::std_specs::cmp::PartialEqSpecImpl for AnalysisResultTask {
    open spec fn obeys_eq_spec() -> bool {
        true
    }

    open spec fn eq_spec(&self, other: &Self) -> bool {
        self.id@ == other.id@
    }
}

impl PartialOrd for AnalysisResultTask {
    /// Records compare by begin timestamp alone.
    fn partial_cmp(&self, other: &Self) -> (r: Option<core::cmp::Ordering>) {
        if self.begin_time < other.begin_time {
            Some(core::cmp::Ordering::Less)
        } else if self.begin_time == other.begin_time {
            Some(core::cmp::Ordering::Equal)
        } else {
            Some(core::cmp::Ordering::Greater)
        }
    }
}

impl vstd::std_specs::cmp::PartialOrdSpecImpl for AnalysisResultTask {
    open spec fn obeys_partial_cmp_spec() -> bool {
        true
    }

    open spec fn partial_cmp_spec(&self, other: &Self) -> Option<core::cmp::Ordering> {
        if self.begin_time < other.begin_time {
            Some(core::cmp::Ordering::Less)
        } else if self.begin_time == other.begin_time {
            Some(core::cmp::Ordering::Equal)
        } else {
            Some(core::cmp::Ordering::Greater)
        }
    }
}

} // verus!
