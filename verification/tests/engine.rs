use task_analysis::analyze;
use task_analysis::AnalysisResult;
use task_analysis::Project;
use task_analysis::Ratio;
use task_analysis::Task;

// Day 4 since the epoch is Monday, 1970-01-05; day 2 is Saturday.
const MON: i64 = 4 * 1440;
const TUE: i64 = 5 * 1440;
const WED: i64 = 6 * 1440;
const SAT: i64 = 2 * 1440;

fn task(
    id: &str,
    name: &str,
    pid: Option<(&str, &str)>,
    begin: Option<i64>,
    end: Option<i64>,
    est: Option<i64>,
    holiday: bool,
) -> Task {
    Task {
        id: id.to_string(),
        name: name.to_string(),
        group: None,
        project: pid.map(|(i, n)| Project { id: i.to_string(), name: n.to_string() }),
        comment: None,
        estimated_time: est,
        begin_time: begin,
        end_time: end,
        holiday,
    }
}

fn p_task(id: &str, name: &str, begin: i64, end: i64, est: Option<i64>) -> Task {
    task(id, name, Some(("P", "Project P")), Some(begin), Some(end), est, false)
}

fn run(tasks: Vec<Task>) -> AnalysisResult {
    analyze(tasks, "P", None).expect("project should resolve")
}

#[test]
fn p7_two_task_scenario() {
    let tasks = vec![
        p_task("1", "Design Spec", MON + 540, MON + 660, Some(90)),
        p_task("2", "Design Review", TUE + 540, TUE + 570, None),
    ];
    let res = analyze(tasks, "P", None).unwrap();
    assert_eq!(res.project_name, "Project P");
    assert_eq!(res.value, None);
    assert_eq!(res.all.total_work_time, 150);
    assert_eq!(res.all.total_estimated_time, 90);
    assert_eq!(res.all.total_time_gap_ratio, Some(Ratio { num: 150, den: 90 }));
    assert_eq!(res.all.work_days, 2);
    assert_eq!(res.group.len(), 1);
    assert_eq!(res.group[0].0, "Design");
    assert_eq!(res.group[0].1.tasks.len(), 2);
    assert_eq!(res.group[0].1.tasks[0].id, "1");
    assert_eq!(res.group[0].1.tasks[1].id, "2");
}

#[test]
fn p1_inverted_timestamps_are_not_rejected() {
    let tasks = vec![p_task("1", "Late Entry", MON + 600, MON + 540, None)];
    let res = run(tasks);
    assert_eq!(res.all.tasks.len(), 1);
    assert_eq!(res.all.tasks[0].timespan, -60);
    assert_eq!(res.all.total_work_time, -60);
}

fn same_report(
    a: &task_analysis::TasksAnalysisResult,
    b: &task_analysis::TasksAnalysisResult,
) -> bool {
    a.total_estimated_time == b.total_estimated_time
        && a.total_work_time == b.total_work_time
        && a.total_time_gap_ratio == b.total_time_gap_ratio
        && a.work_days == b.work_days
        && a.work_time_per_day == b.work_time_per_day
        && a.work_time_per_day_max == b.work_time_per_day_max
        && a.work_time_per_day_min == b.work_time_per_day_min
        && a.work_time_per_day_median == b.work_time_per_day_median
        && a.work_time_per_day_deviation_sq == b.work_time_per_day_deviation_sq
        && a.work_time_per_value == b.work_time_per_value
        && a.tasks.len() == b.tasks.len()
        && a
            .tasks
            .iter()
            .zip(b.tasks.iter())
            .all(|(x, y)| x.id == y.id && x.begin_time == y.begin_time && x.group == y.group)
}

#[test]
fn p2_idempotent_bit_identical_output() {
    let mk = || {
        vec![
            p_task("1", "Design Spec", MON + 540, MON + 660, Some(90)),
            p_task("2", "Review Round", TUE + 540, TUE + 570, None),
            p_task("3", "Design Check", SAT + 60, SAT + 120, Some(30)),
            task("4", "Holiday Work", Some(("P", "Project P")), Some(WED), Some(WED + 45), None, true),
        ]
    };
    let r1 = analyze(mk(), "P", Some(7)).unwrap();
    let r2 = analyze(mk(), "P", Some(7)).unwrap();
    assert_eq!(r1.project_name, r2.project_name);
    assert_eq!(r1.value, r2.value);
    assert!(same_report(&r1.all, &r2.all));
    assert!(r1.all.tasks[0] == r2.all.tasks[0]);
    assert_eq!(r1.day.len(), r2.day.len());
    for (x, y) in r1.day.iter().zip(r2.day.iter()) {
        assert_eq!(x.0, y.0);
        assert!(same_report(&x.1, &y.1));
    }
    assert_eq!(r1.group.len(), r2.group.len());
    for (x, y) in r1.group.iter().zip(r2.group.iter()) {
        assert_eq!(x.0, y.0);
        assert!(same_report(&x.1, &y.1));
    }
}

#[test]
fn p3_partition_sum_law_concrete() {
    let tasks = vec![
        p_task("1", "Design Spec", MON + 540, MON + 660, Some(90)),
        p_task("2", "Review Round", TUE + 540, TUE + 570, None),
        p_task("3", "Design Check", SAT + 60, SAT + 120, Some(30)),
        task("4", "Ops Call", Some(("P", "Project P")), Some(WED), Some(WED + 45), None, true),
    ];
    let res = run(tasks);
    let day_sum: i64 = res.day.iter().map(|(_, r)| r.total_work_time).sum();
    let group_sum: i64 = res.group.iter().map(|(_, r)| r.total_work_time).sum();
    assert_eq!(day_sum, res.all.total_work_time);
    assert_eq!(group_sum, res.all.total_work_time);
}

#[test]
fn p4_work_days_counts_distinct_dates() {
    let tasks = vec![
        p_task("1", "Morning Work", MON + 60, MON + 120, None),
        p_task("2", "Evening Work", MON + 1200, MON + 1260, None),
        p_task("3", "Next Day", TUE + 60, TUE + 90, None),
    ];
    let res = run(tasks);
    let mut dates: Vec<i64> = res.all.tasks.iter().map(|t| t.begin_time.div_euclid(1440)).collect();
    dates.sort();
    dates.dedup();
    assert_eq!(res.all.work_days, dates.len() as i64);
    assert_eq!(res.all.work_days, 2);
}

#[test]
fn p5_median_of_two_days_is_upper_middle() {
    let tasks = vec![
        p_task("1", "Short Day", MON, MON + 10, None),
        p_task("2", "Long Day", TUE, TUE + 30, None),
    ];
    let res = run(tasks);
    assert_eq!(res.all.work_time_per_day_median, 30);
    assert_eq!(res.all.work_time_per_day_max, 30);
    assert_eq!(res.all.work_time_per_day_min, 10);
}

#[test]
fn p6_division_guards() {
    let tasks = vec![
        p_task("1", "No Estimate", MON, MON + 60, None),
        p_task("2", "Still None", TUE, TUE + 60, None),
    ];
    let res = analyze(tasks, "P", None).unwrap();
    assert_eq!(res.all.total_time_gap_ratio, None);
    assert_eq!(res.all.work_time_per_value, None);
    for (_, rep) in res.day.iter().chain(res.group.iter()) {
        assert_eq!(rep.work_time_per_value, None);
    }
}

#[test]
fn p8_other_project_excluded_everywhere() {
    let tasks = vec![
        p_task("1", "Design Spec", MON + 540, MON + 660, Some(90)),
        task("9", "Foreign Work", Some(("Q", "Project Q")), Some(MON), Some(MON + 600), None, false),
    ];
    let res = run(tasks);
    assert_eq!(res.all.tasks.len(), 1);
    assert_eq!(res.all.tasks[0].id, "1");
    for (_, rep) in res.day.iter().chain(res.group.iter()) {
        assert!(rep.tasks.iter().all(|t| t.id != "9"));
    }
    assert_eq!(res.all.total_work_time, 120);
}

#[test]
fn p9_unknown_project_yields_no_result() {
    let tasks = vec![p_task("1", "Design Spec", MON, MON + 60, None)];
    assert!(analyze(tasks, "Z", None).is_none());
    let incomplete = vec![task("1", "No Times", Some(("P", "Project P")), None, Some(MON), None, false)];
    assert!(analyze(incomplete, "P", None).is_none());
    assert!(analyze(Vec::new(), "P", None).is_none());
}

#[test]
fn day_type_buckets_weekend_and_flag() {
    let tasks = vec![
        p_task("1", "Weekday Work", MON, MON + 60, None),
        p_task("2", "Weekend Work", SAT, SAT + 30, None),
        task("3", "Flagged Off", Some(("P", "Project P")), Some(TUE), Some(TUE + 15), None, true),
    ];
    let res = run(tasks);
    assert_eq!(res.day.len(), 2);
    let holiday = res.day.iter().find(|(l, _)| l == "holiday").unwrap();
    let workday = res.day.iter().find(|(l, _)| l == "workday").unwrap();
    let mut hol_ids: Vec<&str> = holiday.1.tasks.iter().map(|t| t.id.as_str()).collect();
    hol_ids.sort();
    assert_eq!(hol_ids, vec!["2", "3"]);
    assert_eq!(workday.1.tasks.len(), 1);
    assert_eq!(workday.1.tasks[0].id, "1");
}

#[test]
fn group_label_derivation() {
    let tasks = vec![
        p_task("1", "Design Spec", MON, MON + 10, None),
        p_task("2", "Solo", TUE, TUE + 10, None),
        p_task("3", "  Design   Review  ", WED, WED + 10, None),
        p_task("4", "", WED + 100, WED + 110, None),
    ];
    let res = run(tasks);
    assert_eq!(res.all.tasks[0].group.as_deref(), Some("Design"));
    assert_eq!(res.all.tasks[1].group, None);
    assert_eq!(res.all.tasks[2].group.as_deref(), Some("Design"));
    assert_eq!(res.all.tasks[3].group, None);
    let design = res.group.iter().find(|(l, _)| l == "Design").unwrap();
    let rest = res.group.iter().find(|(l, _)| l == "-").unwrap();
    assert_eq!(design.1.tasks.len(), 2);
    assert_eq!(rest.1.tasks.len(), 2);
}

#[test]
fn mean_and_deviation_are_exact_quotients() {
    let tasks = vec![
        p_task("1", "Short Day", MON, MON + 10, None),
        p_task("2", "Long Day", TUE, TUE + 30, None),
    ];
    let res = run(tasks);
    assert_eq!(res.all.work_time_per_day, Ratio { num: 40, den: 2 });
    // per-day totals 10 and 30, mean 20: (10*2-40)^2 + (30*2-40)^2 = 800,
    // divided by n * nd^2 = 2 * 4 = 8, i.e. variance 100, deviation 10.
    assert_eq!(res.all.work_time_per_day_deviation_sq, Ratio { num: 800, den: 8 });
}

#[test]
fn per_record_gap_ratio() {
    let tasks = vec![
        p_task("1", "Estimated Work", MON, MON + 120, Some(90)),
        p_task("2", "Free Work", TUE, TUE + 30, None),
    ];
    let res = run(tasks);
    assert_eq!(res.all.tasks[0].time_gap_ratio, Some(Ratio { num: 120, den: 90 }));
    assert_eq!(res.all.tasks[1].time_gap_ratio, None);
}

#[test]
fn value_carries_through_to_per_value_ratio() {
    let tasks = vec![
        p_task("1", "Design Spec", MON, MON + 100, None),
        p_task("2", "Design Review", TUE, TUE + 50, None),
    ];
    let res = analyze(tasks, "P", Some(5)).unwrap();
    assert_eq!(res.value, Some(5));
    assert_eq!(res.all.work_time_per_value, Some(Ratio { num: 150, den: 5 }));
    for (_, rep) in res.day.iter().chain(res.group.iter()) {
        assert_eq!(rep.work_time_per_value.map(|r| r.den), Some(5));
    }
}

#[test]
fn records_come_out_sorted_by_begin() {
    let tasks = vec![
        p_task("3", "Third Item", WED, WED + 10, None),
        p_task("1", "First Item", MON, MON + 10, None),
        p_task("2", "Second Item", TUE, TUE + 10, None),
    ];
    let res = run(tasks);
    let ids: Vec<&str> = res.all.tasks.iter().map(|t| t.id.as_str()).collect();
    assert_eq!(ids, vec!["1", "2", "3"]);
    assert!(res.all.tasks.windows(2).all(|w| w[0].begin_time <= w[1].begin_time));
    // records order by begin timestamp and equal by identifier
    assert!(res.all.tasks[0] < res.all.tasks[1]);
    assert!(res.all.tasks[0] == res.all.tasks[0]);
}

#[test]
fn project_name_comes_from_first_matching_record() {
    let tasks = vec![
        task("2", "Later Entry", Some(("P", "Project P new")), Some(TUE), Some(TUE + 10), None, false),
        task("1", "Early Entry", Some(("P", "Project P old")), Some(MON), Some(MON + 10), None, false),
    ];
    let res = run(tasks);
    assert_eq!(res.project_name, "Project P old");
}
