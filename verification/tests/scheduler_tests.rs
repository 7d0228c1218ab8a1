use scheduler::ratio::ExpectedRatioTasks;
use scheduler::schedule::{PlanningPolicy, ScheduleConfiguration, Scheduler};
use scheduler::task::{Task, TaskConfiguration, TaskRecord};

fn task(name: &'static str, group: &'static str, minutes: u64) -> Task {
    Task::new(name, group, TaskConfiguration { time: minutes * 60, repeat: true })
}

fn record(name: &str, group: &str, seconds: u64) -> TaskRecord {
    TaskRecord { origin_name: name.to_string(), origin_group: group.to_string(), time: seconds }
}

fn two_task_scheduler(ratio_a: u64, ratio_b: u64, config: ScheduleConfiguration) -> Scheduler {
    let mapping = ExpectedRatioTasks::new(vec![
        (task("A", "work", 30), ratio_a),
        (task("B", "work", 30), ratio_b),
    ])
    .unwrap();
    Scheduler::new(mapping, Vec::new(), config)
}

fn quiet_config() -> ScheduleConfiguration {
    // Rest frequencies far beyond any history used in these tests.
    ScheduleConfiguration {
        breaktime: 45,
        break_frequency: 1_000_000,
        minibreaktime: 10,
        minibreak_frequency: 1_000_000,
        transitiontime: 3,
    }
}

#[test]
fn empty_history_picks_first_task() {
    let s = two_task_scheduler(6000, 4000, quiet_config());
    let next = s.compute_task(&Vec::new()).unwrap();
    assert_eq!(next.origin_name, "A");
    assert_eq!(next.origin_group, "work");
    assert_eq!(next.time, 1800);
}

#[test]
fn equal_ratios_tie_goes_to_mapping_order() {
    let s = two_task_scheduler(5000, 5000, quiet_config());
    let next = s.compute_task(&Vec::new()).unwrap();
    assert_eq!(next.origin_name, "A");
}

#[test]
fn zero_time_tie_goes_to_mapping_order() {
    // With zero planned durations every candidate costs the same — the sum
    // of all target ratios — so the first entry wins even with the smaller
    // ratio.
    let mapping = ExpectedRatioTasks::new(vec![
        (task("A", "work", 0), 4000u64),
        (task("B", "work", 0), 6000u64),
    ])
    .unwrap();
    let s = Scheduler::new(mapping, Vec::new(), quiet_config());
    let next = s.compute_task(&Vec::new()).unwrap();
    assert_eq!(next.origin_name, "A");
}

#[test]
fn starved_task_is_selected() {
    // 400 minutes of A on the ledger and none of B, equal targets: B
    // minimizes the divergence.
    let mut s = two_task_scheduler(5000, 5000, quiet_config());
    s.feed_record(record("A", "work", 400 * 60));
    let next = s.compute_task(&Vec::new()).unwrap();
    assert_eq!(next.origin_name, "B");
    assert_eq!(next.time, 1800);
}

#[test]
fn empty_mapping_is_exhaustion() {
    let mapping = ExpectedRatioTasks(Vec::new());
    let s = Scheduler::new(mapping, Vec::new(), quiet_config());
    assert!(s.compute_task(&Vec::new()).is_none());
}

#[test]
fn due_break_preempts_selection() {
    let mut s = two_task_scheduler(6000, 4000, ScheduleConfiguration::default());
    s.feed_record(record("A", "work", 400 * 60));
    let next = s.compute_task(&Vec::new()).unwrap();
    assert_eq!(next.origin_name, "Break");
    assert_eq!(next.origin_group, "system/break");
    assert_eq!(next.time, 45 * 60);
}

#[test]
fn due_minibreak_preempts_selection() {
    let mut s = two_task_scheduler(6000, 4000, ScheduleConfiguration::default());
    s.feed_record(record("A", "work", 50 * 60));
    let next = s.compute_task(&Vec::new()).unwrap();
    assert_eq!(next.origin_name, "Minibreak");
    assert_eq!(next.origin_group, "system/minibreak");
    assert_eq!(next.time, 10 * 60);
}

#[test]
fn count_bounded_plan_with_breaks() {
    // Catalog (A: 0.6, 30 min), (B: 0.4, 30 min), empty history, default
    // rest configuration: A first by the tie-break, then B, then — 45
    // minutes having accumulated — a minibreak before any further task.
    let s = two_task_scheduler(6000, 4000, ScheduleConfiguration::default());
    let plan = s.compute_tasks(&Vec::new(), 5);
    let names: Vec<&str> = plan.iter().map(|t| t.origin_name.as_str()).collect();
    assert_eq!(names, vec!["A", "B", "Minibreak", "A", "B"]);
    assert_eq!(plan[2].origin_group, "system/minibreak");
    assert_eq!(plan[2].time, 600);
}

#[test]
fn count_bounded_plan_stops_on_exhaustion() {
    let mapping = ExpectedRatioTasks(Vec::new());
    let s = Scheduler::new(mapping, Vec::new(), quiet_config());
    let plan = s.compute_tasks(&Vec::new(), 5);
    assert!(plan.is_empty());
}

#[test]
fn observed_ratios_of_empty_history_are_zero() {
    let s = two_task_scheduler(6000, 4000, quiet_config());
    let obs = s.compute_history_ratio_tasks(&Vec::new());
    assert_eq!(obs.total, 0);
    assert_eq!(obs.entries.len(), 2);
    for entry in obs.entries.iter() {
        assert_eq!(entry.1, 0);
    }
    assert_eq!(obs.entries[0].0 .0, "A");
    assert_eq!(obs.entries[1].0 .0, "B");
}

#[test]
fn observed_ratios_report_seconds_per_identity() {
    let mut s = two_task_scheduler(6000, 4000, quiet_config());
    s.feed_record(record("A", "work", 1800));
    s.feed_record(record("B", "work", 5400));
    let obs = s.compute_history_ratio_tasks(&Vec::new());
    assert_eq!(obs.total, 7200);
    assert_eq!(obs.entries[0], (("A".to_string(), "work".to_string()), 1800));
    assert_eq!(obs.entries[1], (("B".to_string(), "work".to_string()), 5400));
}

#[test]
fn observed_ratios_exclude_rest_intervals() {
    let mut s = two_task_scheduler(6000, 4000, quiet_config());
    s.feed_record(record("A", "work", 1800));
    s.feed_record(record("Break", "system/break", 2700));
    s.feed_record(record("Minibreak", "system/minibreak", 600));
    let obs = s.compute_history_ratio_tasks(&Vec::new());
    assert_eq!(obs.total, 1800);
    assert_eq!(obs.entries.len(), 2);
    assert_eq!(obs.entries[0], (("A".to_string(), "work".to_string()), 1800));
}

#[test]
fn feed_record_appends_to_ledger() {
    let mut s = two_task_scheduler(6000, 4000, quiet_config());
    s.feed_record(record("A", "work", 60));
    s.feed_record(record("B", "work", 120));
    assert_eq!(s.task_history.len(), 2);
    assert_eq!(s.task_history[1].origin_name, "B");
}

#[test]
fn budget_bounded_plan_reaches_focus() {
    let s = two_task_scheduler(6000, 4000, ScheduleConfiguration::default());
    let plan = s.compute_tasks_budget(&Vec::new(), 3600, 10);
    let names: Vec<&str> = plan.iter().map(|t| t.origin_name.as_str()).collect();
    assert_eq!(names, vec!["A", "B"]);
}

#[test]
fn budget_bounded_plan_respects_limit() {
    let s = two_task_scheduler(6000, 4000, ScheduleConfiguration::default());
    let plan = s.compute_tasks_budget(&Vec::new(), 100_000, 1);
    let names: Vec<&str> = plan.iter().map(|t| t.origin_name.as_str()).collect();
    assert_eq!(names, vec!["A"]);
}

#[test]
fn budget_bounded_plan_injects_breaks_in_one_pass() {
    // Four 30-minute picks under the default configuration: the post-process
    // pass injects the minibreak once 45 minutes have accumulated.
    let s = two_task_scheduler(5000, 5000, ScheduleConfiguration::default());
    let plan = s.compute_tasks_budget(&Vec::new(), 7200, 10);
    let groups: Vec<&str> = plan.iter().map(|t| t.origin_group.as_str()).collect();
    assert_eq!(groups, vec!["work", "work", "system/minibreak", "work", "work"]);
}

#[test]
fn plan_dispatches_fixed_count() {
    let s = two_task_scheduler(6000, 4000, ScheduleConfiguration::default());
    let by_policy = s.plan(&Vec::new(), &PlanningPolicy::FixedCount { limit: 5 });
    let direct = s.compute_tasks(&Vec::new(), 5);
    let a: Vec<&str> = by_policy.iter().map(|t| t.origin_name.as_str()).collect();
    let b: Vec<&str> = direct.iter().map(|t| t.origin_name.as_str()).collect();
    assert_eq!(a, b);
}

#[test]
fn plan_dispatches_time_budget() {
    let s = two_task_scheduler(6000, 4000, ScheduleConfiguration::default());
    let by_policy = s.plan(
        &Vec::new(),
        &PlanningPolicy::TimeBudget { focus_seconds: 3600, limit: 10 },
    );
    let names: Vec<&str> = by_policy.iter().map(|t| t.origin_name.as_str()).collect();
    assert_eq!(names, vec!["A", "B"]);
}

#[test]
fn virtual_tail_counts_toward_selection() {
    // With A planned virtually, B becomes the better next pick.
    let s = two_task_scheduler(5000, 5000, quiet_config());
    let tail = vec![record("A", "work", 1800)];
    let next = s.compute_task(&tail).unwrap();
    assert_eq!(next.origin_name, "B");
}
