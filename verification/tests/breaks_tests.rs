use scheduler::breaks::insert_breaks;
use scheduler::schedule::ScheduleConfiguration;
use scheduler::task::ScheduleTask;

fn planned(name: &str, group: &str, seconds: u64) -> ScheduleTask {
    ScheduleTask { origin_name: name.to_string(), origin_group: group.to_string(), time: seconds }
}

fn config(breaktime: u64, break_frequency: u64, minibreaktime: u64, minibreak_frequency: u64) -> ScheduleConfiguration {
    ScheduleConfiguration {
        breaktime,
        break_frequency,
        minibreaktime,
        minibreak_frequency,
        transitiontime: 3,
    }
}

#[test]
fn breaks_inserted_exactly_at_threshold() {
    // Five 30-minute tasks with a break due every 60 minutes and minibreaks
    // effectively disabled: a break lands before every third output slot.
    let plan: Vec<ScheduleTask> = (0..5).map(|i| planned(&format!("T{}", i), "work", 1800)).collect();
    let cfg = config(45, 60, 10, 60);
    let out = insert_breaks(&plan, &cfg, 0, 0);
    let groups: Vec<&str> = out.iter().map(|t| t.origin_group.as_str()).collect();
    assert_eq!(
        groups,
        vec!["work", "work", "system/break", "work", "work", "system/break", "work"]
    );
    assert_eq!(out[2].origin_name, "Break");
    assert_eq!(out[2].time, 45 * 60);
    let names: Vec<&str> = out
        .iter()
        .filter(|t| t.origin_group == "work")
        .map(|t| t.origin_name.as_str())
        .collect();
    assert_eq!(names, vec!["T0", "T1", "T2", "T3", "T4"]);
}

#[test]
fn no_break_before_threshold() {
    let plan = vec![planned("T0", "work", 1800), planned("T1", "work", 1799)];
    let cfg = config(45, 60, 10, 60);
    let out = insert_breaks(&plan, &cfg, 0, 0);
    assert_eq!(out.len(), 2);
    assert_eq!(out[0].origin_name, "T0");
    assert_eq!(out[1].origin_name, "T1");
}

#[test]
fn minibreak_inserted_before_break_threshold() {
    let plan = vec![planned("T0", "work", 1800), planned("T1", "work", 1800), planned("T2", "work", 1800)];
    let cfg = ScheduleConfiguration::default();
    let out = insert_breaks(&plan, &cfg, 0, 0);
    // 45 minutes accumulate after T0 and T1, so a minibreak precedes T2.
    let groups: Vec<&str> = out.iter().map(|t| t.origin_group.as_str()).collect();
    assert_eq!(groups, vec!["work", "work", "system/minibreak", "work"]);
    assert_eq!(out[2].origin_name, "Minibreak");
    assert_eq!(out[2].time, 10 * 60);
}

#[test]
fn initial_counters_are_respected() {
    // 50 minutes already on both counters: a minibreak is due before the
    // first task under the default 45-minute minibreak frequency.
    let plan = vec![planned("T0", "work", 600)];
    let cfg = ScheduleConfiguration::default();
    let out = insert_breaks(&plan, &cfg, 3000, 3000);
    assert_eq!(out.len(), 2);
    assert_eq!(out[0].origin_group, "system/minibreak");
    assert_eq!(out[1].origin_name, "T0");
}

#[test]
fn rest_task_in_plan_resets_counters() {
    // A break already sits in the plan right where one would be due: the
    // pass injects one more (the pre-check fires first), then the plan's own
    // break resets the counters so no further rest is added.
    let plan = vec![
        planned("T0", "work", 3600),
        planned("Break", "system/break", 2700),
        planned("T1", "work", 1800),
    ];
    let cfg = config(45, 60, 10, 60);
    let out = insert_breaks(&plan, &cfg, 0, 0);
    let names: Vec<&str> = out.iter().map(|t| t.origin_name.as_str()).collect();
    assert_eq!(names, vec!["T0", "Break", "Break", "T1"]);
}
