use scheduler::ratio::{reconcile, ExpectedRatioTasks};
use scheduler::storage::Storable;
use scheduler::task::{Task, TaskConfiguration};

fn task(name: &'static str, group: &'static str, minutes: u64) -> Task {
    Task::new(name, group, TaskConfiguration { time: minutes * 60, repeat: true })
}

#[test]
fn new_accepts_exact_sum() {
    let tasks = vec![(task("A", "work", 30), 6000u64), (task("B", "work", 30), 4000u64)];
    let mapping = ExpectedRatioTasks::new(tasks);
    assert!(mapping.is_ok());
}

#[test]
fn new_accepts_edges_of_tolerance() {
    let low = ExpectedRatioTasks::new(vec![(task("A", "work", 30), 9900u64)]);
    assert!(low.is_ok());
    let high = ExpectedRatioTasks::new(vec![(task("A", "work", 30), 10100u64)]);
    assert!(high.is_ok());
}

#[test]
fn new_rejects_sum_below_band() {
    let mapping = ExpectedRatioTasks::new(vec![(task("A", "work", 30), 9899u64)]);
    assert!(mapping.is_err());
}

#[test]
fn new_rejects_sum_above_band() {
    let mapping = ExpectedRatioTasks::new(vec![(task("A", "work", 30), 10101u64)]);
    assert!(mapping.is_err());
}

#[test]
fn new_rejects_empty_mapping() {
    let mapping = ExpectedRatioTasks::new(Vec::new());
    assert!(mapping.is_err());
}

#[test]
fn reconcile_carries_persisted_ratios_over() {
    let data = vec![
        (("A".to_string(), "work".to_string()), 6000u64),
        (("B".to_string(), "work".to_string()), 4000u64),
    ];
    let tasks = vec![task("A", "work", 30), task("B", "work", 30)];
    let out = reconcile(&data, &tasks).unwrap();
    assert_eq!(out.len(), 2);
    assert_eq!(out[0].0.name, "A");
    assert_eq!(out[0].1, 6000);
    assert_eq!(out[1].0.name, "B");
    assert_eq!(out[1].1, 4000);
}

#[test]
fn reconcile_halves_predecessor_for_new_task() {
    let data = vec![(("A".to_string(), "work".to_string()), 6000u64)];
    let tasks = vec![task("A", "work", 30), task("B", "work", 30)];
    let out = reconcile(&data, &tasks).unwrap();
    assert_eq!(out.len(), 2);
    assert_eq!(out[0].0.name, "A");
    assert_eq!(out[0].1, 3000);
    assert_eq!(out[1].0.name, "B");
    assert_eq!(out[1].1, 3000);
}

#[test]
fn reconcile_halves_twice_in_a_row() {
    let data = vec![(("A".to_string(), "work".to_string()), 8000u64)];
    let tasks = vec![task("A", "work", 30), task("B", "work", 30), task("C", "rest", 15)];
    let out = reconcile(&data, &tasks).unwrap();
    assert_eq!(out.len(), 3);
    // B takes half of A's 8000 and A keeps the other half; C then takes half
    // of B's 4000 and B keeps the other half.
    assert_eq!(out[0].1, 4000);
    assert_eq!(out[1].1, 2000);
    assert_eq!(out[2].1, 2000);
}

#[test]
fn reconcile_fails_when_nothing_matches() {
    let data: Vec<((String, String), u64)> = Vec::new();
    let tasks = vec![task("A", "work", 30)];
    assert!(reconcile(&data, &tasks).is_err());
}

#[test]
fn reconcile_of_empty_catalog_is_empty() {
    let data = vec![(("A".to_string(), "work".to_string()), 10000u64)];
    let tasks: Vec<Task> = Vec::new();
    let out = reconcile(&data, &tasks).unwrap();
    assert!(out.is_empty());
}

struct FixedStore {
    data: Vec<((String, String), u64)>,
}

impl Storable<((String, String), u64)> for FixedStore {
    fn store(&self, _data: &Vec<((String, String), u64)>) {}

    fn get(&self) -> Vec<((String, String), u64)> {
        self.data.clone()
    }
}

#[test]
fn read_reconciles_and_validates() {
    let store = FixedStore {
        data: vec![
            (("A".to_string(), "work".to_string()), 6000u64),
            (("B".to_string(), "work".to_string()), 4000u64),
        ],
    };
    let tasks = vec![task("A", "work", 30), task("B", "work", 30)];
    let mapping = ExpectedRatioTasks::read(&store, tasks).unwrap();
    assert_eq!(mapping.0.len(), 2);
    assert_eq!(mapping.0[0].1, 6000);
    assert_eq!(mapping.0[1].1, 4000);
}

#[test]
fn read_rejects_snapshot_out_of_band() {
    // A alone matched with 6000: the reconciled sum is far from the whole.
    let store = FixedStore { data: vec![(("A".to_string(), "work".to_string()), 6000u64)] };
    let tasks = vec![task("A", "work", 30)];
    assert!(ExpectedRatioTasks::read(&store, tasks).is_err());
}

#[test]
fn snapshot_round_trips_through_reconcile() {
    let tasks = vec![(task("A", "work", 30), 7000u64), (task("B", "work", 30), 3000u64)];
    let mapping = ExpectedRatioTasks::new(tasks).unwrap();
    let snapshot = mapping.to_snapshot();
    assert_eq!(snapshot.len(), 2);
    assert_eq!(snapshot[0], (("A".to_string(), "work".to_string()), 7000u64));
    let catalog = vec![task("A", "work", 30), task("B", "work", 30)];
    let out = reconcile(&snapshot, &catalog).unwrap();
    assert_eq!(out[0].1, 7000);
    assert_eq!(out[1].1, 3000);
}
