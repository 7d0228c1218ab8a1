use scheduler::task::{ScheduleTask, Task, TaskConfiguration, TaskRecord};

#[test]
fn round_trip_preserves_fields() {
    let planned = ScheduleTask {
        origin_name: "Read".to_string(),
        origin_group: "leisure".to_string(),
        time: 1234,
    };
    let record = TaskRecord::from(planned);
    assert_eq!(record.origin_name, "Read");
    assert_eq!(record.origin_group, "leisure");
    assert_eq!(record.time, 1234);
    let back = ScheduleTask::from(record);
    assert_eq!(back.origin_name, "Read");
    assert_eq!(back.origin_group, "leisure");
    assert_eq!(back.time, 1234);
}

#[test]
fn task_new_keeps_name_group_and_config() {
    let t = Task::new("Write", "work", TaskConfiguration { time: 900, repeat: false });
    assert_eq!(t.name, "Write");
    assert_eq!(t.group, "work");
    assert_eq!(t.config.time, 900);
    assert!(!t.config.repeat);
    assert!(t.closed.is_none());
}

#[test]
fn default_task_configuration_is_45_minutes_repeating() {
    let c = TaskConfiguration::default();
    assert_eq!(c.time, 2700);
    assert!(c.repeat);
}
