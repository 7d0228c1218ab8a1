//! The task data model: catalog tasks, completed intervals, planned intervals.

use vstd::prelude::*;

verus! {

/// Planner-facing settings of a single catalog task.
pub struct TaskConfiguration {
    /// Planned duration of one run of the task, in seconds.
    pub time: u64,
    /// Whether the task may be scheduled again after it completes.
    pub repeat: bool,
}

impl Clone for TaskConfiguration {
    fn clone(&self) -> (c: Self)
        ensures
            c == self,
    {
        TaskConfiguration { time: self.time, repeat: self.repeat }
    }
}

impl Default for TaskConfiguration {
    /// 45 minutes, repeating.
    fn default() -> (c: Self)
        ensures
            c.time == 2700,
            c.repeat,
    {
        TaskConfiguration { time: 2700, repeat: true }
    }
}

/// A schedulable activity of the catalog. Its identity for planning purposes
/// is the pair `(name, group)`; the remaining fields are metadata.
pub struct Task {
    pub name: String,
    pub group: String,
    pub config: TaskConfiguration,
    /// Creation instant, as a Unix timestamp in seconds.
    pub created: i64,
    /// Closing instant, as a Unix timestamp in seconds, if the task was closed.
    pub closed: Option<i64>,
}

impl Task {
    /// The `(name, group)` pair that identifies the task in planning.
    pub open spec fn ident(self) -> (Seq<char>, Seq<char>) {
        (self.name@, self.group@)
    }

    pub fn new(name: &str, group: &str, config: TaskConfiguration) -> (t: Task)
        ensures
            t.name@ == name@,
            t.group@ == group@,
            t.config == config,
            t.closed is None,
    {
        Task {
            name: name.to_owned(),
            group: group.to_owned(),
            config,
            created: now_timestamp(),
            closed: None,
        }
    }
}

impl Clone for Task {
    fn clone(&self) -> (t: Self)
        ensures
            t == self,
    {
        Task {
            name: self.name.clone(),
            group: self.group.clone(),
            config: self.config.clone(),
            created: self.created,
            closed: match self.closed {
                Some(ts) => Some(ts),
                None => None,
            },
        }
    }
}

/// Relies on `chrono::Utc::now` for the current wall-clock time; nothing is
/// promised of the value, and callers treat it as opaque metadata.
#[verifier::external_body]
pub(crate) fn now_timestamp() -> i64 {
    chrono::Utc::now().timestamp()
}

/// A completed (or, during lookahead, hypothetical) interval: `time` seconds
/// attributed to the identity `(origin_name, origin_group)`.
pub struct TaskRecord {
    pub origin_name: String,
    pub origin_group: String,
    /// Elapsed duration, in seconds.
    pub time: u64,
}

impl TaskRecord {
    /// The planning identity this interval is attributed to.
    pub open spec fn ident(self) -> (Seq<char>, Seq<char>) {
        (self.origin_name@, self.origin_group@)
    }
}

impl Clone for TaskRecord {
    fn clone(&self) -> (r: Self)
        ensures
            r == self,
    {
        TaskRecord {
            origin_name: self.origin_name.clone(),
            origin_group: self.origin_group.clone(),
            time: self.time,
        }
    }
}

/// A planned interval: structurally identical to [`TaskRecord`], but not yet
/// executed.
pub struct ScheduleTask {
    pub origin_name: String,
    pub origin_group: String,
    /// Planned duration, in seconds.
    pub time: u64,
}

impl ScheduleTask {
    /// The planning identity this interval is attributed to.
    pub open spec fn ident(self) -> (Seq<char>, Seq<char>) {
        (self.origin_name@, self.origin_group@)
    }
}

impl Clone for ScheduleTask {
    fn clone(&self) -> (t: Self)
        ensures
            t == self,
    {
        ScheduleTask {
            origin_name: self.origin_name.clone(),
            origin_group: self.origin_group.clone(),
            time: self.time,
        }
    }
}

impl From<ScheduleTask> for TaskRecord {
    fn from(value: ScheduleTask) -> (r: Self) {
        TaskRecord {
            origin_name: value.origin_name,
            origin_group: value.origin_group,
            time: value.time,
        }
    }
}

impl vstd::std_specs::convert::FromSpecImpl<ScheduleTask> for TaskRecord {
    open spec fn obeys_from_spec() -> bool {
        true
    }

    open spec fn from_spec(v: ScheduleTask) -> TaskRecord {
        TaskRecord { origin_name: v.origin_name, origin_group: v.origin_group, time: v.time }
    }
}

impl From<TaskRecord> for ScheduleTask {
    fn from(value: TaskRecord) -> (t: Self) {
        ScheduleTask {
            origin_name: value.origin_name,
            origin_group: value.origin_group,
            time: value.time,
        }
    }
}

impl vstd::std_specs::convert::FromSpecImpl<TaskRecord> for ScheduleTask {
    open spec fn obeys_from_spec() -> bool {
        true
    }

    open spec fn from_spec(v: TaskRecord) -> ScheduleTask {
        ScheduleTask { origin_name: v.origin_name, origin_group: v.origin_group, time: v.time }
    }
}

/// Converting a planned interval to a record and back preserves the name, the
/// group and the duration exactly: the two conversions are mutually inverse
/// relabelings.
pub proof fn lemma_schedule_record_round_trip(s: ScheduleTask, r: TaskRecord)
    ensures
        <ScheduleTask as vstd::std_specs::convert::FromSpec<TaskRecord>>::from_spec(
            <TaskRecord as vstd::std_specs::convert::FromSpec<ScheduleTask>>::from_spec(s),
        ) == s,
        <TaskRecord as vstd::std_specs::convert::FromSpec<ScheduleTask>>::from_spec(
            <ScheduleTask as vstd::std_specs::convert::FromSpec<TaskRecord>>::from_spec(r),
        ) == r,
{
}

} // verus!
