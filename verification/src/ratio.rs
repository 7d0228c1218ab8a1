//! The target-ratio mapping: which share of total time each catalog task
//! should receive, and how a persisted snapshot of those shares is
//! reconciled with the current catalog.
//!
//! A ratio is a fixed-point fraction: the value `r` stands for
//! `r / RATIO_SCALE` of total time. A mapping is accepted only when its
//! ratios sum to `RATIO_SCALE` within `RATIO_TOLERANCE`.

use vstd::prelude::*;

use crate::storage::Storable;
use crate::task::Task;

verus! {

/// Denominator of all fixed-point ratios: a ratio `r` means `r / RATIO_SCALE`.
pub const RATIO_SCALE: u64 = 10000;

/// Accepted deviation of a mapping's ratio sum from `RATIO_SCALE`
/// (one hundredth of the whole).
pub const RATIO_TOLERANCE: u64 = 100;

/// Sum of the ratios of a mapping.
pub open spec fn sum_ratio(m: Seq<(Task, u64)>) -> int
    decreases m.len(),
{
    if m.len() == 0 {
        0
    } else {
        sum_ratio(m.drop_last()) + m.last().1
    }
}

/// The mapping's ratios sum to the whole, within tolerance.
pub open spec fn ratio_sum_valid(m: Seq<(Task, u64)>) -> bool {
    RATIO_SCALE - RATIO_TOLERANCE <= sum_ratio(m) <= RATIO_SCALE + RATIO_TOLERANCE
}

proof fn lemma_sum_ratio_take_le(m: Seq<(Task, u64)>, i: int)
    requires
        0 <= i <= m.len(),
    ensures
        sum_ratio(m.take(i)) <= sum_ratio(m),
    decreases m.len(),
{
    if i < m.len() {
        assert(m.drop_last().take(i) =~= m.take(i));
        lemma_sum_ratio_take_le(m.drop_last(), i);
    } else {
        assert(m.take(i) =~= m);
    }
}

/// The declared intent of how time should be split: a sequence of
/// `(task, ratio)` pairs whose ratios sum to the whole, within tolerance.
pub struct ExpectedRatioTasks(pub Vec<(Task, u64)>);

impl Default for ExpectedRatioTasks {
    fn default() -> (m: Self)
        ensures
            m.0@.len() == 0,
    {
        ExpectedRatioTasks(Vec::new())
    }
}

impl ExpectedRatioTasks {
    /// Accepts the mapping exactly when its ratios sum to `RATIO_SCALE`
    /// within `RATIO_TOLERANCE`, and rejects it otherwise.
    pub fn new(tasks: Vec<(Task, u64)>) -> (r: Result<Self, ()>)
        ensures
            r is Ok <==> ratio_sum_valid(tasks@),
            r matches Ok(m) ==> m.0@ == tasks@,
    {
        let upper: u64 = RATIO_SCALE + RATIO_TOLERANCE;
        let mut acc: u64 = 0;
        let n: usize = tasks.len();
        assert(tasks@.take(0) =~= Seq::<(Task, u64)>::empty());
        for i in 0..n
            invariant
                n == tasks@.len(),
                acc == sum_ratio(tasks@.take(i as int)),
                acc <= upper,
                upper == RATIO_SCALE + RATIO_TOLERANCE,
        {
            let r: u64 = tasks[i].1;
            proof {
                assert(tasks@.take(i + 1).drop_last() =~= tasks@.take(i as int));
                assert(tasks@.take(i + 1).last() == tasks@[i as int]);
            }
            if r > upper - acc {
                proof {
                    lemma_sum_ratio_take_le(tasks@, i + 1);
                }
                return Err(());
            }
            acc = acc + r;
        }
        assert(tasks@.take(n as int) =~= tasks@);
        if acc < RATIO_SCALE - RATIO_TOLERANCE {
            Err(())
        } else {
            Ok(ExpectedRatioTasks(tasks))
        }
    }
}

/// Ratio persisted for an identity in a snapshot, if any: the first entry
/// whose `(name, group)` pair equals `id`.
pub open spec fn lookup_ratio(data: Seq<((String, String), u64)>, id: (Seq<char>, Seq<char>)) -> Option<u64>
    decreases data.len(),
{
    if data.len() == 0 {
        None
    } else if (data[0].0.0@, data[0].0.1@) == id {
        Some(data[0].1)
    } else {
        lookup_ratio(data.drop_first(), id)
    }
}

proof fn lemma_lookup_ratio_skip_step(data: Seq<((String, String), u64)>, id: (Seq<char>, Seq<char>), j: int)
    requires
        0 <= j < data.len(),
    ensures
        lookup_ratio(data.skip(j), id) == if (data[j].0.0@, data[j].0.1@) == id {
            Some(data[j].1)
        } else {
            lookup_ratio(data.skip(j + 1), id)
        },
{
    assert(data.skip(j).drop_first() =~= data.skip(j + 1));
    assert(data.skip(j)[0] == data[j]);
}

/// Finds the persisted ratio of the identity `(name, group)`, if any.
pub(crate) fn find_ratio(data: &Vec<((String, String), u64)>, name: &String, group: &String) -> (r: Option<u64>)
    ensures
        r == lookup_ratio(data@, (name@, group@)),
{
    let ghost id: (Seq<char>, Seq<char>) = (name@, group@);
    let n: usize = data.len();
    assert(data@.skip(0) =~= data@);
    for j in 0..n
        invariant
            n == data@.len(),
            lookup_ratio(data@, id) == lookup_ratio(data@.skip(j as int), id),
            id == (name@, group@),
    {
        proof {
            lemma_lookup_ratio_skip_step(data@, id, j as int);
        }
        let entry = &data[j];
        if entry.0.0 == *name && entry.0.1 == *group {
            return Some(entry.1);
        }
    }
    None
}

/// The catalog tasks whose identity has a persisted ratio, in catalog order,
/// each carrying that ratio.
pub open spec fn matched_part(tasks: Seq<Task>, data: Seq<((String, String), u64)>) -> Seq<(Task, u64)>
    decreases tasks.len(),
{
    if tasks.len() == 0 {
        Seq::empty()
    } else {
        let p = matched_part(tasks.drop_last(), data);
        match lookup_ratio(data, tasks.last().ident()) {
            Some(r) => p.push((tasks.last(), r)),
            None => p,
        }
    }
}

/// Grafts one new task onto a mapping: the new task and the mapping's last
/// entry each end up holding half of what that last entry held before.
///
/// Halving twice is the reconciliation rule as observed in practice; whether
/// "give the new task half and keep the other half" was meant instead is an
/// open question, so the rule is exposed here under its own name rather than
/// hidden in update order.
pub open spec fn halve_append(acc: Seq<(Task, u64)>, t: Task) -> Seq<(Task, u64)>
    recommends
        acc.len() > 0,
{
    let i = acc.len() - 1;
    let prev = acc[i as int].1;
    acc.update(i as int, (acc[i as int].0, prev / 2)).push((t, prev / 2))
}

/// Folds [`halve_append`] over every catalog task that has no persisted
/// ratio, in catalog order, starting from the matched entries.
pub open spec fn reconcile_new(acc: Seq<(Task, u64)>, tasks: Seq<Task>, data: Seq<((String, String), u64)>) -> Seq<(Task, u64)>
    decreases tasks.len(),
{
    if tasks.len() == 0 {
        acc
    } else {
        let acc2 = if lookup_ratio(data, tasks[0].ident()) is None {
            halve_append(acc, tasks[0])
        } else {
            acc
        };
        reconcile_new(acc2, tasks.drop_first(), data)
    }
}

proof fn lemma_matched_part_empty(tasks: Seq<Task>, data: Seq<((String, String), u64)>, i: int)
    requires
        matched_part(tasks, data).len() == 0,
        0 <= i < tasks.len(),
    ensures
        lookup_ratio(data, tasks[i].ident()) is None,
    decreases tasks.len(),
{
    if i < tasks.len() - 1 {
        lemma_matched_part_empty(tasks.drop_last(), data, i);
    }
}

/// Carries a persisted ratio snapshot over to the current catalog.
///
/// Every catalog task with a persisted ratio keeps it, in catalog order.
/// Every catalog task without one is grafted on by [`halve_append`]: it
/// receives half of the then-last entry's ratio, and that entry is halved in
/// place. Fails exactly when a task must be grafted but no task matched at
/// all, so there is no entry to halve.
pub fn reconcile(data: &Vec<((String, String), u64)>, tasks: &Vec<Task>) -> (r: Result<Vec<(Task, u64)>, ()>)
    ensures
        r is Err <==> tasks@.len() > 0 && matched_part(tasks@, data@).len() == 0,
        r matches Ok(v) ==> v@ == reconcile_new(matched_part(tasks@, data@), tasks@, data@),
{
    let ghost matched: Seq<(Task, u64)> = matched_part(tasks@, data@);
    let n: usize = tasks.len();
    let mut out: Vec<(Task, u64)> = Vec::new();
    assert(out@ =~= matched_part(tasks@.take(0), data@));
    for i in 0..n
        invariant
            n == tasks@.len(),
            matched == matched_part(tasks@, data@),
            out@ == matched_part(tasks@.take(i as int), data@),
    {
        let task = &tasks[i];
        proof {
            assert(tasks@.take(i + 1).drop_last() =~= tasks@.take(i as int));
            assert(tasks@.take(i + 1).last() == tasks@[i as int]);
        }
        match find_ratio(data, &task.name, &task.group) {
            Some(r) => {
                out.push((task.clone(), r));
            },
            None => {},
        }
    }
    assert(tasks@.take(n as int) =~= tasks@);
    assert(out@ == matched);

    assert(tasks@.skip(0) =~= tasks@);
    for i in 0..n
        invariant
            n == tasks@.len(),
            matched == matched_part(tasks@, data@),
            reconcile_new(out@, tasks@.skip(i as int), data@) == reconcile_new(matched, tasks@, data@),
            matched.len() <= out@.len(),
            matched.len() == 0 ==> out@.len() == 0,
            matched.len() == 0 && n > 0 ==> i == 0,
    {
        let task = &tasks[i];
        proof {
            assert(tasks@.skip(i as int).drop_first() =~= tasks@.skip(i + 1));
            assert(tasks@.skip(i as int)[0] == tasks@[i as int]);
        }
        match find_ratio(data, &task.name, &task.group) {
            Some(_) => {
                proof {
                    if matched.len() == 0 && n > 0 {
                        lemma_matched_part_empty(tasks@, data@, i as int);
                    }
                }
            },
            None => {
                if out.len() == 0 {
                    return Err(());
                }
                let ghost old_out: Seq<(Task, u64)> = out@;
                let idx: usize = out.len() - 1;
                let prev: u64 = out[idx].1;
                let half: u64 = prev / 2;
                let kept = out[idx].0.clone();
                out.set(idx, (kept, half));
                out.push((task.clone(), half));
                proof {
                    assert(out@ =~= halve_append(old_out, tasks@[i as int]));
                }
            },
        }
    }
    assert(tasks@.skip(n as int) =~= Seq::<Task>::empty());
    Ok(out)
}

impl ExpectedRatioTasks {
    /// The durable form of the mapping: one `((name, group), ratio)` tuple
    /// per entry, in mapping order.
    pub fn to_snapshot(&self) -> (v: Vec<((String, String), u64)>)
        ensures
            v@.len() == self.0@.len(),
            forall|i: int|
                0 <= i < v@.len() ==> (#[trigger] v@[i]).0.0@ == self.0@[i].0.name@
                    && v@[i].0.1@ == self.0@[i].0.group@ && v@[i].1 == self.0@[i].1,
    {
        let n: usize = self.0.len();
        let mut v: Vec<((String, String), u64)> = Vec::new();
        for i in 0..n
            invariant
                n == self.0@.len(),
                v@.len() == i,
                forall|j: int|
                    0 <= j < i ==> (#[trigger] v@[j]).0.0@ == self.0@[j].0.name@
                        && v@[j].0.1@ == self.0@[j].0.group@ && v@[j].1 == self.0@[j].1,
        {
            let entry = &self.0[i];
            v.push(((entry.0.name.clone(), entry.0.group.clone()), entry.1));
        }
        v
    }

    /// Writes the mapping's snapshot to the given store.
    pub fn write<P: Storable<((String, String), u64)>>(&self, storage: &P) {
        let data = self.to_snapshot();
        storage.store(&data);
    }

    /// Loads a snapshot from the given store, reconciles it against the
    /// current catalog, and validates the ratio sum.
    ///
    /// What `get` returns is outside the library's control; [`reconcile`]
    /// states exactly what happens for each possible snapshot, and the
    /// result is accepted only when its ratios sum to the whole within
    /// tolerance.
    pub fn read<P: Storable<((String, String), u64)>>(storage: &P, tasks: Vec<Task>) -> (r: Result<Self, ()>)
        ensures
            r matches Ok(m) ==> ratio_sum_valid(m.0@),
    {
        let data = storage.get();
        match reconcile(&data, &tasks) {
            Ok(entries) => Self::new(entries),
            Err(()) => Err(()),
        }
    }
}

} // verus!
