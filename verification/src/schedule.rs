//! The scheduler: greedy ratio-balancing selection of the next task, break
//! injection, and multi-step planning.

use vstd::prelude::*;

use crate::breaks::{
    break_counters, break_step, insert_breaks, insert_breaks_model, lemma_counters_from_bounds,
    lemma_counters_from_concat, lemma_plan_total_nonneg, make_break_task, make_minibreak_task,
    minibreak_step, plan_model, plan_total, scan_records, step_model, PlanStep,
};
use crate::cost::{
    abs_diff, cand_combined, cand_lt, check_rest_group, cost_den, cost_lt, cost_num, eff_total,
    entries_contain, entry_ident, first_min_upto, hyp_record, ident_time, idents_of,
    is_real_record, is_rest_group, lemma_first_min_upto_in_range, lemma_ident_time_singleton,
    lemma_lookup_index, lemma_obs_cost_matches, lemma_obs_cost_num_bound,
    lemma_real_records_concat, lemma_real_records_singleton, lemma_real_records_total_le,
    lemma_sum_ratio_ge_each, lemma_time_bounds, lemma_total_time_concat, lemma_total_time_nonneg,
    lemma_total_time_singleton, lemma_total_time_take_le, lemma_with_mapping_idents_contains,
    obs_cost_num, observed_idents, real_records, total_time, with_mapping_idents, Cost, Ident,
    CATALOG_CAP, COST_DEN_CAP, COST_NUM_CAP, SECONDS_CAP,
};
use crate::ratio::{
    find_ratio, ratio_sum_valid, sum_ratio, ExpectedRatioTasks, RATIO_SCALE, RATIO_TOLERANCE,
};
use crate::task::{ScheduleTask, Task, TaskRecord};

verus! {

/// Upper bound, in minutes, on every configured interval length and
/// frequency: a machine limit that keeps second conversions and counter
/// sums exact.
pub const CONFIG_MINUTES_CAP: u64 = 1_000_000;

/// Lengths and frequencies of rest intervals, in minutes.
pub struct ScheduleConfiguration {
    /// Length of a break.
    pub breaktime: u64,
    /// A break is due once this much time has passed since the last break.
    pub break_frequency: u64,
    /// Length of a minibreak.
    pub minibreaktime: u64,
    /// A minibreak is due once this much time has passed since the last
    /// break or minibreak.
    pub minibreak_frequency: u64,
    /// Length of the transition interval the driving loop inserts between
    /// intervals; the planner itself never emits one.
    pub transitiontime: u64,
}

impl ScheduleConfiguration {
    /// Every configured length and frequency is within the machine limit.
    pub open spec fn wf(self) -> bool {
        self.breaktime <= CONFIG_MINUTES_CAP && self.break_frequency <= CONFIG_MINUTES_CAP
            && self.minibreaktime <= CONFIG_MINUTES_CAP && self.minibreak_frequency
            <= CONFIG_MINUTES_CAP && self.transitiontime <= CONFIG_MINUTES_CAP
    }
}

impl Clone for ScheduleConfiguration {
    fn clone(&self) -> (c: Self)
        ensures
            c == self,
    {
        ScheduleConfiguration {
            breaktime: self.breaktime,
            break_frequency: self.break_frequency,
            minibreaktime: self.minibreaktime,
            minibreak_frequency: self.minibreak_frequency,
            transitiontime: self.transitiontime,
        }
    }
}

impl Default for ScheduleConfiguration {
    /// A 45 minute break every 3 hours, a 10 minute minibreak every
    /// 45 minutes, 3 minute transitions.
    fn default() -> (c: Self)
        ensures
            c.breaktime == 45,
            c.break_frequency == 180,
            c.minibreaktime == 10,
            c.minibreak_frequency == 45,
            c.transitiontime == 3,
            c.wf(),
    {
        ScheduleConfiguration {
            breaktime: 45,
            break_frequency: 180,
            minibreaktime: 10,
            minibreak_frequency: 45,
            transitiontime: 3,
        }
    }
}

/// The planning engine: a target-ratio mapping, the history ledger it owns
/// for the session, and the rest-interval configuration.
pub struct Scheduler {
    pub task_history: Vec<TaskRecord>,
    pub config: ScheduleConfiguration,
    pub tasks: ExpectedRatioTasks,
}

impl Scheduler {
    pub fn new(
        tasks: ExpectedRatioTasks,
        task_history: Vec<TaskRecord>,
        config: ScheduleConfiguration,
    ) -> (s: Self)
        ensures
            s.tasks == tasks,
            s.task_history == task_history,
            s.config == config,
    {
        Scheduler { tasks, config, task_history }
    }

    /// Appends one completed interval to the history ledger; nothing else
    /// changes, and nothing already recorded moves.
    pub fn feed_record(&mut self, record: TaskRecord)
        ensures
            final(self).task_history@ == old(self).task_history@.push(record),
            final(self).config == old(self).config,
            final(self).tasks == old(self).tasks,
    {
        self.task_history.push(record);
    }

    /// A scheduler fit for planning: a validated mapping within the catalog
    /// size limit, and a configuration within the minute limit.
    pub open spec fn wf(self) -> bool {
        ratio_sum_valid(self.tasks.0@) && self.tasks.0@.len() <= CATALOG_CAP && self.config.wf()
    }
}

/// The ratio engine's output: for each reported identity, the seconds of the
/// combined history attributed to it. The observed fraction of an identity
/// is its seconds over `total`, taken as 0 when `total` is 0, so the value
/// is defined even for an empty history.
pub struct ObservedRatios {
    pub entries: Vec<((String, String), u64)>,
    /// Grand total elapsed seconds of the combined history.
    pub total: u64,
}

/// Appends the records of `src` that count toward ratios, in order.
fn push_real(dst: &mut Vec<TaskRecord>, src: &Vec<TaskRecord>)
    ensures
        final(dst)@ == old(dst)@ + real_records(src@),
{
    let n: usize = src.len();
    proof {
        assert(dst@ =~= dst@ + real_records(src@.take(0)));
    }
    for i in 0..n
        invariant
            n == src@.len(),
            dst@ == old(dst)@ + real_records(src@.take(i as int)),
    {
        proof {
            assert(src@.take(i + 1).drop_last() =~= src@.take(i as int));
            assert(src@.take(i + 1).last() == src@[i as int]);
        }
        let r = &src[i];
        if !check_rest_group(&r.origin_group) {
            dst.push(r.clone());
            proof {
                assert(dst@ =~= old(dst)@ + real_records(src@.take(i + 1)));
            }
        }
    }
    proof {
        assert(src@.take(n as int) =~= src@);
    }
}

/// Sums the elapsed seconds of all records.
fn sum_records_time(records: &Vec<TaskRecord>) -> (t: u64)
    requires
        total_time(records@) <= SECONDS_CAP,
    ensures
        t == total_time(records@),
{
    let n: usize = records.len();
    let mut acc: u64 = 0;
    proof {
        assert(records@.take(0) =~= Seq::<TaskRecord>::empty());
    }
    for i in 0..n
        invariant
            n == records@.len(),
            acc == total_time(records@.take(i as int)),
            total_time(records@) <= SECONDS_CAP,
    {
        proof {
            assert(records@.take(i + 1).drop_last() =~= records@.take(i as int));
            assert(records@.take(i + 1).last() == records@[i as int]);
            lemma_total_time_take_le(records@, i + 1);
        }
        acc = acc + records[i].time;
    }
    proof {
        assert(records@.take(n as int) =~= records@);
    }
    acc
}

/// Sums the elapsed seconds attributed to the identity `(name, group)`.
fn sum_ident_time(records: &Vec<TaskRecord>, name: &String, group: &String) -> (t: u64)
    requires
        total_time(records@) <= SECONDS_CAP,
    ensures
        t == ident_time(records@, (name@, group@)),
{
    let ghost id: Ident = (name@, group@);
    let n: usize = records.len();
    let mut acc: u64 = 0;
    proof {
        assert(records@.take(0) =~= Seq::<TaskRecord>::empty());
    }
    for i in 0..n
        invariant
            n == records@.len(),
            id == (name@, group@),
            acc == ident_time(records@.take(i as int), id),
            total_time(records@) <= SECONDS_CAP,
    {
        proof {
            assert(records@.take(i + 1).drop_last() =~= records@.take(i as int));
            assert(records@.take(i + 1).last() == records@[i as int]);
            lemma_time_bounds(records@.take(i + 1), id);
            lemma_total_time_take_le(records@, i + 1);
        }
        let r = &records[i];
        if r.origin_name == *name && r.origin_group == *group {
            acc = acc + r.time;
        }
    }
    proof {
        assert(records@.take(n as int) =~= records@);
    }
    acc
}

/// An identity list held as entries and one held as ghost identities agree
/// on membership when they agree pointwise.
proof fn lemma_contains_iff(entries: Seq<((String, String), u64)>, ids: Seq<Ident>, id: Ident)
    requires
        ids.len() == entries.len(),
        forall|k: int| 0 <= k < ids.len() ==> entry_ident(#[trigger] entries[k]) == ids[k],
    ensures
        entries_contain(entries, id) == ids.contains(id),
{
    if entries_contain(entries, id) {
        let k = choose|k: int| 0 <= k < entries.len() && entry_ident(#[trigger] entries[k]) == id;
        assert(ids[k] == id);
    }
    if ids.contains(id) {
        let k = choose|k: int| 0 <= k < ids.len() && ids[k] == id;
        assert(entry_ident(entries[k]) == id);
    }
}

/// Whether some entry already reports on the identity `(name, group)`.
fn contains_ident(entries: &Vec<((String, String), u64)>, name: &String, group: &String) -> (b:
    bool)
    ensures
        b == entries_contain(entries@, (name@, group@)),
{
    let ghost id: Ident = (name@, group@);
    let n: usize = entries.len();
    for k in 0..n
        invariant
            n == entries@.len(),
            id == (name@, group@),
            forall|j: int| 0 <= j < k ==> entry_ident(#[trigger] entries@[j]) != id,
    {
        let e = &entries[k];
        if e.0.0 == *name && e.0.1 == *group {
            proof {
                assert(entry_ident(entries@[k as int]) == id);
            }
            return true;
        }
    }
    proof {
        if entries_contain(entries@, id) {
            let k = choose|k: int|
                0 <= k < entries@.len() && entry_ident(#[trigger] entries@[k]) == id;
            assert(false);
        }
    }
    false
}

impl Scheduler {
    /// The ratio engine: observed seconds per identity over the combined
    /// history, which is the real part of the ledger followed by
    /// `future_factor` (hypothetical or virtual intervals), with rest
    /// intervals excluded throughout.
    ///
    /// Every identity of the combined history and of the target mapping is
    /// reported, in order of first occurrence (history first, then mapping);
    /// when the combined history is empty every identity reports 0.
    pub fn compute_history_ratio_tasks(&self, future_factor: &Vec<TaskRecord>) -> (obs:
        ObservedRatios)
        requires
            total_time(self.task_history@) + total_time(future_factor@) <= SECONDS_CAP,
        ensures
            ({
                let combined = real_records(self.task_history@ + future_factor@);
                let ids = observed_idents(self.tasks.0@, combined);
                &&& obs.total == total_time(combined)
                &&& obs.entries@.len() == ids.len()
                &&& forall|k: int|
                    0 <= k < ids.len() ==> entry_ident(#[trigger] obs.entries@[k]) == ids[k]
                &&& forall|k: int|
                    0 <= k < ids.len() ==> (#[trigger] obs.entries@[k]).1 == ident_time(
                        combined,
                        ids[k],
                    )
                &&& obs.total == 0 ==> forall|k: int|
                    0 <= k < obs.entries@.len() ==> (#[trigger] obs.entries@[k]).1 == 0
            }),
    {
        let ghost whole: Seq<TaskRecord> = self.task_history@ + future_factor@;
        let mut combined: Vec<TaskRecord> = Vec::new();
        push_real(&mut combined, &self.task_history);
        push_real(&mut combined, future_factor);
        proof {
            lemma_real_records_concat(self.task_history@, future_factor@);
            assert(combined@ =~= real_records(whole));
            lemma_total_time_concat(self.task_history@, future_factor@);
            lemma_real_records_total_le(whole);
        }
        let ghost c: Seq<TaskRecord> = combined@;
        let ghost m: Seq<(Task, u64)> = self.tasks.0@;

        let total: u64 = sum_records_time(&combined);

        let mut entries: Vec<((String, String), u64)> = Vec::new();
        let nc: usize = combined.len();
        proof {
            assert(c.take(0) =~= Seq::<TaskRecord>::empty());
        }
        for i in 0..nc
            invariant
                nc == c.len(),
                c == combined@,
                entries@.len() == idents_of(c.take(i as int)).len(),
                forall|k: int|
                    0 <= k < entries@.len() ==> entry_ident(#[trigger] entries@[k]) == idents_of(
                        c.take(i as int),
                    )[k],
                forall|k: int| 0 <= k < entries@.len() ==> (#[trigger] entries@[k]).1 == 0,
        {
            proof {
                assert(c.take(i + 1).drop_last() =~= c.take(i as int));
                assert(c.take(i + 1).last() == c[i as int]);
                lemma_contains_iff(entries@, idents_of(c.take(i as int)), c[i as int].ident());
            }
            let r = &combined[i];
            if !contains_ident(&entries, &r.origin_name, &r.origin_group) {
                entries.push(((r.origin_name.clone(), r.origin_group.clone()), 0));
            }
        }
        proof {
            assert(c.take(nc as int) =~= c);
        }

        let nm: usize = self.tasks.0.len();
        proof {
            assert(m.take(0) =~= Seq::<(Task, u64)>::empty());
        }
        for i in 0..nm
            invariant
                nm == m.len(),
                m == self.tasks.0@,
                c == combined@,
                entries@.len() == with_mapping_idents(idents_of(c), m.take(i as int)).len(),
                forall|k: int|
                    0 <= k < entries@.len() ==> entry_ident(#[trigger] entries@[k])
                        == with_mapping_idents(idents_of(c), m.take(i as int))[k],
                forall|k: int| 0 <= k < entries@.len() ==> (#[trigger] entries@[k]).1 == 0,
        {
            proof {
                assert(m.take(i + 1).drop_last() =~= m.take(i as int));
                assert(m.take(i + 1).last() == m[i as int]);
                lemma_contains_iff(
                    entries@,
                    with_mapping_idents(idents_of(c), m.take(i as int)),
                    m[i as int].0.ident(),
                );
            }
            let t = &self.tasks.0[i];
            if !contains_ident(&entries, &t.0.name, &t.0.group) {
                entries.push(((t.0.name.clone(), t.0.group.clone()), 0));
            }
        }
        proof {
            assert(m.take(nm as int) =~= m);
        }
        let ghost ids: Seq<Ident> = observed_idents(m, c);

        let ne: usize = entries.len();
        for k in 0..ne
            invariant
                ne == entries@.len(),
                c == combined@,
                total_time(c) <= SECONDS_CAP,
                ids.len() == entries@.len(),
                forall|j: int|
                    0 <= j < entries@.len() ==> entry_ident(#[trigger] entries@[j]) == ids[j],
                forall|j: int|
                    0 <= j < k ==> (#[trigger] entries@[j]).1 == ident_time(
                        c,
                        entry_ident(entries@[j]),
                    ),
        {
            let nm2 = entries[k].0.0.clone();
            let gp2 = entries[k].0.1.clone();
            let s = sum_ident_time(&combined, &nm2, &gp2);
            entries.set(k, ((nm2, gp2), s));
        }

        proof {
            assert forall|k: int| 0 <= k < entries@.len() && total == 0 implies (
            #[trigger] entries@[k]).1 == 0 by {
                lemma_time_bounds(c, entry_ident(entries@[k]));
            }
        }
        ObservedRatios { entries, total }
    }

    /// The L1 divergence between the target ratios and the observed shares,
    /// as an exact rational: for each mapping entry with an observed entry,
    /// the absolute difference of target and observed share is accumulated;
    /// an identity with no observed entry contributes nothing.
    pub fn compute_cost(&self, observed: &ObservedRatios) -> (c: Cost)
        requires
            self.wf(),
            observed.total <= SECONDS_CAP,
            forall|k: int|
                0 <= k < observed.entries@.len() ==> (#[trigger] observed.entries@[k]).1 <= (
                if observed.total == 0 {
                    0u64
                } else {
                    observed.total
                }),
        ensures
            c.num == obs_cost_num(self.tasks.0@, observed.entries@, observed.total as int),
            c.den == RATIO_SCALE * (if observed.total == 0 {
                1int
            } else {
                observed.total as int
            }),
            c.wf(),
    {
        let ghost m: Seq<(Task, u64)> = self.tasks.0@;
        let ghost entries: Seq<((String, String), u64)> = observed.entries@;
        let ghost total: int = observed.total as int;
        proof {
            assert forall|i: int| 0 <= i < m.len() implies (#[trigger] m[i]).1 <= RATIO_SCALE
                + RATIO_TOLERANCE by {
                lemma_sum_ratio_ge_each(m, i);
            }
        }
        let t_eff: u64 = if observed.total == 0 {
            1
        } else {
            observed.total
        };
        let ghost teff: int = t_eff as int;
        let mut num: u128 = 0;
        let n: usize = self.tasks.0.len();
        proof {
            assert(m.take(0) =~= Seq::<(Task, u64)>::empty());
            lemma_obs_cost_num_bound(m.take(0), entries, total);
        }
        for i in 0..n
            invariant
                n == m.len(),
                m == self.tasks.0@,
                entries == observed.entries@,
                total == observed.total as int,
                teff == if total == 0 {
                    1int
                } else {
                    total
                },
                t_eff as int == teff,
                1 <= teff <= SECONDS_CAP,
                m.len() <= CATALOG_CAP,
                forall|i2: int| 0 <= i2 < m.len() ==> (#[trigger] m[i2]).1 <= RATIO_SCALE + RATIO_TOLERANCE,
                forall|k: int|
                    0 <= k < entries.len() ==> (#[trigger] entries[k]).1 <= (if total == 0 {
                        0int
                    } else {
                        total
                    }),
                num == obs_cost_num(m.take(i as int), entries, total),
                num <= COST_NUM_CAP,
        {
            proof {
                assert(m.take(i + 1).drop_last() =~= m.take(i as int));
                assert(m.take(i + 1).last() == m[i as int]);
            }
            let entry = &self.tasks.0[i];
            let found = find_ratio(&observed.entries, &entry.0.name, &entry.0.group);
            match found {
                Some(s) => {
                    proof {
                        let k = lemma_lookup_index(entries, m[i as int].0.ident());
                        assert(s == entries[k].1);
                        assert((m[i as int].1 as int) * teff <= COST_NUM_CAP && (s as int) * (
                        RATIO_SCALE as int) <= COST_NUM_CAP) by (nonlinear_arith)
                            requires
                                0 <= m[i as int].1 <= RATIO_SCALE + RATIO_TOLERANCE,
                                0 <= s <= teff,
                                1 <= teff <= SECONDS_CAP,
                        ;
                        lemma_obs_cost_num_bound(m.take(i + 1), entries, total);
                        assert((i + 1) * ((RATIO_SCALE + RATIO_TOLERANCE) * teff)
                            <= COST_NUM_CAP) by (nonlinear_arith)
                            requires
                                0 <= i + 1 <= CATALOG_CAP,
                                1 <= teff <= SECONDS_CAP,
                        ;
                    }
                    let a: u128 = (entry.1 as u128) * (t_eff as u128);
                    let b: u128 = (s as u128) * (RATIO_SCALE as u128);
                    let term: u128 = if a >= b {
                        a - b
                    } else {
                        b - a
                    };
                    num = num + term;
                },
                None => {},
            }
        }
        proof {
            assert(m.take(n as int) =~= m);
        }
        let den: u128 = (RATIO_SCALE as u128) * (t_eff as u128);
        proof {
            assert(den <= COST_DEN_CAP && 1 <= den) by (nonlinear_arith)
                requires
                    den == (RATIO_SCALE as int) * teff,
                    1 <= teff <= SECONDS_CAP,
            ;
        }
        Cost { num, den }
    }

    /// Consults the break policy over the ledger followed by the virtual
    /// tail: a break is emitted when `break_frequency` minutes have elapsed
    /// since the last break, else a minibreak when `minibreak_frequency`
    /// minutes have elapsed since the last break or minibreak, else nothing.
    pub fn compute_break(&self, virtual_history: &Vec<TaskRecord>) -> (r: Option<ScheduleTask>)
        requires
            self.config.wf(),
            total_time(self.task_history@) + total_time(virtual_history@) <= SECONDS_CAP,
        ensures
            ({
                let c = break_counters(self.task_history@ + virtual_history@);
                let f = self.config.break_frequency * 60;
                let mf = self.config.minibreak_frequency * 60;
                &&& c.0 >= f ==> (r matches Some(t) && step_model(t) == break_step(self.config))
                &&& c.0 < f && c.1 >= mf ==> (r matches Some(t) && step_model(t)
                    == minibreak_step(self.config))
                &&& c.0 < f && c.1 < mf ==> r is None
            }),
    {
        proof {
            lemma_total_time_nonneg(self.task_history@);
            lemma_total_time_nonneg(virtual_history@);
            lemma_counters_from_bounds(0, 0, self.task_history@);
        }
        let (b0, mb0) = scan_records(&self.task_history, 0, 0);
        let (b, mb) = scan_records(virtual_history, b0, mb0);
        proof {
            lemma_counters_from_concat(0, 0, self.task_history@, virtual_history@);
        }
        if b >= self.config.break_frequency * 60 {
            Some(make_break_task(&self.config))
        } else if mb >= self.config.minibreak_frequency * 60 {
            Some(make_minibreak_task(&self.config))
        } else {
            None
        }
    }
}

/// The model of picking a catalog task: its identity and planned duration.
pub open spec fn pick_model(t: Task) -> PlanStep {
    (t.name@, t.group@, t.config.time as int)
}

/// The model of the planner's result.
pub open spec fn opt_model(r: Option<ScheduleTask>) -> Option<PlanStep> {
    match r {
        Some(t) => Some(step_model(t)),
        None => None,
    }
}

/// Largest planned duration in the mapping.
pub open spec fn max_planned(m: Seq<(Task, u64)>) -> int
    decreases m.len(),
{
    if m.len() == 0 {
        0
    } else {
        let p = max_planned(m.drop_last());
        if m.last().0.config.time > p {
            m.last().0.config.time as int
        } else {
            p
        }
    }
}

pub proof fn lemma_max_planned_nonneg(m: Seq<(Task, u64)>)
    ensures
        max_planned(m) >= 0,
    decreases m.len(),
{
    if m.len() > 0 {
        lemma_max_planned_nonneg(m.drop_last());
    }
}

pub proof fn lemma_max_planned_ge(m: Seq<(Task, u64)>, i: int)
    requires
        0 <= i < m.len(),
    ensures
        m[i].0.config.time <= max_planned(m),
    decreases m.len(),
{
    if i < m.len() - 1 {
        lemma_max_planned_ge(m.drop_last(), i);
    }
}

/// Greedy selection, without the break pre-check: the first candidate of
/// minimal cost, or nothing when the mapping is empty.
pub open spec fn select_model(
    m: Seq<(Task, u64)>,
    base: Seq<TaskRecord>,
    v: Seq<TaskRecord>,
) -> Option<PlanStep> {
    if m.len() == 0 {
        None
    } else {
        Some(pick_model(m[first_min_upto(m, base, v, m.len() as int)].0))
    }
}

/// One single-step selection: the break policy is consulted first; when no
/// rest interval is due, the greedy selection runs; an empty mapping means
/// no further task can be planned.
pub open spec fn next_pick_model(
    m: Seq<(Task, u64)>,
    cfg: ScheduleConfiguration,
    base: Seq<TaskRecord>,
    v: Seq<TaskRecord>,
) -> Option<PlanStep> {
    let c = break_counters(base + v);
    if c.0 >= cfg.break_frequency * 60 {
        Some(break_step(cfg))
    } else if c.1 >= cfg.minibreak_frequency * 60 {
        Some(minibreak_step(cfg))
    } else {
        select_model(m, base, v)
    }
}

impl Scheduler {
    /// The exact cost of hypothetically picking mapping entry `i` next.
    fn candidate_cost(&self, virtual_history: &Vec<TaskRecord>, i: usize) -> (c: Cost)
        requires
            self.wf(),
            i < self.tasks.0@.len(),
            total_time(self.task_history@) + total_time(virtual_history@) + max_planned(
                self.tasks.0@,
            ) <= SECONDS_CAP,
        ensures
            c.num == cost_num(
                self.tasks.0@,
                cand_combined(self.task_history@, virtual_history@, self.tasks.0@[i as int].0),
            ),
            c.den == cost_den(
                cand_combined(self.task_history@, virtual_history@, self.tasks.0@[i as int].0),
            ),
            c.wf(),
    {
        let ghost m: Seq<(Task, u64)> = self.tasks.0@;
        let ghost base: Seq<TaskRecord> = self.task_history@;
        let ghost v: Seq<TaskRecord> = virtual_history@;
        let task = &self.tasks.0[i].0;
        let cand = TaskRecord {
            origin_name: task.name.clone(),
            origin_group: task.group.clone(),
            time: task.config.time,
        };
        proof {
            assert(cand == hyp_record(m[i as int].0));
        }
        let mut ff: Vec<TaskRecord> = Vec::new();
        ff.push(cand);
        proof {
            assert(ff@ =~= seq![hyp_record(m[i as int].0)] + v.take(0));
        }
        let nv: usize = virtual_history.len();
        for j in 0..nv
            invariant
                nv == v.len(),
                v == virtual_history@,
                m == self.tasks.0@,
                i < m.len(),
                ff@ == seq![hyp_record(m[i as int].0)] + v.take(j as int),
        {
            ff.push(virtual_history[j].clone());
            proof {
                assert(ff@ =~= seq![hyp_record(m[i as int].0)] + v.take(j + 1));
            }
        }
        proof {
            assert(v.take(nv as int) =~= v);
            let single: Seq<TaskRecord> = seq![hyp_record(m[i as int].0)];
            assert(ff@ == single + v);
            lemma_total_time_singleton(hyp_record(m[i as int].0));
            assert(total_time(single) == m[i as int].0.config.time);
            lemma_total_time_concat(single, v);
            lemma_max_planned_ge(m, i as int);
            lemma_total_time_nonneg(v);
            lemma_total_time_concat(base, ff@);
            lemma_real_records_total_le(base + ff@);
            assert(base + ff@ =~= base + single + v);
        }
        let obs = self.compute_history_ratio_tasks(&ff);
        let ghost combined: Seq<TaskRecord> = cand_combined(base, v, m[i as int].0);
        let ghost ids: Seq<Ident> = observed_idents(m, combined);
        proof {
            assert(combined == real_records(base + ff@));
            assert forall|k: int| 0 <= k < obs.entries@.len() implies (
            #[trigger] obs.entries@[k]).1 <= (if obs.total == 0 {
                0u64
            } else {
                obs.total
            }) by {
                lemma_time_bounds(combined, entry_ident(obs.entries@[k]));
            }
        }
        let c = self.compute_cost(&obs);
        proof {
            lemma_with_mapping_idents_contains(idents_of(combined), m);
            assert forall|i2: int| 0 <= i2 < m.len() implies entries_contain(
                obs.entries@,
                (#[trigger] m[i2]).0.ident(),
            ) by {
                assert(ids.contains(m[i2].0.ident()));
                let j = choose|j: int| 0 <= j < ids.len() && ids[j] == m[i2].0.ident();
                assert(entry_ident(obs.entries@[j]) == m[i2].0.ident());
            }
            lemma_obs_cost_matches(m, combined, obs.entries@);
        }
        c
    }

    /// Greedy single-step selection: for each mapping entry in order, the
    /// cost of hypothetically picking it next is evaluated over the combined
    /// history, and the first entry of minimal cost wins (a later entry
    /// replaces the running best only when strictly cheaper). Returns
    /// nothing exactly when the mapping is empty.
    fn select_candidate(&self, virtual_history: &Vec<TaskRecord>) -> (r: Option<ScheduleTask>)
        requires
            self.wf(),
            total_time(self.task_history@) + total_time(virtual_history@) + max_planned(
                self.tasks.0@,
            ) <= SECONDS_CAP,
        ensures
            opt_model(r) == select_model(self.tasks.0@, self.task_history@, virtual_history@),
    {
        let ghost m: Seq<(Task, u64)> = self.tasks.0@;
        let ghost base: Seq<TaskRecord> = self.task_history@;
        let ghost v: Seq<TaskRecord> = virtual_history@;
        let n: usize = self.tasks.0.len();
        if n == 0 {
            return None;
        }
        let mut best: usize = 0;
        let mut best_cost: Cost = self.candidate_cost(virtual_history, 0);
        for i in 1..n
            invariant
                n == m.len(),
                n >= 1,
                m == self.tasks.0@,
                base == self.task_history@,
                v == virtual_history@,
                self.wf(),
                total_time(base) + total_time(v) + max_planned(m) <= SECONDS_CAP,
                0 <= best < i,
                best as int == first_min_upto(m, base, v, i as int),
                best_cost.num == cost_num(m, cand_combined(base, v, m[best as int].0)),
                best_cost.den == cost_den(cand_combined(base, v, m[best as int].0)),
                best_cost.wf(),
        {
            let c = self.candidate_cost(virtual_history, i);
            if cost_lt(&c, &best_cost) {
                best = i;
                best_cost = c;
            }
        }
        let picked = &self.tasks.0[best].0;
        let r = ScheduleTask {
            origin_name: picked.name.clone(),
            origin_group: picked.group.clone(),
            time: picked.config.time,
        };
        proof {
            assert(step_model(r) == pick_model(m[best as int].0));
        }
        Some(r)
    }

    /// Single-step planning: the break policy is consulted first; when no
    /// rest interval is due, the greedy selection picks the next task; an
    /// empty mapping means no further task can be planned (a terminal
    /// condition, not an error).
    pub fn compute_task(&self, virtual_history: &Vec<TaskRecord>) -> (r: Option<ScheduleTask>)
        requires
            self.wf(),
            total_time(self.task_history@) + total_time(virtual_history@) + max_planned(
                self.tasks.0@,
            ) <= SECONDS_CAP,
        ensures
            opt_model(r) == next_pick_model(
                self.tasks.0@,
                self.config,
                self.task_history@,
                virtual_history@,
            ),
    {
        proof {
            lemma_max_planned_nonneg(self.tasks.0@);
        }
        match self.compute_break(virtual_history) {
            Some(t) => Some(t),
            None => self.select_candidate(virtual_history),
        }
    }
}

/// How many mapping entries carry the identity `id`.
spec fn matched_count(m: Seq<(Task, u64)>, id: Ident) -> int
    decreases m.len(),
{
    if m.len() == 0 {
        0
    } else {
        matched_count(m.drop_last(), id) + if m.last().0.ident() == id {
            1int
        } else {
            0int
        }
    }
}

/// Sum of the ratios of the mapping entries carrying the identity `id`.
spec fn matched_sum(m: Seq<(Task, u64)>, id: Ident) -> int
    decreases m.len(),
{
    if m.len() == 0 {
        0
    } else {
        matched_sum(m.drop_last(), id) + if m.last().0.ident() == id {
            m.last().1 as int
        } else {
            0int
        }
    }
}

proof fn lemma_matched_none(m: Seq<(Task, u64)>, id: Ident)
    requires
        forall|j: int| 0 <= j < m.len() ==> (#[trigger] m[j]).0.ident() != id,
    ensures
        matched_count(m, id) == 0,
        matched_sum(m, id) == 0,
    decreases m.len(),
{
    if m.len() > 0 {
        assert forall|j: int| 0 <= j < m.drop_last().len() implies (
        #[trigger] m.drop_last()[j]).0.ident() != id by {
            assert(m.drop_last()[j] == m[j]);
        }
        lemma_matched_none(m.drop_last(), id);
    }
}

proof fn lemma_matched_unique(m: Seq<(Task, u64)>, i: int)
    requires
        forall|i2: int, j2: int|
            0 <= i2 < j2 < m.len() ==> (#[trigger] m[i2]).0.ident() != (#[trigger] m[j2]).0.ident(),
        0 <= i < m.len(),
    ensures
        matched_count(m, m[i].0.ident()) == 1,
        matched_sum(m, m[i].0.ident()) == m[i].1,
    decreases m.len(),
{
    let id = m[i].0.ident();
    if i == m.len() - 1 {
        assert forall|j: int| 0 <= j < m.drop_last().len() implies (
        #[trigger] m.drop_last()[j]).0.ident() != id by {
            assert(m.drop_last()[j] == m[j]);
        }
        lemma_matched_none(m.drop_last(), id);
    } else {
        assert forall|i2: int, j2: int| 0 <= i2 < j2 < m.drop_last().len() implies (
        #[trigger] m.drop_last()[i2]).0.ident() != (#[trigger] m.drop_last()[j2]).0.ident() by {
            assert(m.drop_last()[i2] == m[i2] && m.drop_last()[j2] == m[j2]);
        }
        lemma_matched_unique(m.drop_last(), i);
        assert(m.drop_last()[i] == m[i]);
        assert(m.last().0.ident() != id);
    }
}

/// Closed form of the cost against a one-record history: each matched entry
/// contributes `(RATIO_SCALE - ratio) * time`, each other entry
/// `ratio * time`.
proof fn lemma_cost_num_single(m: Seq<(Task, u64)>, rec: TaskRecord)
    requires
        rec.time > 0,
        forall|i: int| 0 <= i < m.len() ==> (#[trigger] m[i]).1 <= RATIO_SCALE,
    ensures
        cost_num(m, seq![rec]) == (rec.time as int) * (sum_ratio(m) + RATIO_SCALE
            * matched_count(m, rec.ident()) - 2 * matched_sum(m, rec.ident())),
    decreases m.len(),
{
    let h: Seq<TaskRecord> = seq![rec];
    let t: int = rec.time as int;
    let id = rec.ident();
    lemma_total_time_singleton(rec);
    assert(eff_total(h) == t);
    if m.len() == 0 {
        assert(t * (0 + RATIO_SCALE * 0 - 2 * 0) == 0) by (nonlinear_arith);
    } else {
        assert forall|i: int| 0 <= i < m.drop_last().len() implies (#[trigger] m.drop_last()[i]).1
            <= RATIO_SCALE by {
            assert(m.drop_last()[i] == m[i]);
        }
        lemma_cost_num_single(m.drop_last(), rec);
        lemma_ident_time_singleton(rec, m.last().0.ident());
        let r: int = m.last().1 as int;
        let prev: int = cost_num(m.drop_last(), h);
        let s0: int = sum_ratio(m.drop_last());
        let c0: int = matched_count(m.drop_last(), id);
        let u0: int = matched_sum(m.drop_last(), id);
        if m.last().0.ident() == id {
            assert(r * t <= RATIO_SCALE * t && 0 <= r * t) by (nonlinear_arith)
                requires
                    0 <= r <= RATIO_SCALE,
                    t > 0,
            ;
            assert(cost_num(m, h) == prev + (RATIO_SCALE * t - r * t));
            assert(prev + (RATIO_SCALE * t - r * t) == t * ((s0 + r) + RATIO_SCALE * (c0 + 1) - 2
                * (u0 + r))) by (nonlinear_arith)
                requires
                    prev == t * (s0 + RATIO_SCALE * c0 - 2 * u0),
            ;
        } else {
            assert(abs_diff(r * t, 0 * RATIO_SCALE) == r * t && 0 <= r * t)
                by (nonlinear_arith)
                requires
                    0 <= r,
                    t > 0,
            ;
            assert(cost_num(m, h) == prev + r * t);
            assert(prev + r * t == t * ((s0 + r) + RATIO_SCALE * c0 - 2 * u0)) by (nonlinear_arith)
                requires
                    prev == t * (s0 + RATIO_SCALE * c0 - 2 * u0),
            ;
        }
    }
}

proof fn lemma_first_min_zero_on_empty(m: Seq<(Task, u64)>, n: int)
    requires
        forall|i2: int, j2: int|
            0 <= i2 < j2 < m.len() ==> (#[trigger] m[i2]).0.ident() != (#[trigger] m[j2]).0.ident(),
        forall|i: int| 0 <= i < m.len() ==> !is_rest_group((#[trigger] m[i]).0.group@),
        forall|i: int| 0 <= i < m.len() ==> (#[trigger] m[i]).0.config.time > 0,
        forall|i: int| 0 <= i < m.len() ==> (#[trigger] m[i]).1 <= RATIO_SCALE,
        forall|i: int| 0 <= i < m.len() ==> (#[trigger] m[i]).1 <= m[0].1,
        1 <= n <= m.len(),
    ensures
        first_min_upto(m, Seq::empty(), Seq::empty(), n) == 0,
    decreases n,
{
    let e: Seq<TaskRecord> = Seq::empty();
    if n > 1 {
        lemma_first_min_zero_on_empty(m, n - 1);
        let i: int = n - 1;
        let hyp_i = hyp_record(m[i].0);
        let hyp_0 = hyp_record(m[0].0);
        assert(e + seq![hyp_i] + e =~= seq![hyp_i]);
        assert(e + seq![hyp_0] + e =~= seq![hyp_0]);
        assert(is_real_record(hyp_i));
        assert(is_real_record(hyp_0));
        lemma_real_records_singleton(hyp_i);
        lemma_real_records_singleton(hyp_0);
        assert(cand_combined(e, e, m[i].0) == seq![hyp_i]);
        assert(cand_combined(e, e, m[0].0) == seq![hyp_0]);
        let ti: int = m[i].0.config.time as int;
        let t0: int = m[0].0.config.time as int;
        assert(hyp_i.ident() == m[i].0.ident());
        assert(hyp_0.ident() == m[0].0.ident());
        lemma_cost_num_single(m, hyp_i);
        lemma_cost_num_single(m, hyp_0);
        lemma_matched_unique(m, i);
        lemma_matched_unique(m, 0);
        lemma_total_time_singleton(hyp_i);
        lemma_total_time_singleton(hyp_0);
        let s: int = sum_ratio(m);
        let xi: int = s + RATIO_SCALE - 2 * m[i].1;
        let x0: int = s + RATIO_SCALE - 2 * m[0].1;
        lemma_sum_ratio_ge_each(m, 0);
        assert(x0 >= 0);
        assert(xi >= x0);
        assert(cost_num(m, seq![hyp_i]) == ti * xi);
        assert(cost_num(m, seq![hyp_0]) == t0 * x0);
        assert(cost_den(seq![hyp_i]) == RATIO_SCALE * ti);
        assert(cost_den(seq![hyp_0]) == RATIO_SCALE * t0);
        assert((ti * xi) * (RATIO_SCALE * t0) >= (t0 * x0) * (RATIO_SCALE * ti))
            by (nonlinear_arith)
            requires
                xi >= x0 >= 0,
                ti >= 1,
                t0 >= 1,
        ;
        assert(!cand_lt(m, e, e, i, 0));
    }
}

/// Against a combined history of zero total time, the cost of any mapping
/// is the sum of its target ratios: every observed share is 0, never an
/// undefined division.
proof fn lemma_cost_num_zero_time(m: Seq<(Task, u64)>, h: Seq<TaskRecord>)
    requires
        total_time(h) == 0,
    ensures
        cost_num(m, h) == sum_ratio(m),
    decreases m.len(),
{
    if m.len() > 0 {
        lemma_cost_num_zero_time(m.drop_last(), h);
        lemma_time_bounds(h, m.last().0.ident());
    }
}

/// With zero total elapsed time every candidate yields an identical cost —
/// the sum of all target ratios — so the first mapping entry is always
/// selected: here for planned durations of zero, where even the hypothetical
/// pick adds no time.
pub proof fn lemma_zero_time_tie_selects_first(m: Seq<(Task, u64)>, cfg: ScheduleConfiguration)
    requires
        m.len() > 0,
        cfg.break_frequency >= 1,
        cfg.minibreak_frequency >= 1,
        forall|i: int| 0 <= i < m.len() ==> (#[trigger] m[i]).0.config.time == 0,
    ensures
        next_pick_model(m, cfg, Seq::empty(), Seq::empty()) == Some(pick_model(m[0].0)),
{
    let e: Seq<TaskRecord> = Seq::empty();
    assert(e + e =~= e);
    assert(break_counters(e) == (0int, 0int));
    assert forall|i: int| 1 <= i <= m.len() implies first_min_upto(m, e, e, i) == 0 by {
        lemma_first_min_zero_all_tied(m, i);
    }
}

proof fn lemma_first_min_zero_all_tied(m: Seq<(Task, u64)>, n: int)
    requires
        forall|i: int| 0 <= i < m.len() ==> (#[trigger] m[i]).0.config.time == 0,
        1 <= n <= m.len(),
    ensures
        first_min_upto(m, Seq::empty(), Seq::empty(), n) == 0,
    decreases n,
{
    let e: Seq<TaskRecord> = Seq::empty();
    if n > 1 {
        lemma_first_min_zero_all_tied(m, n - 1);
        let i: int = n - 1;
        assert(e + seq![hyp_record(m[i].0)] + e =~= seq![hyp_record(m[i].0)]);
        assert(e + seq![hyp_record(m[0].0)] + e =~= seq![hyp_record(m[0].0)]);
        lemma_real_records_total_le(seq![hyp_record(m[i].0)]);
        lemma_real_records_total_le(seq![hyp_record(m[0].0)]);
        lemma_total_time_singleton(hyp_record(m[i].0));
        lemma_total_time_singleton(hyp_record(m[0].0));
        lemma_cost_num_zero_time(m, cand_combined(e, e, m[i].0));
        lemma_cost_num_zero_time(m, cand_combined(e, e, m[0].0));
        assert(!cand_lt(m, e, e, i, 0));
    }
}

/// Zero-information ties go to mapping order: with an empty ledger and no
/// virtual tail, single-step selection returns the first mapping entry,
/// whenever the entries' identities are distinct and none is a rest
/// interval, every planned duration is positive, every ratio is at most the
/// whole, the first entry's ratio is maximal among them, and the rest
/// frequencies are positive (so no rest interval is due up front).
pub proof fn lemma_empty_history_selects_first(m: Seq<(Task, u64)>, cfg: ScheduleConfiguration)
    requires
        m.len() > 0,
        cfg.break_frequency >= 1,
        cfg.minibreak_frequency >= 1,
        forall|i2: int, j2: int|
            0 <= i2 < j2 < m.len() ==> (#[trigger] m[i2]).0.ident() != (#[trigger] m[j2]).0.ident(),
        forall|i: int| 0 <= i < m.len() ==> !is_rest_group((#[trigger] m[i]).0.group@),
        forall|i: int| 0 <= i < m.len() ==> (#[trigger] m[i]).0.config.time > 0,
        forall|i: int| 0 <= i < m.len() ==> (#[trigger] m[i]).1 <= RATIO_SCALE,
        forall|i: int| 0 <= i < m.len() ==> (#[trigger] m[i]).1 <= m[0].1,
    ensures
        next_pick_model(m, cfg, Seq::empty(), Seq::empty()) == Some(pick_model(m[0].0)),
{
    let e: Seq<TaskRecord> = Seq::empty();
    assert(e + e =~= e);
    assert(break_counters(e) == (0int, 0int));
    lemma_first_min_zero_on_empty(m, m.len() as int);
}

/// The record a planned interval turns into when it is fed back as virtual
/// history during lookahead.
pub open spec fn record_model(t: ScheduleTask) -> TaskRecord {
    TaskRecord { origin_name: t.origin_name, origin_group: t.origin_group, time: t.time }
}

/// The virtual records of a whole plan.
pub open spec fn plan_records(p: Seq<ScheduleTask>) -> Seq<TaskRecord> {
    p.map_values(|t: ScheduleTask| record_model(t))
}

/// Every element of a count-bounded plan is exactly what single-step
/// selection picks once all earlier elements are fed back as virtual
/// history.
pub open spec fn plan_follows(
    m: Seq<(Task, u64)>,
    cfg: ScheduleConfiguration,
    base: Seq<TaskRecord>,
    v: Seq<TaskRecord>,
    p: Seq<ScheduleTask>,
) -> bool {
    forall|k: int|
        0 <= k < p.len() ==> next_pick_model(m, cfg, base, v + plan_records(#[trigger] p.take(k)))
            == Some(step_model(p[k]))
}

/// Upper bound on the duration of any interval a single-step selection can
/// emit: the longest planned task, break, or minibreak.
pub open spec fn pick_bound(m: Seq<(Task, u64)>, cfg: ScheduleConfiguration) -> int {
    let bt: int = cfg.breaktime * 60;
    let mt: int = cfg.minibreaktime * 60;
    let mp = max_planned(m);
    if mp >= bt && mp >= mt {
        mp
    } else if bt >= mt {
        bt
    } else {
        mt
    }
}

pub proof fn lemma_select_time_bound(m: Seq<(Task, u64)>, base: Seq<TaskRecord>, v: Seq<
    TaskRecord,
>)
    ensures
        select_model(m, base, v) matches Some(p) ==> 0 <= p.2 <= max_planned(m),
{
    if m.len() > 0 {
        lemma_first_min_upto_in_range(m, base, v, m.len() as int);
        lemma_max_planned_ge(m, first_min_upto(m, base, v, m.len() as int));
    }
}

pub proof fn lemma_pick_time_bound(
    m: Seq<(Task, u64)>,
    cfg: ScheduleConfiguration,
    base: Seq<TaskRecord>,
    v: Seq<TaskRecord>,
)
    ensures
        next_pick_model(m, cfg, base, v) matches Some(p) ==> 0 <= p.2 <= pick_bound(m, cfg),
{
    lemma_max_planned_nonneg(m);
    lemma_select_time_bound(m, base, v);
}

/// Appends copies of all records of `src`, in order.
fn push_all(dst: &mut Vec<TaskRecord>, src: &Vec<TaskRecord>)
    ensures
        final(dst)@ == old(dst)@ + src@,
{
    let n: usize = src.len();
    proof {
        assert(dst@ =~= dst@ + src@.take(0));
    }
    for j in 0..n
        invariant
            n == src@.len(),
            dst@ == old(dst)@ + src@.take(j as int),
    {
        dst.push(src[j].clone());
        proof {
            assert(dst@ =~= old(dst)@ + src@.take(j + 1));
        }
    }
    proof {
        assert(src@.take(n as int) =~= src@);
    }
}

/// Appends the virtual records of all planned intervals of `src`, in order.
fn push_converted(dst: &mut Vec<TaskRecord>, src: &Vec<ScheduleTask>)
    ensures
        final(dst)@ == old(dst)@ + plan_records(src@),
{
    let n: usize = src.len();
    proof {
        assert(dst@ =~= dst@ + plan_records(src@.take(0)));
    }
    for j in 0..n
        invariant
            n == src@.len(),
            dst@ == old(dst)@ + plan_records(src@.take(j as int)),
    {
        let rec = TaskRecord::from(src[j].clone());
        proof {
            assert(rec == record_model(src@[j as int]));
        }
        dst.push(rec);
        proof {
            assert(plan_records(src@.take(j + 1)) =~= plan_records(src@.take(j as int)).push(
                record_model(src@[j as int]),
            ));
            assert(dst@ =~= old(dst)@ + plan_records(src@.take(j + 1)));
        }
    }
    proof {
        assert(src@.take(n as int) =~= src@);
    }
}

proof fn lemma_plan_records_total(p: Seq<ScheduleTask>)
    ensures
        total_time(plan_records(p)) == plan_total(p),
    decreases p.len(),
{
    if p.len() > 0 {
        lemma_plan_records_total(p.drop_last());
        assert(plan_records(p).drop_last() =~= plan_records(p.drop_last()));
        assert(plan_records(p).last() == record_model(p.last()));
    }
}

/// How a multi-step plan is produced and when it stops.
pub enum PlanningPolicy {
    /// Produce exactly `limit` intervals, stopping early only on exhaustion,
    /// consulting the break policy before each pick.
    FixedCount { limit: usize },
    /// Produce intervals until their durations reach `focus_seconds`, at
    /// most `limit` of them, without per-step break checks; then inject due
    /// rest intervals in one pass over the whole plan.
    TimeBudget { focus_seconds: u64, limit: usize },
}

/// A time-budgeted plan before break injection: each element is what greedy
/// selection picks with all earlier ones fed back, each is picked only while
/// the accumulated duration is still below the budget, at most `limit` are
/// picked, and picking stopped early only on exhaustion or a reached budget.
pub open spec fn budget_plan_ok(
    m: Seq<(Task, u64)>,
    base: Seq<TaskRecord>,
    v: Seq<TaskRecord>,
    focus: int,
    limit: int,
    raw: Seq<ScheduleTask>,
) -> bool {
    &&& raw.len() <= limit
    &&& forall|k: int|
        0 <= k < raw.len() ==> plan_total(raw.take(k)) < focus && select_model(
            m,
            base,
            v + plan_records(#[trigger] raw.take(k)),
        ) == Some(step_model(raw[k]))
    &&& (raw.len() < limit && plan_total(raw) < focus) ==> select_model(
        m,
        base,
        v + plan_records(raw),
    ) is None
}

impl Scheduler {
    /// Count-bounded planning: repeatedly runs single-step selection
    /// ([`Self::compute_task`]), feeding each pick back as virtual history
    /// for the next, until `limit` intervals are produced or selection
    /// signals exhaustion.
    pub fn compute_tasks(&self, virtual_history: &Vec<TaskRecord>, limit: usize) -> (r: Vec<
        ScheduleTask,
    >)
        requires
            self.wf(),
            total_time(self.task_history@) + total_time(virtual_history@) + (limit as int)
                * pick_bound(self.tasks.0@, self.config) <= SECONDS_CAP,
        ensures
            plan_follows(self.tasks.0@, self.config, self.task_history@, virtual_history@, r@),
            r@.len() <= limit,
            r@.len() < limit ==> next_pick_model(
                self.tasks.0@,
                self.config,
                self.task_history@,
                virtual_history@ + plan_records(r@),
            ) is None,
    {
        let ghost m: Seq<(Task, u64)> = self.tasks.0@;
        let ghost cfg: ScheduleConfiguration = self.config;
        let ghost base: Seq<TaskRecord> = self.task_history@;
        let ghost v: Seq<TaskRecord> = virtual_history@;
        let ghost pb: int = pick_bound(m, cfg);
        proof {
            lemma_max_planned_nonneg(m);
        }
        let mut out: Vec<ScheduleTask> = Vec::new();
        let mut j: usize = 0;
        proof {
            assert(plan_records(out@) =~= Seq::<TaskRecord>::empty());
        }
        while j < limit
            invariant
                m == self.tasks.0@,
                cfg == self.config,
                base == self.task_history@,
                v == virtual_history@,
                pb == pick_bound(m, cfg),
                self.wf(),
                total_time(base) + total_time(v) + (limit as int) * pb <= SECONDS_CAP,
                j == out@.len(),
                j <= limit,
                plan_follows(m, cfg, base, v, out@),
                total_time(plan_records(out@)) <= j * pb,
            ensures
                plan_follows(m, cfg, base, v, out@),
                out@.len() <= limit,
                out@.len() < limit ==> next_pick_model(m, cfg, base, v + plan_records(out@)) is None,
            decreases limit - j,
        {
            let mut temp: Vec<TaskRecord> = Vec::new();
            push_all(&mut temp, virtual_history);
            push_converted(&mut temp, &out);
            proof {
                assert(temp@ == v + plan_records(out@));
                lemma_total_time_concat(v, plan_records(out@));
                assert((j as int) * pb + pb <= (limit as int) * pb) by (nonlinear_arith)
                    requires
                        0 <= (j as int) < (limit as int),
                        pb >= 0,
                ;
                assert(max_planned(m) <= pb);
            }
            match self.compute_task(&temp) {
                None => {
                    break ;
                },
                Some(t) => {
                    let ghost old_out: Seq<ScheduleTask> = out@;
                    out.push(t);
                    j = j + 1;
                    proof {
                        assert(next_pick_model(m, cfg, base, v + plan_records(old_out)) == Some(
                            step_model(t),
                        ));
                        assert forall|k: int| 0 <= k < out@.len() implies next_pick_model(
                            m,
                            cfg,
                            base,
                            v + plan_records(#[trigger] out@.take(k)),
                        ) == Some(step_model(out@[k])) by {
                            if k < old_out.len() {
                                assert(out@.take(k) =~= old_out.take(k));
                                assert(out@[k] == old_out[k]);
                            } else {
                                assert(out@.take(k) =~= old_out);
                            }
                        }
                        assert(plan_records(out@) =~= plan_records(old_out).push(record_model(t)));
                        assert(plan_records(out@).drop_last() =~= plan_records(old_out));
                        assert(plan_records(out@).last() == record_model(t));
                        lemma_pick_time_bound(m, cfg, base, v + plan_records(old_out));
                        assert((j - 1) * pb + pb == j * pb) by (nonlinear_arith);
                    }
                },
            }
        }
        out
    }

    /// The time-budgeted plan before break injection: greedy selection,
    /// feeding each pick back, until the accumulated planned duration
    /// reaches `focus_seconds`, `limit` picks are made, or selection signals
    /// exhaustion.
    pub fn compute_tasks_budget_raw(
        &self,
        virtual_history: &Vec<TaskRecord>,
        focus_seconds: u64,
        limit: usize,
    ) -> (r: Vec<ScheduleTask>)
        requires
            self.wf(),
            total_time(self.task_history@) + total_time(virtual_history@) + ((limit as int) + 1)
                * max_planned(self.tasks.0@) <= SECONDS_CAP,
        ensures
            budget_plan_ok(
                self.tasks.0@,
                self.task_history@,
                virtual_history@,
                focus_seconds as int,
                limit as int,
                r@,
            ),
            plan_total(r@) <= (limit as int) * max_planned(self.tasks.0@),
    {
        let ghost m: Seq<(Task, u64)> = self.tasks.0@;
        let ghost base: Seq<TaskRecord> = self.task_history@;
        let ghost v: Seq<TaskRecord> = virtual_history@;
        let ghost mp: int = max_planned(m);
        proof {
            lemma_max_planned_nonneg(m);
            lemma_total_time_nonneg(base);
            lemma_total_time_nonneg(v);
        }
        let mut out: Vec<ScheduleTask> = Vec::new();
        let mut acc: u64 = 0;
        let mut j: usize = 0;
        proof {
            assert(plan_records(out@) =~= Seq::<TaskRecord>::empty());
        }
        while j < limit && acc < focus_seconds
            invariant
                m == self.tasks.0@,
                base == self.task_history@,
                v == virtual_history@,
                mp == max_planned(m),
                mp >= 0,
                self.wf(),
                total_time(base) + total_time(v) + ((limit as int) + 1) * mp <= SECONDS_CAP,
                total_time(base) >= 0,
                total_time(v) >= 0,
                j == out@.len(),
                j <= limit,
                acc == plan_total(out@),
                acc <= (j as int) * mp,
                acc <= (limit as int) * mp,
                forall|k: int|
                    0 <= k < out@.len() ==> plan_total(out@.take(k))
                        < focus_seconds && select_model(
                        m,
                        base,
                        v + plan_records(#[trigger] out@.take(k)),
                    ) == Some(step_model(out@[k])),
            ensures
                budget_plan_ok(m, base, v, focus_seconds as int, limit as int, out@),
                plan_total(out@) <= (limit as int) * mp,
            decreases limit - j,
        {
            let mut temp: Vec<TaskRecord> = Vec::new();
            push_all(&mut temp, virtual_history);
            push_converted(&mut temp, &out);
            proof {
                assert(temp@ == v + plan_records(out@));
                lemma_total_time_concat(v, plan_records(out@));
                lemma_plan_records_total(out@);
                assert((j as int) * mp + mp <= ((limit as int) + 1) * mp) by (nonlinear_arith)
                    requires
                        0 <= (j as int) <= (limit as int),
                        mp >= 0,
                ;
            }
            match self.select_candidate(&temp) {
                None => {
                    break ;
                },
                Some(t) => {
                    let ghost old_out: Seq<ScheduleTask> = out@;
                    proof {
                        lemma_select_time_bound(m, base, v + plan_records(old_out));
                        assert((j as int) * mp + mp <= (limit as int) * mp) by (nonlinear_arith)
                            requires
                                0 <= (j as int) < (limit as int),
                                mp >= 0,
                        ;
                    }
                    let t_time: u64 = t.time;
                    out.push(t);
                    acc = acc + t_time;
                    j = j + 1;
                    proof {
                        assert(select_model(m, base, v + plan_records(old_out)) == Some(
                            step_model(out@[out@.len() - 1]),
                        ));
                        assert forall|k: int| 0 <= k < out@.len() implies plan_total(
                            out@.take(k),
                        ) < focus_seconds && select_model(
                            m,
                            base,
                            v + plan_records(#[trigger] out@.take(k)),
                        ) == Some(step_model(out@[k])) by {
                            if k < old_out.len() {
                                assert(out@.take(k) =~= old_out.take(k));
                                assert(out@[k] == old_out[k]);
                            } else {
                                assert(out@.take(k) =~= old_out);
                            }
                        }
                        assert(out@.drop_last() =~= old_out);
                        assert(out@.last().time == t_time);
                        assert(plan_records(out@) =~= plan_records(old_out).push(
                            record_model(out@.last()),
                        ));
                        assert((j - 1) * mp + mp == (j as int) * mp) by (nonlinear_arith);
                        assert((j as int) * mp <= (limit as int) * mp) by (nonlinear_arith)
                            requires
                                0 <= (j as int) <= (limit as int),
                                mp >= 0,
                        ;
                    }
                },
            }
        }
        out
    }

    /// Budget-bounded planning: the raw time-budgeted plan
    /// ([`Self::compute_tasks_budget_raw`]) with due rest intervals injected
    /// in one post-process pass, whose counters start from a scan of the
    /// ledger followed by the virtual tail.
    pub fn compute_tasks_budget(
        &self,
        virtual_history: &Vec<TaskRecord>,
        focus_seconds: u64,
        limit: usize,
    ) -> (r: Vec<ScheduleTask>)
        requires
            self.wf(),
            total_time(self.task_history@) + total_time(virtual_history@) + ((limit as int) + 1)
                * max_planned(self.tasks.0@) <= SECONDS_CAP,
        ensures
            exists|raw: Seq<ScheduleTask>|
                #[trigger] budget_plan_ok(
                    self.tasks.0@,
                    self.task_history@,
                    virtual_history@,
                    focus_seconds as int,
                    limit as int,
                    raw,
                ) && plan_model(r@) == insert_breaks_model(
                    plan_model(raw),
                    self.config,
                    break_counters(self.task_history@ + virtual_history@).0,
                    break_counters(self.task_history@ + virtual_history@).1,
                ),
    {
        let ghost m: Seq<(Task, u64)> = self.tasks.0@;
        let ghost base: Seq<TaskRecord> = self.task_history@;
        let ghost v: Seq<TaskRecord> = virtual_history@;
        let raw = self.compute_tasks_budget_raw(virtual_history, focus_seconds, limit);
        proof {
            lemma_max_planned_nonneg(m);
            lemma_total_time_nonneg(base);
            lemma_total_time_nonneg(v);
            lemma_counters_from_bounds(0, 0, base);
            assert(((limit as int) + 1) * max_planned(m) >= 0) by (nonlinear_arith)
                requires
                    max_planned(m) >= 0,
                    (limit as int) + 1 >= 1,
            ;
        }
        let (b0, mb0) = scan_records(&self.task_history, 0, 0);
        let (b, mb) = scan_records(virtual_history, b0, mb0);
        proof {
            lemma_counters_from_concat(0, 0, base, v);
            lemma_counters_from_bounds(0, 0, base + v);
            lemma_total_time_concat(base, v);
            lemma_plan_total_nonneg(raw@);
            assert(((limit as int) + 1) * max_planned(m) == (limit as int) * max_planned(m)
                + max_planned(m)) by (nonlinear_arith);
            assert((limit as int) * max_planned(m) >= 0) by (nonlinear_arith)
                requires
                    max_planned(m) >= 0,
                    limit as int >= 0,
            ;
        }
        let injected = insert_breaks(&raw, &self.config, b, mb);
        proof {
            let ghost c = break_counters(base + v);
            assert(budget_plan_ok(m, base, v, focus_seconds as int, limit as int, raw@)
                && plan_model(injected@) == insert_breaks_model(
                plan_model(raw@),
                self.config,
                c.0,
                c.1,
            ));
        }
        injected
    }

    /// Multi-step planning under the given policy.
    pub fn plan(&self, virtual_history: &Vec<TaskRecord>, policy: &PlanningPolicy) -> (r: Vec<
        ScheduleTask,
    >)
        requires
            self.wf(),
            match *policy {
                PlanningPolicy::FixedCount { limit } => total_time(self.task_history@)
                    + total_time(virtual_history@) + (limit as int) * pick_bound(
                    self.tasks.0@,
                    self.config,
                ) <= SECONDS_CAP,
                PlanningPolicy::TimeBudget { focus_seconds, limit } => total_time(
                    self.task_history@,
                ) + total_time(virtual_history@) + ((limit as int) + 1) * max_planned(
                    self.tasks.0@,
                ) <= SECONDS_CAP,
            },
        ensures
            match *policy {
                PlanningPolicy::FixedCount { limit } => plan_follows(
                    self.tasks.0@,
                    self.config,
                    self.task_history@,
                    virtual_history@,
                    r@,
                ) && r@.len() <= limit && (r@.len() < limit ==> next_pick_model(
                    self.tasks.0@,
                    self.config,
                    self.task_history@,
                    virtual_history@ + plan_records(r@),
                ) is None),
                PlanningPolicy::TimeBudget { focus_seconds, limit } => exists|
                    raw: Seq<ScheduleTask>,
                |
                    #[trigger] budget_plan_ok(
                        self.tasks.0@,
                        self.task_history@,
                        virtual_history@,
                        focus_seconds as int,
                        limit as int,
                        raw,
                    ) && plan_model(r@) == insert_breaks_model(
                        plan_model(raw),
                        self.config,
                        break_counters(self.task_history@ + virtual_history@).0,
                        break_counters(self.task_history@ + virtual_history@).1,
                    ),
            },
    {
        match policy {
            PlanningPolicy::FixedCount { limit } => self.compute_tasks(virtual_history, *limit),
            PlanningPolicy::TimeBudget { focus_seconds, limit } => self.compute_tasks_budget(
                virtual_history,
                *focus_seconds,
                *limit,
            ),
        }
    }
}

} // verus!
