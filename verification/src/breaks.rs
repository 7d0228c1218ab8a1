//! The break policy: a fold over a chronological sequence of intervals that
//! tracks time elapsed since the last break and minibreak, and the
//! post-process pass that injects due rest intervals into a plan.

use vstd::prelude::*;

use crate::cost::{break_group, is_rest_group, lemma_total_time_take_le, minibreak_group, total_time};
use crate::schedule::ScheduleConfiguration;
use crate::task::{ScheduleTask, TaskRecord};

verus! {

/// One step of the elapsed-time scan: a break resets both counters, a
/// minibreak resets only the minibreak counter, anything else adds its
/// duration to both. A rest interval's own duration never counts toward the
/// time since it.
pub open spec fn step_counters(sb: int, smb: int, group: Seq<char>, time: int) -> (int, int) {
    if group == break_group() {
        (0, 0)
    } else if group == minibreak_group() {
        (sb + time, 0)
    } else {
        (sb + time, smb + time)
    }
}

/// The `(since_last_break, since_last_minibreak)` pair after walking `h`
/// chronologically, starting from `(sb, smb)`.
pub open spec fn counters_from(sb: int, smb: int, h: Seq<TaskRecord>) -> (int, int)
    decreases h.len(),
{
    if h.len() == 0 {
        (sb, smb)
    } else {
        let p = counters_from(sb, smb, h.drop_last());
        step_counters(p.0, p.1, h.last().origin_group@, h.last().time as int)
    }
}

/// The counters after a full scan from zero.
pub open spec fn break_counters(h: Seq<TaskRecord>) -> (int, int) {
    counters_from(0, 0, h)
}

/// Sum of the planned durations of a plan, in seconds.
pub open spec fn plan_total(p: Seq<ScheduleTask>) -> int
    decreases p.len(),
{
    if p.len() == 0 {
        0
    } else {
        plan_total(p.drop_last()) + p.last().time
    }
}

pub proof fn lemma_counters_from_bounds(sb: int, smb: int, h: Seq<TaskRecord>)
    requires
        0 <= sb,
        0 <= smb,
    ensures
        0 <= counters_from(sb, smb, h).0 <= sb + total_time(h),
        0 <= counters_from(sb, smb, h).1 <= smb + total_time(h),
    decreases h.len(),
{
    if h.len() > 0 {
        lemma_counters_from_bounds(sb, smb, h.drop_last());
    }
}

pub proof fn lemma_counters_from_concat(sb: int, smb: int, a: Seq<TaskRecord>, b: Seq<TaskRecord>)
    ensures
        counters_from(sb, smb, a + b) == counters_from(
            counters_from(sb, smb, a).0,
            counters_from(sb, smb, a).1,
            b,
        ),
    decreases b.len(),
{
    if b.len() == 0 {
        assert(a + b =~= a);
    } else {
        assert((a + b).drop_last() =~= a + b.drop_last());
        lemma_counters_from_concat(sb, smb, a, b.drop_last());
    }
}

/// Runs the elapsed-time scan over `records`, starting from the given
/// counters.
pub fn scan_records(records: &Vec<TaskRecord>, since_break: u64, since_minibreak: u64) -> (r: (
    u64,
    u64,
))
    requires
        since_break + total_time(records@) <= u64::MAX,
        since_minibreak + total_time(records@) <= u64::MAX,
    ensures
        (r.0 as int, r.1 as int) == counters_from(
            since_break as int,
            since_minibreak as int,
            records@,
        ),
{
    let ghost h: Seq<TaskRecord> = records@;
    let mut b: u64 = since_break;
    let mut mb: u64 = since_minibreak;
    let n: usize = records.len();
    assert(h.take(0) =~= Seq::<TaskRecord>::empty());
    for i in 0..n
        invariant
            n == h.len(),
            h == records@,
            (b as int, mb as int) == counters_from(since_break as int, since_minibreak as int, h.take(i as int)),
            since_break + total_time(h) <= u64::MAX,
            since_minibreak + total_time(h) <= u64::MAX,
    {
        proof {
            assert(h.take(i + 1).drop_last() =~= h.take(i as int));
            assert(h.take(i + 1).last() == h[i as int]);
            lemma_counters_from_bounds(since_break as int, since_minibreak as int, h.take(i as int));
            lemma_total_time_take_le(h, i + 1);
            assert(total_time(h.take(i + 1)) == total_time(h.take(i as int)) + h[i as int].time);
            lemma_counters_from_bounds(since_break as int, since_minibreak as int, h.take(i + 1));
        }
        let record = &records[i];
        let br: String = "system/break".to_owned();
        let mbg: String = "system/minibreak".to_owned();
        if record.origin_group == br {
            b = 0;
            mb = 0;
        } else if record.origin_group == mbg {
            b = b + record.time;
            mb = 0;
        } else {
            b = b + record.time;
            mb = mb + record.time;
        }
    }
    assert(h.take(n as int) =~= h);
    (b, mb)
}

/// The model of a planned interval: name, group, duration in seconds.
pub type PlanStep = (Seq<char>, Seq<char>, int);

/// The model of one planned interval.
pub open spec fn step_model(t: ScheduleTask) -> PlanStep {
    (t.origin_name@, t.origin_group@, t.time as int)
}

/// The model of a whole plan.
pub open spec fn plan_model(p: Seq<ScheduleTask>) -> Seq<PlanStep> {
    p.map_values(|t: ScheduleTask| step_model(t))
}

/// The break interval the policy injects.
pub open spec fn break_step(cfg: ScheduleConfiguration) -> PlanStep {
    ("Break"@, break_group(), cfg.breaktime * 60)
}

/// The minibreak interval the policy injects.
pub open spec fn minibreak_step(cfg: ScheduleConfiguration) -> PlanStep {
    ("Minibreak"@, minibreak_group(), cfg.minibreaktime * 60)
}

/// The post-process pass over a plan: before each interval, if the time
/// since the last break has reached `break_frequency`, a break is injected
/// and both counters reset; otherwise, if the time since the last minibreak
/// has reached `minibreak_frequency`, a minibreak is injected and the
/// minibreak counter reset. The interval itself is then accounted for by
/// [`step_counters`].
pub open spec fn insert_breaks_model(
    plan: Seq<PlanStep>,
    cfg: ScheduleConfiguration,
    sb: int,
    smb: int,
) -> Seq<PlanStep>
    decreases plan.len(),
{
    if plan.len() == 0 {
        Seq::empty()
    } else {
        let t = plan[0];
        let inj: Seq<PlanStep> = if sb >= cfg.break_frequency * 60 {
            seq![break_step(cfg)]
        } else if smb >= cfg.minibreak_frequency * 60 {
            seq![minibreak_step(cfg)]
        } else {
            seq![]
        };
        let sb1: int = if sb >= cfg.break_frequency * 60 {
            0
        } else {
            sb
        };
        let smb1: int = if sb >= cfg.break_frequency * 60 || smb >= cfg.minibreak_frequency * 60 {
            0
        } else {
            smb
        };
        let next = step_counters(sb1, smb1, t.1, t.2);
        inj + seq![t] + insert_breaks_model(plan.drop_first(), cfg, next.0, next.1)
    }
}

/// Builds the break interval of a configuration.
pub fn make_break_task(cfg: &ScheduleConfiguration) -> (t: ScheduleTask)
    requires
        cfg.wf(),
    ensures
        step_model(t) == break_step(*cfg),
        t.origin_name@ == "Break"@,
        t.origin_group@ == break_group(),
        t.time == cfg.breaktime * 60,
{
    ScheduleTask {
        origin_name: "Break".to_owned(),
        origin_group: "system/break".to_owned(),
        time: cfg.breaktime * 60,
    }
}

/// Builds the minibreak interval of a configuration.
pub fn make_minibreak_task(cfg: &ScheduleConfiguration) -> (t: ScheduleTask)
    requires
        cfg.wf(),
    ensures
        step_model(t) == minibreak_step(*cfg),
        t.origin_name@ == "Minibreak"@,
        t.origin_group@ == minibreak_group(),
        t.time == cfg.minibreaktime * 60,
{
    ScheduleTask {
        origin_name: "Minibreak".to_owned(),
        origin_group: "system/minibreak".to_owned(),
        time: cfg.minibreaktime * 60,
    }
}

/// Injects due breaks and minibreaks into an already-computed plan, walking
/// it once in order, starting from the given counters.
pub fn insert_breaks(
    plan: &Vec<ScheduleTask>,
    cfg: &ScheduleConfiguration,
    since_break: u64,
    since_minibreak: u64,
) -> (out: Vec<ScheduleTask>)
    requires
        cfg.wf(),
        since_break + plan_total(plan@) <= u64::MAX,
        since_minibreak + plan_total(plan@) <= u64::MAX,
    ensures
        plan_model(out@) == insert_breaks_model(
            plan_model(plan@),
            *cfg,
            since_break as int,
            since_minibreak as int,
        ),
{
    let ghost full: Seq<PlanStep> = plan_model(plan@);
    let mut out: Vec<ScheduleTask> = Vec::new();
    let mut b: u64 = since_break;
    let mut mb: u64 = since_minibreak;
    let n: usize = plan.len();
    let break_due: u64 = cfg.break_frequency * 60;
    let minibreak_due: u64 = cfg.minibreak_frequency * 60;
    proof {
        assert(full.skip(0) =~= full);
        assert(plan@.skip(0) =~= plan@);
    }
    for i in 0..n
        invariant
            n == plan@.len(),
            full == plan_model(plan@),
            cfg.wf(),
            break_due == cfg.break_frequency * 60,
            minibreak_due == cfg.minibreak_frequency * 60,
            insert_breaks_model(full, *cfg, since_break as int, since_minibreak as int)
                == plan_model(out@) + insert_breaks_model(full.skip(i as int), *cfg, b as int, mb as int),
            b + plan_total(plan@.skip(i as int)) <= u64::MAX,
            mb + plan_total(plan@.skip(i as int)) <= u64::MAX,
    {
        let ghost pre_out: Seq<ScheduleTask> = out@;
        let ghost pre_b: int = b as int;
        let ghost pre_mb: int = mb as int;
        proof {
            assert(full.skip(i as int)[0] == full[i as int]);
            assert(full.skip(i as int).drop_first() =~= full.skip(i + 1));
            assert(plan@.skip(i as int).drop_first() =~= plan@.skip(i + 1));
            lemma_plan_total_skip_step(plan@, i as int);
        }
        if b >= break_due {
            let bt = make_break_task(cfg);
            out.push(bt);
            b = 0;
            mb = 0;
            proof {
                assert(plan_model(out@) =~= plan_model(pre_out).push(break_step(*cfg)));
            }
        } else if mb >= minibreak_due {
            let mt = make_minibreak_task(cfg);
            out.push(mt);
            mb = 0;
            proof {
                assert(plan_model(out@) =~= plan_model(pre_out).push(minibreak_step(*cfg)));
            }
        }
        let ghost inj_out: Seq<ScheduleTask> = out@;
        let task = &plan[i];
        let br: String = "system/break".to_owned();
        let mbg: String = "system/minibreak".to_owned();
        if task.origin_group == br {
            b = 0;
            mb = 0;
        } else if task.origin_group == mbg {
            b = b + task.time;
            mb = 0;
        } else {
            b = b + task.time;
            mb = mb + task.time;
        }
        out.push(task.clone());
        proof {
            assert(plan_model(out@) =~= plan_model(inj_out).push(full[i as int]));
            assert(plan_model(out@) + insert_breaks_model(full.skip(i + 1), *cfg, b as int, mb as int)
                =~= plan_model(pre_out) + insert_breaks_model(full.skip(i as int), *cfg, pre_b, pre_mb));
        }
    }
    proof {
        assert(full.skip(n as int) =~= Seq::<PlanStep>::empty());
        assert(plan_model(out@) + Seq::<PlanStep>::empty() =~= plan_model(out@));
    }
    out
}

proof fn lemma_plan_total_skip_step(p: Seq<ScheduleTask>, i: int)
    requires
        0 <= i < p.len(),
    ensures
        plan_total(p.skip(i)) == p[i].time + plan_total(p.skip(i + 1)),
        plan_total(p.skip(i + 1)) >= 0,
    decreases p.len() - i,
{
    lemma_plan_total_nonneg(p.skip(i + 1));
    lemma_plan_total_head(p.skip(i));
    assert(p.skip(i).drop_first() =~= p.skip(i + 1));
    assert(p.skip(i)[0] == p[i]);
}

pub proof fn lemma_plan_total_nonneg(p: Seq<ScheduleTask>)
    ensures
        plan_total(p) >= 0,
    decreases p.len(),
{
    if p.len() > 0 {
        lemma_plan_total_nonneg(p.drop_last());
    }
}

/// The number of uniform intervals of duration `d` after which a break is
/// due: the least `k` with `k * d >= break_frequency * 60`.
pub open spec fn break_every(cfg: ScheduleConfiguration, d: int) -> int {
    (cfg.break_frequency * 60 + d - 1) / d
}

proof fn lemma_break_every_bounds(cfg: ScheduleConfiguration, d: int)
    requires
        d > 0,
        cfg.break_frequency >= 1,
    ensures
        break_every(cfg, d) >= 1,
        break_every(cfg, d) * d >= cfg.break_frequency * 60,
        (break_every(cfg, d) - 1) * d < cfg.break_frequency * 60,
{
    let f: int = cfg.break_frequency * 60;
    let k: int = (f + d - 1) / d;
    vstd::arithmetic::div_mod::lemma_fundamental_div_mod(f + d - 1, d);
    let r: int = (f + d - 1) % d;
    vstd::arithmetic::div_mod::lemma_mod_bound(f + d - 1, d);
    assert(f + d - 1 == d * k + r);
    assert(k * d == f + d - 1 - r) by (nonlinear_arith)
        requires
            f + d - 1 == d * k + r,
    ;
    assert((k - 1) * d == k * d - d) by (nonlinear_arith);
    assert(k >= 1) by (nonlinear_arith)
        requires
            k * d >= f,
            f >= 60,
            d > 0,
    ;
}

/// Exact break placement for a uniform plan: when every interval lasts `d`
/// seconds and none is itself a rest interval, and minibreaks cannot fire
/// (their frequency is no shorter than the break frequency), the pass
/// injects a break exactly each time the accumulated duration since the
/// last reset reaches `break_frequency` minutes — that is, before every
/// `break_every`-th interval — and never earlier. `q` intervals' worth of
/// accumulated time is already on both counters.
proof fn lemma_uniform_breaks_from(
    plan: Seq<PlanStep>,
    cfg: ScheduleConfiguration,
    d: int,
    q: int,
)
    requires
        d > 0,
        cfg.break_frequency >= 1,
        cfg.minibreak_frequency * 60 >= cfg.break_frequency * 60,
        forall|i: int|
            0 <= i < plan.len() ==> (#[trigger] plan[i]).2 == d && !is_rest_group(
                plan[i].1,
            ),
        0 <= q <= break_every(cfg, d),
    ensures
        ({
            let out = insert_breaks_model(plan, cfg, q * d, q * d);
            let k = break_every(cfg, d);
            forall|j: int|
                0 <= j < out.len() ==> ((#[trigger] out[j]).1 == break_group() <==> (q + j + 1) % (
                k + 1) == 0)
        }),
    decreases plan.len(),
{
    let f: int = cfg.break_frequency * 60;
    let mf: int = cfg.minibreak_frequency * 60;
    let k: int = break_every(cfg, d);
    let out = insert_breaks_model(plan, cfg, q * d, q * d);
    lemma_break_every_bounds(cfg, d);
    if plan.len() == 0 {
    } else {
        let t = plan[0];
        assert(t.2 == d && !is_rest_group(t.1));
        if q < k {
            assert(q * d <= (k - 1) * d) by (nonlinear_arith)
                requires
                    q <= k - 1,
                    d > 0,
            ;
            assert(q * d < f);
            assert(q * d < mf);
            let next_q: int = q + 1;
            assert(next_q * d == q * d + d) by (nonlinear_arith)
                requires
                    next_q == q + 1,
            ;
            lemma_uniform_breaks_from(plan.drop_first(), cfg, d, next_q);
            let rec = insert_breaks_model(plan.drop_first(), cfg, next_q * d, next_q * d);
            assert(out =~= seq![t] + rec);
            assert forall|j: int| 0 <= j < out.len() implies ((#[trigger] out[j]).1
                == break_group() <==> (q + j + 1) % (k + 1) == 0) by {
                if j == 0 {
                    vstd::arithmetic::div_mod::lemma_small_mod((q + 1) as nat, (k + 1) as nat);
                } else {
                    assert(out[j] == rec[j - 1]);
                    assert(rec[j - 1].1 == break_group() <==> (next_q + (j - 1) + 1) % (k + 1)
                        == 0);
                    assert(next_q + (j - 1) + 1 == q + j + 1);
                }
            }
        } else {
            assert(q == k);
            assert(q * d >= f);
            lemma_uniform_breaks_from(plan.drop_first(), cfg, d, 1);
            assert(1 * d == d) by (nonlinear_arith);
            let rec = insert_breaks_model(plan.drop_first(), cfg, d, d);
            assert(out =~= seq![break_step(cfg)] + seq![t] + rec);
            assert forall|j: int| 0 <= j < out.len() implies ((#[trigger] out[j]).1
                == break_group() <==> (q + j + 1) % (k + 1) == 0) by {
                vstd::arithmetic::div_mod::lemma_mod_add_multiples_vanish(j, k + 1);
                assert((k + 1 + j) % (k + 1) == j % (k + 1));
                if j == 0 {
                    assert(out[j] == break_step(cfg));
                    vstd::arithmetic::div_mod::lemma_small_mod(0nat, (k + 1) as nat);
                } else if j == 1 {
                    assert(out[j] == t);
                    vstd::arithmetic::div_mod::lemma_small_mod(1nat, (k + 1) as nat);
                } else {
                    assert(out[j] == rec[j - 2]);
                    assert(rec[j - 2].1 == break_group() <==> (1 + (j - 2) + 1) % (k + 1) == 0);
                }
            }
        }
    }
}

/// The break policy on a uniform plan: given intervals each of duration `d`
/// seconds, none itself a rest interval, and a minibreak frequency no
/// shorter than the break frequency, the post-process pass injects a break
/// exactly once each time the accumulated duration since the last reset
/// reaches or exceeds `break_frequency * 60` seconds — in the output, at
/// every `(break_every + 1)`-th position — and never earlier.
pub proof fn lemma_uniform_plan_breaks(plan: Seq<PlanStep>, cfg: ScheduleConfiguration, d: int)
    requires
        d > 0,
        cfg.break_frequency >= 1,
        cfg.minibreak_frequency * 60 >= cfg.break_frequency * 60,
        forall|i: int|
            0 <= i < plan.len() ==> (#[trigger] plan[i]).2 == d && !is_rest_group(
                plan[i].1,
            ),
    ensures
        ({
            let out = insert_breaks_model(plan, cfg, 0, 0);
            forall|j: int|
                0 <= j < out.len() ==> ((#[trigger] out[j]).1 == break_group() <==> (j + 1) % (
                break_every(cfg, d) + 1) == 0)
        }),
{
    lemma_break_every_bounds(cfg, d);
    assert(0 * d == 0) by (nonlinear_arith);
    lemma_uniform_breaks_from(plan, cfg, d, 0);
}

proof fn lemma_plan_total_head(p: Seq<ScheduleTask>)
    requires
        p.len() > 0,
    ensures
        plan_total(p) == p[0].time + plan_total(p.drop_first()),
    decreases p.len(),
{
    if p.len() == 1 {
        assert(p.drop_first() =~= Seq::<ScheduleTask>::empty());
        assert(p.drop_last() =~= Seq::<ScheduleTask>::empty());
    } else {
        lemma_plan_total_head(p.drop_last());
        assert(p.drop_last().drop_first() =~= p.drop_first().drop_last());
        assert(p.drop_first().last() == p.last());
        assert(p.drop_last()[0] == p[0]);
    }
}

} // verus!
