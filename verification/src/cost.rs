//! The ratio engine's mathematical model: observed time per identity, total
//! time, and the L1 divergence ("cost") between target and observed shares.
//!
//! A cost is an exact rational `num / den`. For a combined history with
//! total time `T` (taken as 1 when `T == 0`, so the cost is defined even for
//! an empty history), the cost of a mapping is
//! `sum |ratio_i * T - seconds_i * RATIO_SCALE| / (RATIO_SCALE * T)`,
//! which equals `sum |ratio_i / RATIO_SCALE - seconds_i / T|`. Costs are
//! compared by cross-multiplication, so no rounding is ever introduced.

use vstd::prelude::*;

use crate::ratio::{sum_ratio, RATIO_SCALE, RATIO_TOLERANCE};
use crate::task::{Task, TaskRecord};

verus! {

/// A planning identity: the views of a `(name, group)` pair.
pub type Ident = (Seq<char>, Seq<char>);

/// Upper bound, in seconds, on the total time of any combined history the
/// planner evaluates. Costs of histories within this bound can be compared
/// exactly in 128-bit arithmetic; the bound is about thirty thousand years.
pub const SECONDS_CAP: u64 = 1_000_000_000_000;

/// Upper bound on the number of entries of a target-ratio mapping, likewise
/// a machine limit for exact cost comparison.
pub const CATALOG_CAP: usize = 10_000;

/// Every cost numerator is bounded by
/// `CATALOG_CAP * (RATIO_SCALE + RATIO_TOLERANCE) * SECONDS_CAP`,
/// which this constant dominates.
pub const COST_NUM_CAP: u128 = 200_000_000_000_000_000_000;

/// Every cost denominator is bounded by `RATIO_SCALE * SECONDS_CAP`.
pub const COST_DEN_CAP: u128 = 10_000_000_000_000_000;

/// Reserved group of break intervals.
pub open spec fn break_group() -> Seq<char> {
    "system/break"@
}

/// Reserved group of minibreak intervals.
pub open spec fn minibreak_group() -> Seq<char> {
    "system/minibreak"@
}

/// Whether a group is one of the two rest sentinels.
pub open spec fn is_rest_group(g: Seq<char>) -> bool {
    g == break_group() || g == minibreak_group()
}

/// Whether a record counts toward observed ratios (rest intervals do not).
pub open spec fn is_real_record(r: TaskRecord) -> bool {
    !is_rest_group(r.origin_group@)
}

/// Runtime check of [`is_rest_group`].
pub fn check_rest_group(g: &String) -> (b: bool)
    ensures
        b == is_rest_group(g@),
{
    let br: String = "system/break".to_owned();
    let mb: String = "system/minibreak".to_owned();
    *g == br || *g == mb
}

/// Grand total elapsed seconds of a history.
pub open spec fn total_time(h: Seq<TaskRecord>) -> int
    decreases h.len(),
{
    if h.len() == 0 {
        0
    } else {
        total_time(h.drop_last()) + h.last().time
    }
}

/// Elapsed seconds of a history attributed to one identity.
pub open spec fn ident_time(h: Seq<TaskRecord>, id: Ident) -> int
    decreases h.len(),
{
    if h.len() == 0 {
        0
    } else {
        ident_time(h.drop_last(), id) + if h.last().ident() == id {
            h.last().time as int
        } else {
            0
        }
    }
}

pub proof fn lemma_total_time_nonneg(h: Seq<TaskRecord>)
    ensures
        total_time(h) >= 0,
    decreases h.len(),
{
    if h.len() > 0 {
        lemma_total_time_nonneg(h.drop_last());
    }
}

pub proof fn lemma_time_bounds(h: Seq<TaskRecord>, id: Ident)
    ensures
        0 <= ident_time(h, id) <= total_time(h),
    decreases h.len(),
{
    if h.len() > 0 {
        lemma_time_bounds(h.drop_last(), id);
    }
}

pub proof fn lemma_total_time_singleton(r: TaskRecord)
    ensures
        total_time(seq![r]) == r.time,
{
    let s: Seq<TaskRecord> = seq![r];
    assert(s.drop_last() =~= Seq::<TaskRecord>::empty());
    assert(total_time(s.drop_last()) == 0);
    assert(s.last() == r);
}

pub proof fn lemma_ident_time_singleton(rec: TaskRecord, id: Ident)
    ensures
        ident_time(seq![rec], id) == if rec.ident() == id {
            rec.time as int
        } else {
            0
        },
{
    let s: Seq<TaskRecord> = seq![rec];
    assert(s.drop_last() =~= Seq::<TaskRecord>::empty());
    assert(ident_time(s.drop_last(), id) == 0);
    assert(s.last() == rec);
}

pub proof fn lemma_total_time_take_le(h: Seq<TaskRecord>, i: int)
    requires
        0 <= i <= h.len(),
    ensures
        total_time(h.take(i)) <= total_time(h),
    decreases h.len(),
{
    if i < h.len() {
        assert(h.drop_last().take(i) =~= h.take(i));
        lemma_total_time_take_le(h.drop_last(), i);
    } else {
        assert(h.take(i) =~= h);
    }
}

pub proof fn lemma_total_time_concat(a: Seq<TaskRecord>, b: Seq<TaskRecord>)
    ensures
        total_time(a + b) == total_time(a) + total_time(b),
    decreases b.len(),
{
    if b.len() == 0 {
        assert(a + b =~= a);
    } else {
        assert((a + b).drop_last() =~= a + b.drop_last());
        lemma_total_time_concat(a, b.drop_last());
    }
}

/// The records of a history that count toward observed ratios: those whose
/// group is neither rest sentinel, in order.
pub open spec fn real_records(h: Seq<TaskRecord>) -> Seq<TaskRecord>
    decreases h.len(),
{
    if h.len() == 0 {
        Seq::empty()
    } else {
        let p = real_records(h.drop_last());
        if is_real_record(h.last()) {
            p.push(h.last())
        } else {
            p
        }
    }
}

pub proof fn lemma_real_records_concat(a: Seq<TaskRecord>, b: Seq<TaskRecord>)
    ensures
        real_records(a + b) == real_records(a) + real_records(b),
    decreases b.len(),
{
    if b.len() == 0 {
        assert(a + b =~= a);
        assert(real_records(a) + real_records(b) =~= real_records(a));
    } else {
        assert((a + b).drop_last() =~= a + b.drop_last());
        lemma_real_records_concat(a, b.drop_last());
        if is_real_record(b.last()) {
            let ra = real_records(a);
            let rb = real_records(b.drop_last());
            assert(ra + rb.push(b.last()) =~= (ra + rb).push(b.last()));
        }
    }
}

pub proof fn lemma_real_records_singleton(rec: TaskRecord)
    ensures
        real_records(seq![rec]) == if is_real_record(rec) {
            seq![rec]
        } else {
            Seq::<TaskRecord>::empty()
        },
{
    let s: Seq<TaskRecord> = seq![rec];
    assert(s.drop_last() =~= Seq::<TaskRecord>::empty());
    assert(real_records(s.drop_last()) =~= Seq::<TaskRecord>::empty());
    assert(s.last() == rec);
    if is_real_record(rec) {
        assert(real_records(s) =~= seq![rec]);
    }
}

pub proof fn lemma_real_records_total_le(h: Seq<TaskRecord>)
    ensures
        0 <= total_time(real_records(h)) <= total_time(h),
    decreases h.len(),
{
    if h.len() > 0 {
        lemma_real_records_total_le(h.drop_last());
        if is_real_record(h.last()) {
            let p = real_records(h.drop_last());
            assert(p.push(h.last()).drop_last() =~= p);
            assert(p.push(h.last()).last() == h.last());
        }
    }
}

/// The distinct identities of a history, in order of first occurrence.
pub open spec fn idents_of(h: Seq<TaskRecord>) -> Seq<Ident>
    decreases h.len(),
{
    if h.len() == 0 {
        Seq::empty()
    } else {
        let p = idents_of(h.drop_last());
        if p.contains(h.last().ident()) {
            p
        } else {
            p.push(h.last().ident())
        }
    }
}

/// Extends an identity list with the identities of a mapping's tasks that it
/// does not yet hold, in mapping order.
pub open spec fn with_mapping_idents(acc: Seq<Ident>, m: Seq<(Task, u64)>) -> Seq<Ident>
    decreases m.len(),
{
    if m.len() == 0 {
        acc
    } else {
        let p = with_mapping_idents(acc, m.drop_last());
        if p.contains(m.last().0.ident()) {
            p
        } else {
            p.push(m.last().0.ident())
        }
    }
}

/// The identities the ratio engine reports on: those appearing in the
/// combined history, followed by those of the mapping not yet seen.
pub open spec fn observed_idents(m: Seq<(Task, u64)>, h: Seq<TaskRecord>) -> Seq<Ident> {
    with_mapping_idents(idents_of(h), m)
}

pub proof fn lemma_with_mapping_idents_contains(acc: Seq<Ident>, m: Seq<(Task, u64)>)
    ensures
        forall|id: Ident| acc.contains(id) ==> #[trigger] with_mapping_idents(acc, m).contains(id),
        forall|i: int|
            0 <= i < m.len() ==> with_mapping_idents(acc, m).contains(#[trigger] m[i].0.ident()),
    decreases m.len(),
{
    if m.len() > 0 {
        let p = with_mapping_idents(acc, m.drop_last());
        lemma_with_mapping_idents_contains(acc, m.drop_last());
        assert forall|id: Ident| p.contains(id) implies #[trigger] with_mapping_idents(
            acc,
            m,
        ).contains(id) by {
            let j = choose|j: int| 0 <= j < p.len() && p[j] == id;
            assert(with_mapping_idents(acc, m)[j] == id);
        }
        assert forall|i: int| 0 <= i < m.len() implies with_mapping_idents(acc, m).contains(
            #[trigger] m[i].0.ident(),
        ) by {
            if i < m.len() - 1 {
                assert(m.drop_last()[i] == m[i]);
                assert(p.contains(m[i].0.ident()));
            } else {
                if !p.contains(m[i].0.ident()) {
                    assert(with_mapping_idents(acc, m)[p.len() as int] == m[i].0.ident());
                }
            }
        }
    }
}

/// The identity an observed-ratio entry reports on.
pub open spec fn entry_ident(e: ((String, String), u64)) -> Ident {
    (e.0.0@, e.0.1@)
}

/// Some entry reports on the identity `id`.
pub open spec fn entries_contain(entries: Seq<((String, String), u64)>, id: Ident) -> bool {
    exists|k: int| 0 <= k < entries.len() && entry_ident(#[trigger] entries[k]) == id
}

/// Numerator of the cost read off a list of observed entries: for each
/// mapping entry whose identity has an observed entry, the absolute
/// difference of target and observed share over the common denominator
/// `RATIO_SCALE * max(total, 1)`; identities with no entry contribute 0.
pub open spec fn obs_cost_num(
    m: Seq<(Task, u64)>,
    entries: Seq<((String, String), u64)>,
    total: int,
) -> int
    decreases m.len(),
{
    if m.len() == 0 {
        0
    } else {
        obs_cost_num(m.drop_last(), entries, total) + match crate::ratio::lookup_ratio(
            entries,
            m.last().0.ident(),
        ) {
            Some(s) => abs_diff(
                m.last().1 * (if total == 0 {
                    1
                } else {
                    total
                }),
                s * RATIO_SCALE,
            ),
            None => 0,
        }
    }
}

/// Index of the entry a successful lookup returns.
pub proof fn lemma_lookup_index(entries: Seq<((String, String), u64)>, id: Ident) -> (k: int)
    requires
        crate::ratio::lookup_ratio(entries, id) is Some,
    ensures
        0 <= k < entries.len(),
        crate::ratio::lookup_ratio(entries, id) == Some(entries[k].1),
    decreases entries.len(),
{
    if entry_ident(entries[0]) == id {
        0
    } else {
        let k = lemma_lookup_index(entries.drop_first(), id);
        assert(entries.drop_first()[k] == entries[k + 1]);
        k + 1
    }
}

/// A lookup among entries whose values report [`ident_time`] of `h` finds
/// exactly `ident_time(h, id)`, provided some entry carries `id`.
pub proof fn lemma_lookup_entry_value(
    entries: Seq<((String, String), u64)>,
    h: Seq<TaskRecord>,
    id: Ident,
)
    requires
        forall|k: int|
            0 <= k < entries.len() ==> (#[trigger] entries[k]).1 == ident_time(
                h,
                entry_ident(entries[k]),
            ),
        entries_contain(entries, id),
    ensures
        crate::ratio::lookup_ratio(entries, id) matches Some(s) && s == ident_time(h, id),
    decreases entries.len(),
{
    let w = choose|k: int| 0 <= k < entries.len() && entry_ident(#[trigger] entries[k]) == id;
    if entry_ident(entries[0]) == id {
    } else {
        assert(w != 0);
        assert(entry_ident(entries.drop_first()[w - 1]) == id);
        assert(entries_contain(entries.drop_first(), id));
        lemma_lookup_entry_value(entries.drop_first(), h, id);
    }
}

/// The cost read off observed entries equals the cost computed directly
/// from the combined history, whenever the entries report [`ident_time`]
/// of that history and cover every mapping identity.
pub proof fn lemma_obs_cost_matches(
    m: Seq<(Task, u64)>,
    h: Seq<TaskRecord>,
    entries: Seq<((String, String), u64)>,
)
    requires
        forall|k: int|
            0 <= k < entries.len() ==> (#[trigger] entries[k]).1 == ident_time(
                h,
                entry_ident(entries[k]),
            ),
        forall|i: int|
            0 <= i < m.len() ==> entries_contain(entries, (#[trigger] m[i]).0.ident()),
    ensures
        obs_cost_num(m, entries, total_time(h)) == cost_num(m, h),
    decreases m.len(),
{
    if m.len() > 0 {
        assert forall|i: int| 0 <= i < m.drop_last().len() implies entries_contain(
            entries,
            (#[trigger] m.drop_last()[i]).0.ident(),
        ) by {
            assert(m.drop_last()[i] == m[i]);
        }
        lemma_obs_cost_matches(m.drop_last(), h, entries);
        assert(m[m.len() - 1] == m.last());
        lemma_lookup_entry_value(entries, h, m.last().0.ident());
    }
}

/// The denominator-side total: the grand total, or 1 when it is zero, so
/// every observed share of an empty history is exactly 0.
pub open spec fn eff_total(h: Seq<TaskRecord>) -> int {
    if total_time(h) == 0 {
        1
    } else {
        total_time(h)
    }
}

pub open spec fn abs_diff(a: int, b: int) -> int {
    if a >= b {
        a - b
    } else {
        b - a
    }
}

/// Numerator of the cost of mapping `m` against combined history `h`, over
/// the common denominator [`cost_den`].
pub open spec fn cost_num(m: Seq<(Task, u64)>, h: Seq<TaskRecord>) -> int
    decreases m.len(),
{
    if m.len() == 0 {
        0
    } else {
        cost_num(m.drop_last(), h) + abs_diff(
            m.last().1 * eff_total(h),
            ident_time(h, m.last().0.ident()) * RATIO_SCALE,
        )
    }
}

/// Denominator of the cost of any mapping against combined history `h`.
pub open spec fn cost_den(h: Seq<TaskRecord>) -> int {
    RATIO_SCALE * eff_total(h)
}

/// The hypothetical record of picking a task now, for lookahead.
pub open spec fn hyp_record(t: Task) -> TaskRecord {
    TaskRecord { origin_name: t.name, origin_group: t.group, time: t.config.time }
}

/// The combined history the ratio engine sees when candidate `t` is tried:
/// the real part of ledger, hypothetical pick, then virtual tail.
pub open spec fn cand_combined(base: Seq<TaskRecord>, v: Seq<TaskRecord>, t: Task) -> Seq<
    TaskRecord,
> {
    real_records(base + seq![hyp_record(t)] + v)
}

/// Cost of candidate `i` is strictly below cost of candidate `j`
/// (cross-multiplied; both denominators are positive).
pub open spec fn cand_lt(
    m: Seq<(Task, u64)>,
    base: Seq<TaskRecord>,
    v: Seq<TaskRecord>,
    i: int,
    j: int,
) -> bool {
    cost_num(m, cand_combined(base, v, m[i].0)) * cost_den(cand_combined(base, v, m[j].0))
        < cost_num(m, cand_combined(base, v, m[j].0)) * cost_den(cand_combined(base, v, m[i].0))
}

/// Index of the first candidate among `m[0..n]` achieving the minimal cost:
/// a later candidate replaces the running best only when strictly cheaper.
pub open spec fn first_min_upto(
    m: Seq<(Task, u64)>,
    base: Seq<TaskRecord>,
    v: Seq<TaskRecord>,
    n: int,
) -> int
    decreases n,
{
    if n <= 1 {
        0
    } else {
        let b = first_min_upto(m, base, v, n - 1);
        if cand_lt(m, base, v, n - 1, b) {
            n - 1
        } else {
            b
        }
    }
}

pub proof fn lemma_first_min_upto_in_range(
    m: Seq<(Task, u64)>,
    base: Seq<TaskRecord>,
    v: Seq<TaskRecord>,
    n: int,
)
    requires
        n >= 1,
    ensures
        0 <= first_min_upto(m, base, v, n) < n,
    decreases n,
{
    if n > 1 {
        lemma_first_min_upto_in_range(m, base, v, n - 1);
    }
}

/// An exact cost: the rational `num / den`.
pub struct Cost {
    pub num: u128,
    pub den: u128,
}

impl Cost {
    /// Bounds under which two costs can be compared by cross-multiplication
    /// without overflow.
    pub open spec fn wf(self) -> bool {
        self.num <= COST_NUM_CAP && 1 <= self.den <= COST_DEN_CAP
    }
}

/// Exact comparison of two costs by cross-multiplication.
pub fn cost_lt(a: &Cost, b: &Cost) -> (r: bool)
    requires
        a.wf(),
        b.wf(),
    ensures
        r == (a.num * b.den < b.num * a.den),
{
    proof {
        assert(a.num * b.den <= COST_NUM_CAP * COST_DEN_CAP) by (nonlinear_arith)
            requires
                a.num <= COST_NUM_CAP,
                b.den <= COST_DEN_CAP,
        ;
        assert(b.num * a.den <= COST_NUM_CAP * COST_DEN_CAP) by (nonlinear_arith)
            requires
                b.num <= COST_NUM_CAP,
                a.den <= COST_DEN_CAP,
        ;
    }
    a.num * b.den < b.num * a.den
}

pub proof fn lemma_sum_ratio_ge_each(m: Seq<(Task, u64)>, i: int)
    requires
        0 <= i < m.len(),
    ensures
        m[i].1 <= sum_ratio(m),
    decreases m.len(),
{
    if i < m.len() - 1 {
        lemma_sum_ratio_ge_each(m.drop_last(), i);
    } else {
        lemma_sum_ratio_nonneg(m.drop_last());
    }
}

pub proof fn lemma_sum_ratio_nonneg(m: Seq<(Task, u64)>)
    ensures
        sum_ratio(m) >= 0,
    decreases m.len(),
{
    if m.len() > 0 {
        lemma_sum_ratio_nonneg(m.drop_last());
    }
}

/// Bound on costs read off observed entries: each term is at most
/// `(RATIO_SCALE + RATIO_TOLERANCE) * max(total, 1)`.
pub proof fn lemma_obs_cost_num_bound(
    m: Seq<(Task, u64)>,
    entries: Seq<((String, String), u64)>,
    total: int,
)
    requires
        forall|i: int| 0 <= i < m.len() ==> (#[trigger] m[i]).1 <= RATIO_SCALE + RATIO_TOLERANCE,
        forall|k: int|
            0 <= k < entries.len() ==> (#[trigger] entries[k]).1 <= (if total == 0 {
                0int
            } else {
                total
            }),
        total >= 0,
    ensures
        0 <= obs_cost_num(m, entries, total) <= m.len() * ((RATIO_SCALE + RATIO_TOLERANCE) * (
        if total == 0 {
            1int
        } else {
            total
        })),
    decreases m.len(),
{
    let t: int = if total == 0 {
        1int
    } else {
        total
    };
    let bound: int = (RATIO_SCALE + RATIO_TOLERANCE) * t;
    if m.len() > 0 {
        lemma_obs_cost_num_bound(m.drop_last(), entries, total);
        let r: int = m.last().1 as int;
        let term: int = match crate::ratio::lookup_ratio(entries, m.last().0.ident()) {
            Some(s) => abs_diff(r * t, s * RATIO_SCALE),
            None => 0,
        };
        if crate::ratio::lookup_ratio(entries, m.last().0.ident()) is Some {
            let k = lemma_lookup_index(entries, m.last().0.ident());
            let s: int = entries[k].1 as int;
            assert(term <= bound && term >= 0) by (nonlinear_arith)
                requires
                    0 <= r <= RATIO_SCALE + RATIO_TOLERANCE,
                    0 <= s <= t,
                    1 <= t,
                    bound == (RATIO_SCALE + RATIO_TOLERANCE) * t,
                    term == abs_diff(r * t, s * RATIO_SCALE),
                    term == if r * t >= s * RATIO_SCALE {
                        r * t - s * RATIO_SCALE
                    } else {
                        s * RATIO_SCALE - r * t
                    },
            ;
        }
        assert((m.len() - 1) * bound + bound == m.len() * bound) by (nonlinear_arith);
    }
}


} // verus!
