//! Properties of the simulator, stated and proved against the model.
//!
//! Determinism needs no lemma of its own: `eval_fitness` ensures that
//! its result equals `sim_final`, a function of the specification, the
//! priority keys, the divider and the horizon alone.

use vstd::prelude::*;
use crate::domain::SimSpec;
use crate::domain::wf_entries;
use crate::domain::wf_sim_spec;
use crate::genome::Key;
use crate::model::add_pending;
use crate::model::apply_first_job;
use crate::model::mark_infinite;
use crate::model::add_shortfalls;
use crate::model::consume_needs;
use crate::model::deliver_due;
use crate::model::deliver_pending;
use crate::model::deliver_stocks;
use crate::model::has_id;
use crate::model::init_state;
use crate::model::lemma_consume_needs_char;
use crate::model::lemma_init_state_wf;
use crate::model::lemma_insert_job_props;
use crate::model::lemma_order_of_bounds;
use crate::model::lemma_pass_upto_wf;
use crate::model::lemma_sim_run_wf;
use crate::model::lemma_sim_step_wf;
use crate::model::needs_met;
use crate::model::order_of;
use crate::model::order_ok;
use crate::model::pass_upto;
use crate::model::proc_starts;
use crate::model::run_pass;
use crate::model::sim_finished;
use crate::model::sim_run;
use crate::model::sim_step;
use crate::model::start_proc;
use crate::model::wf_state;
use crate::model::SimState;

verus! {

// ----------------------------------------------------------------
// Non-negativity
// ----------------------------------------------------------------
/// No stock is ever decremented below zero: a process starts only when
/// all its needs are on hand, so every state a run passes through —
/// for any fuel, hence at any point of the run — holds nonnegative
/// quantities only.
pub proof fn lemma_stocks_never_negative(
    s: SimSpec,
    keys: Seq<Key>,
    divider: i64,
    horizon: i64,
    fuel: nat,
)
    requires
        wf_sim_spec(s),
        keys.len() == s.spec_n_procs(),
    ensures
        forall|i: int|
            0 <= i < s.spec_n_stocks() ==> 0 <= #[trigger] sim_run(
                s,
                keys,
                divider,
                horizon,
                init_state(s),
                fuel,
            ).stocks[i],
        forall|i: int|
            0 <= i < s.spec_n_stocks() ==> 0 <= #[trigger] sim_run(
                s,
                keys,
                divider,
                horizon,
                init_state(s),
                fuel,
            ).pending[i],
{
    lemma_init_state_wf(s);
    lemma_sim_run_wf(s, keys, divider, horizon, init_state(s), fuel);
}

// ----------------------------------------------------------------
// Disabled-process inertness
// ----------------------------------------------------------------
/// No completion of process `p` is in flight.
pub open spec fn no_jobs_for(st: SimState, p: usize) -> bool {
    forall|j: int| 0 <= j < st.jobs.len() ==> (#[trigger] st.jobs[j]).proc_id != p
}

proof fn lemma_pass_keeps_disabled_inert(
    s: SimSpec,
    keys: Seq<Key>,
    divider: i64,
    order: Seq<usize>,
    st: SimState,
    pos: int,
    p: usize,
)
    requires
        0 <= pos <= order.len(),
        p < keys.len(),
        keys[p as int] is Disabled,
        no_jobs_for(st, p),
    ensures
        no_jobs_for(pass_upto(s, keys, divider, order, st, pos), p),
    decreases pos,
{
    if pos > 0 {
        lemma_pass_keeps_disabled_inert(s, keys, divider, order, st, pos - 1, p);
        let prev = pass_upto(s, keys, divider, order, st, pos - 1);
        if proc_starts(s, keys, divider, order, prev, pos - 1) {
            let pid = order[pos - 1];
            assert(pid != p);
            let job = start_proc(s, order, prev, pos - 1).jobs[0];
            lemma_insert_job_props(
                prev.jobs,
                crate::domain::Job {
                    finish_time: crate::model::sat_add64(
                        prev.time,
                        s.durations@[pid as int] as int,
                    ),
                    proc_id: pid,
                },
            );
            let res = start_proc(s, order, prev, pos - 1);
            assert forall|j: int| 0 <= j < res.jobs.len() implies (#[trigger] res.jobs[j]).proc_id
                != p by {
                if res.jobs[j].proc_id == pid {
                } else {
                    assert(prev.jobs.contains(res.jobs[j]));
                    let w = choose|w: int| 0 <= w < prev.jobs.len() && prev.jobs[w] == res.jobs[j];
                }
            }
        }
    }
}

proof fn lemma_deliver_due_keeps_inert(s: SimSpec, st: SimState, t: i64, p: usize)
    requires
        no_jobs_for(st, p),
    ensures
        no_jobs_for(deliver_due(s, st, t), p),
    decreases st.jobs.len(),
{
    if st.jobs.len() > 0 && st.jobs[0].finish_time == t {
        let mid = apply_first_job(s, st);
        assert(forall|j: int|
            0 <= j < mid.jobs.len() ==> mid.jobs[j] == #[trigger] st.jobs[j + 1]);
        lemma_deliver_due_keeps_inert(s, mid, t, p);
    }
}

/// A process whose key is the disabled marker never starts, whatever
/// the stocks on hand, the horizon or the fuel: no completion of it is
/// ever in flight at any point of any run.
pub proof fn lemma_disabled_process_inert(
    s: SimSpec,
    keys: Seq<Key>,
    divider: i64,
    horizon: i64,
    fuel: nat,
    p: usize,
)
    requires
        p < keys.len(),
        keys[p as int] is Disabled,
    ensures
        no_jobs_for(sim_run(s, keys, divider, horizon, init_state(s), fuel), p),
{
    lemma_run_keeps_inert(s, keys, divider, horizon, init_state(s), fuel, p);
}

proof fn lemma_run_keeps_inert(
    s: SimSpec,
    keys: Seq<Key>,
    divider: i64,
    horizon: i64,
    st: SimState,
    fuel: nat,
    p: usize,
)
    requires
        p < keys.len(),
        keys[p as int] is Disabled,
        no_jobs_for(st, p),
    ensures
        no_jobs_for(sim_run(s, keys, divider, horizon, st, fuel), p),
    decreases fuel,
{
    if !sim_finished(s, keys, divider, horizon, st) && fuel > 0 {
        let order = order_of(keys);
        lemma_pass_keeps_disabled_inert(s, keys, divider, order, st, order.len() as int, p);
        let st1 = run_pass(s, keys, divider, order, st);
        if st1.jobs.len() > 0 {
            let t = st1.jobs[0].finish_time;
            let jumped = SimState {
                time: t,
                stocks: st1.stocks,
                pending: st1.pending,
                jobs: st1.jobs,
            };
            lemma_deliver_due_keeps_inert(s, jumped, t, p);
        }
        lemma_run_keeps_inert(s, keys, divider, horizon, sim_step(s, keys, divider, st), (fuel
            - 1) as nat, p);
    }
}

// ----------------------------------------------------------------
// Conservation
// ----------------------------------------------------------------
/// The total quantity of stock `sid` among the first `j` entries of a
/// need or result list.
pub open spec fn listed_qty(entries: Seq<(usize, i64)>, j: int, sid: int) -> int
    decreases j,
{
    if j <= 0 {
        0
    } else {
        listed_qty(entries, j - 1, sid) + if entries[j - 1].0 == sid {
            entries[j - 1].1 as int
        } else {
            0
        }
    }
}

proof fn lemma_listed_qty_nonneg(entries: Seq<(usize, i64)>, j: int, sid: int, n: int)
    requires
        j <= entries.len(),
        wf_entries(entries, n),
    ensures
        0 <= listed_qty(entries, j, sid),
    decreases j,
{
    if j > 0 {
        lemma_listed_qty_nonneg(entries, j - 1, sid, n);
    }
}

proof fn lemma_listed_qty_monotone(entries: Seq<(usize, i64)>, j: int, sid: int, n: int)
    requires
        0 <= j <= entries.len(),
        wf_entries(entries, n),
    ensures
        listed_qty(entries, j, sid) <= listed_qty(entries, entries.len() as int, sid),
    decreases entries.len() - j,
{
    if j < entries.len() {
        assert(listed_qty(entries, j + 1, sid) >= listed_qty(entries, j, sid));
        lemma_listed_qty_monotone(entries, j + 1, sid, n);
    }
}

/// With distinct ids, an absent stock contributes nothing.
proof fn lemma_listed_qty_absent(entries: Seq<(usize, i64)>, j: int, sid: int)
    requires
        j <= entries.len(),
        !has_id(entries, j, sid),
    ensures
        listed_qty(entries, j, sid) == 0,
    decreases j,
{
    if j > 0 {
        assert(!has_id(entries, j - 1, sid));
        lemma_listed_qty_absent(entries, j - 1, sid);
        assert(entries[j - 1].0 != sid);
    }
}

/// Without saturation, promising results adds exactly the listed
/// quantities to the ledger.
proof fn lemma_add_pending_exact(results: Seq<(usize, i64)>, pending: Seq<i64>, j: int)
    requires
        0 <= j <= results.len(),
        wf_entries(results, pending.len() as int),
        forall|i: int| 0 <= i < pending.len() ==> 0 <= #[trigger] pending[i],
        forall|i: int|
            0 <= i < pending.len() ==> pending[i] + listed_qty(results, results.len() as int, i)
                <= i64::MAX,
    ensures
        forall|i: int|
            0 <= i < pending.len() ==> #[trigger] add_pending(results, pending, j)[i] == pending[i]
                + listed_qty(results, j, i),
    decreases j,
{
    crate::model::lemma_add_pending_len(results, pending, j);
    if j > 0 {
        crate::model::lemma_add_pending_len(results, pending, j - 1);
        lemma_add_pending_exact(results, pending, j - 1);
        let prev = add_pending(results, pending, j - 1);
        let sid = results[j - 1].0 as int;
        assert forall|i: int| 0 <= i < pending.len() implies #[trigger] add_pending(
            results,
            pending,
            j,
        )[i] == pending[i] + listed_qty(results, j, i) by {
            lemma_listed_qty_nonneg(results, j - 1, i, pending.len() as int);
            lemma_listed_qty_monotone(results, j, i, pending.len() as int);
            if i == sid {
                assert(prev[sid] == pending[sid] + listed_qty(results, j - 1, sid));
                assert(pending[sid] + listed_qty(results, j, sid) <= i64::MAX);
            }
        }
    }
}

/// Without saturation, delivering results adds exactly the listed
/// quantities to the stocks on hand.
proof fn lemma_deliver_stocks_exact(results: Seq<(usize, i64)>, stocks: Seq<i64>, j: int)
    requires
        0 <= j <= results.len(),
        wf_entries(results, stocks.len() as int),
        forall|i: int| 0 <= i < stocks.len() ==> 0 <= #[trigger] stocks[i],
        forall|i: int|
            0 <= i < stocks.len() ==> stocks[i] + listed_qty(results, results.len() as int, i)
                <= i64::MAX,
    ensures
        forall|i: int|
            0 <= i < stocks.len() ==> #[trigger] deliver_stocks(results, stocks, j)[i] == stocks[i]
                + listed_qty(results, j, i),
    decreases j,
{
    crate::model::lemma_deliver_stocks_len(results, stocks, j);
    if j > 0 {
        crate::model::lemma_deliver_stocks_len(results, stocks, j - 1);
        lemma_deliver_stocks_exact(results, stocks, j - 1);
        let prev = deliver_stocks(results, stocks, j - 1);
        let sid = results[j - 1].0 as int;
        assert forall|i: int| 0 <= i < stocks.len() implies #[trigger] deliver_stocks(
            results,
            stocks,
            j,
        )[i] == stocks[i] + listed_qty(results, j, i) by {
            lemma_listed_qty_nonneg(results, j - 1, i, stocks.len() as int);
            lemma_listed_qty_monotone(results, j, i, stocks.len() as int);
            if i == sid {
                assert(prev[sid] == stocks[sid] + listed_qty(results, j - 1, sid));
                assert(stocks[sid] + listed_qty(results, j, sid) <= i64::MAX);
            }
        }
    }
}

/// When every promise is covered, settling promises removes exactly
/// the listed quantities from the ledger.
proof fn lemma_deliver_pending_exact(results: Seq<(usize, i64)>, pending: Seq<i64>, j: int)
    requires
        0 <= j <= results.len(),
        wf_entries(results, pending.len() as int),
        forall|i: int| 0 <= i < pending.len() ==> 0 <= #[trigger] pending[i],
        forall|i: int|
            0 <= i < pending.len() ==> listed_qty(results, results.len() as int, i) <= pending[i],
    ensures
        forall|i: int|
            0 <= i < pending.len() ==> #[trigger] deliver_pending(results, pending, j)[i]
                == pending[i] - listed_qty(results, j, i),
    decreases j,
{
    crate::model::lemma_deliver_pending_len(results, pending, j);
    if j > 0 {
        crate::model::lemma_deliver_pending_len(results, pending, j - 1);
        lemma_deliver_pending_exact(results, pending, j - 1);
        let prev = deliver_pending(results, pending, j - 1);
        let sid = results[j - 1].0 as int;
        assert forall|i: int| 0 <= i < pending.len() implies #[trigger] deliver_pending(
            results,
            pending,
            j,
        )[i] == pending[i] - listed_qty(results, j, i) by {
            lemma_listed_qty_nonneg(results, j - 1, i, pending.len() as int);
            lemma_listed_qty_monotone(results, j, i, pending.len() as int);
            if i == sid {
                assert(prev[sid] == pending[sid] - listed_qty(results, j - 1, sid));
                assert(listed_qty(results, j, sid) <= pending[sid]);
            }
        }
    }
}

/// With distinct ids, consuming needs removes exactly the listed
/// quantities from the stocks on hand.
proof fn lemma_consume_needs_exact(needs: Seq<(usize, i64)>, stocks: Seq<i64>, j: int)
    requires
        0 <= j <= needs.len(),
        wf_entries(needs, stocks.len() as int),
        crate::domain::distinct_ids(needs),
        needs_met(needs, stocks),
        forall|i: int| 0 <= i < stocks.len() ==> 0 <= #[trigger] stocks[i],
    ensures
        forall|i: int|
            0 <= i < stocks.len() ==> #[trigger] consume_needs(needs, stocks, j)[i] == stocks[i]
                - listed_qty(needs, j, i),
    decreases j,
{
    crate::model::lemma_consume_needs_len(needs, stocks, j);
    if j > 0 {
        crate::model::lemma_consume_needs_len(needs, stocks, j - 1);
        lemma_consume_needs_exact(needs, stocks, j - 1);
        let prev = consume_needs(needs, stocks, j - 1);
        let sid = needs[j - 1].0 as int;
        assert forall|i: int| 0 <= i < stocks.len() implies #[trigger] consume_needs(
            needs,
            stocks,
            j,
        )[i] == stocks[i] - listed_qty(needs, j, i) by {
            if i == sid {
                assert(!has_id(needs, j - 1, sid));
                lemma_listed_qty_absent(needs, j - 1, sid);
                assert(prev[sid] == stocks[sid] - 0);
                assert(stocks[sid] >= needs[j - 1].1);
                assert(listed_qty(needs, j, sid) == needs[j - 1].1 as int);
            } else {
                lemma_listed_qty_nonneg(needs, j, i, stocks.len() as int);
            }
        }
    }
}

/// Conservation when a process starts: for every stock, the sum of
/// pending and current quantity changes by exactly the newly promised
/// quantity minus the consumed quantity — provided no ledger entry
/// saturates.
pub proof fn lemma_start_conservation(s: SimSpec, order: Seq<usize>, st: SimState, pos: int)
    requires
        wf_sim_spec(s),
        order_ok(s, order),
        0 <= pos < order.len(),
        wf_state(s, st),
        needs_met(s.spec_needs_of(order[pos] as int), st.stocks),
        forall|i: int|
            0 <= i < st.pending.len() ==> st.pending[i] + listed_qty(
                s.spec_results_of(order[pos] as int),
                s.spec_results_of(order[pos] as int).len() as int,
                i,
            ) <= i64::MAX,
    ensures
        ({
            let pid = order[pos] as int;
            let res = start_proc(s, order, st, pos);
            forall|i: int|
                0 <= i < s.spec_n_stocks() ==> #[trigger] res.stocks[i] + res.pending[i]
                    == st.stocks[i] + st.pending[i] + listed_qty(
                    s.spec_results_of(pid),
                    s.spec_results_of(pid).len() as int,
                    i,
                ) - listed_qty(s.spec_needs_of(pid), s.spec_needs_of(pid).len() as int, i)
        }),
{
    let pid = order[pos] as int;
    let needs = s.spec_needs_of(pid);
    let results = s.spec_results_of(pid);
    lemma_consume_needs_exact(needs, st.stocks, needs.len() as int);
    lemma_add_pending_exact(results, st.pending, results.len() as int);
}

/// Conservation when a job completes: the stocks on hand rise and the
/// pending ledger falls by exactly the job's result quantities —
/// provided the stocks do not saturate and every promise is covered by
/// the ledger.
pub proof fn lemma_completion_conservation(s: SimSpec, st: SimState)
    requires
        wf_sim_spec(s),
        wf_state(s, st),
        st.jobs.len() > 0,
        st.jobs[0].proc_id < s.spec_n_procs(),
        forall|i: int|
            0 <= i < st.stocks.len() ==> st.stocks[i] + listed_qty(
                s.spec_results_of(st.jobs[0].proc_id as int),
                s.spec_results_of(st.jobs[0].proc_id as int).len() as int,
                i,
            ) <= i64::MAX,
        forall|i: int|
            0 <= i < st.pending.len() ==> listed_qty(
                s.spec_results_of(st.jobs[0].proc_id as int),
                s.spec_results_of(st.jobs[0].proc_id as int).len() as int,
                i,
            ) <= st.pending[i],
    ensures
        ({
            let res = apply_first_job(s, st);
            let results = s.spec_results_of(st.jobs[0].proc_id as int);
            forall|i: int|
                0 <= i < s.spec_n_stocks() ==> (#[trigger] res.stocks[i] == st.stocks[i]
                    + listed_qty(results, results.len() as int, i) && res.pending[i] == st.pending[i]
                    - listed_qty(results, results.len() as int, i))
        }),
{
    let results = s.spec_results_of(st.jobs[0].proc_id as int);
    lemma_deliver_stocks_exact(results, st.stocks, results.len() as int);
    lemma_deliver_pending_exact(results, st.pending, results.len() as int);
}

// ----------------------------------------------------------------
// The ultimate-consumer rule
// ----------------------------------------------------------------
proof fn lemma_mark_infinite_props(def: Seq<i64>, entries: Seq<(usize, i64)>, j: int)
    requires
        j <= entries.len(),
        wf_entries(entries, def.len() as int),
    ensures
        mark_infinite(def, entries, j).len() == def.len(),
        forall|q: int|
            0 <= q < j ==> mark_infinite(def, entries, j)[(#[trigger] entries[q]).0 as int]
                == i64::MAX,
        forall|sid: int|
            0 <= sid < def.len() ==> (#[trigger] mark_infinite(def, entries, j)[sid] == def[sid]
                || mark_infinite(def, entries, j)[sid] == i64::MAX),
    decreases j,
{
    crate::model::lemma_mark_infinite_len(def, entries, j);
    if j > 0 {
        lemma_mark_infinite_props(def, entries, j - 1);
    }
}

proof fn lemma_add_shortfalls_keeps_max(
    needs: Seq<(usize, i64)>,
    stocks: Seq<i64>,
    def: Seq<i64>,
    j: int,
)
    requires
        j <= needs.len(),
        wf_entries(needs, def.len() as int),
    ensures
        forall|sid: int|
            0 <= sid < def.len() && def[sid] == i64::MAX ==> #[trigger] add_shortfalls(
                needs,
                stocks,
                def,
                j,
            )[sid] == i64::MAX,
    decreases j,
{
    crate::model::lemma_add_shortfalls_len(needs, stocks, def, j);
    if j > 0 {
        crate::model::lemma_add_shortfalls_len(needs, stocks, def, j - 1);
        lemma_add_shortfalls_keeps_max(needs, stocks, def, j - 1);
    }
}

/// The ultimate-consumer rule behind the competing-producers
/// behaviour: the process placed first in the priority order sees the
/// infinite demand sentinel on every one of its result stocks, so its
/// start decision passes whenever one of those stocks has an
/// unsaturated pending entry — whatever the stocks on hand, the
/// divider, or the rest of the order.  Lower-priority starts of the
/// same tick then see the state this start already updated, since the
/// pass walks positions in order.
pub proof fn lemma_top_priority_demand_unbounded(
    s: SimSpec,
    order: Seq<usize>,
    stocks: Seq<i64>,
    pending: Seq<i64>,
    divider: i64,
    j: int,
)
    requires
        wf_sim_spec(s),
        order_ok(s, order),
        order.len() > 0,
        stocks.len() == s.spec_n_stocks(),
        pending.len() == s.spec_n_stocks(),
        forall|i: int| 0 <= i < pending.len() ==> 0 <= #[trigger] pending[i],
        divider >= 1,
        0 <= j < s.spec_results_of(order[0] as int).len(),
    ensures
        crate::model::deficit_upto(s, order, stocks, 1)[s.spec_results_of(order[0] as int)[j].0
            as int] == i64::MAX,
        pending[s.spec_results_of(order[0] as int)[j].0 as int] < i64::MAX
            ==> crate::model::should_run_at(s, order, stocks, pending, divider, 0),
{
    let pid = order[0] as int;
    let results = s.spec_results_of(pid);
    let needs = s.spec_needs_of(pid);
    let sid = results[j].0 as int;
    let z = crate::model::zero_seq(s.spec_n_stocks());
    assert(order[0] < s.spec_n_procs());
    assert(wf_entries(results, s.spec_n_stocks()));
    assert(wf_entries(needs, s.spec_n_stocks()));
    assert(crate::model::deficit_upto(s, order, stocks, 0) == z);
    lemma_mark_infinite_props(z, results, results.len() as int);
    let d1 = crate::model::mark_infinite(z, results, results.len() as int);
    assert(d1[sid] == i64::MAX);
    let d2 = if s.spec_is_quantity_goal() {
        crate::model::mark_infinite(d1, needs, needs.len() as int)
    } else {
        d1
    };
    if s.spec_is_quantity_goal() {
        lemma_mark_infinite_props(d1, needs, needs.len() as int);
    }
    assert(d2.len() == s.spec_n_stocks());
    assert(d2[sid] == i64::MAX);
    if !crate::model::needs_met(needs, stocks) {
        lemma_add_shortfalls_keeps_max(needs, stocks, d2, needs.len() as int);
    }
    let def = crate::model::deficit_upto(s, order, stocks, 1);
    assert(def[sid] == i64::MAX);
    if pending[sid] < i64::MAX {
        assert(pending[sid] as int / divider as int <= pending[sid] as int) by (nonlinear_arith)
            requires
                pending[sid] >= 0,
                divider >= 1,
        ;
        assert(def[s.spec_results_of(pid)[j].0 as int] > pending[s.spec_results_of(pid)[j].0
            as int] as int / divider as int);
    }
}

// ----------------------------------------------------------------
// Monotonic horizon
// ----------------------------------------------------------------
/// No process lists the optimization target among its needs.
pub open spec fn target_never_consumed(s: SimSpec) -> bool {
    forall|p: int|
        0 <= p < s.spec_n_procs() ==> !has_id(
            #[trigger] s.spec_needs_of(p),
            s.spec_needs_of(p).len() as int,
            s.target_stock_id as int,
        )
}

proof fn lemma_pass_keeps_target(
    s: SimSpec,
    keys: Seq<Key>,
    divider: i64,
    order: Seq<usize>,
    st: SimState,
    pos: int,
)
    requires
        wf_sim_spec(s),
        order_ok(s, order),
        0 <= pos <= order.len(),
        wf_state(s, st),
        st.time < i64::MAX,
        target_never_consumed(s),
    ensures
        pass_upto(s, keys, divider, order, st, pos).stocks[s.target_stock_id as int]
            == st.stocks[s.target_stock_id as int],
    decreases pos,
{
    if pos > 0 {
        lemma_pass_keeps_target(s, keys, divider, order, st, pos - 1);
        lemma_pass_upto_wf(s, keys, divider, order, st, pos - 1);
        let prev = pass_upto(s, keys, divider, order, st, pos - 1);
        if proc_starts(s, keys, divider, order, prev, pos - 1) {
            let pid = order[pos - 1] as int;
            let needs = s.spec_needs_of(pid);
            lemma_consume_needs_char(needs, prev.stocks, needs.len() as int);
            assert(!has_id(needs, needs.len() as int, s.target_stock_id as int));
        }
    }
}

proof fn lemma_step_keeps_target(s: SimSpec, keys: Seq<Key>, divider: i64, st: SimState)
    requires
        wf_sim_spec(s),
        keys.len() == s.spec_n_procs(),
        wf_state(s, st),
        st.time < i64::MAX,
        target_never_consumed(s),
    ensures
        sim_step(s, keys, divider, st).stocks[s.target_stock_id as int] >= st.stocks[s.target_stock_id
            as int],
{
    let order = order_of(keys);
    lemma_order_of_bounds(keys);
    lemma_pass_keeps_target(s, keys, divider, order, st, order.len() as int);
    lemma_pass_upto_wf(s, keys, divider, order, st, order.len() as int);
    let st1 = run_pass(s, keys, divider, order, st);
    if st1.jobs.len() > 0 {
        crate::model::lemma_deliver_phase_wf(s, st1);
    }
}

proof fn lemma_run_keeps_target(
    s: SimSpec,
    keys: Seq<Key>,
    divider: i64,
    horizon: i64,
    st: SimState,
    fuel: nat,
)
    requires
        wf_sim_spec(s),
        keys.len() == s.spec_n_procs(),
        wf_state(s, st),
        target_never_consumed(s),
    ensures
        sim_run(s, keys, divider, horizon, st, fuel).stocks[s.target_stock_id as int]
            >= st.stocks[s.target_stock_id as int],
    decreases fuel,
{
    if !sim_finished(s, keys, divider, horizon, st) && fuel > 0 {
        assert(st.time < horizon);
        lemma_step_keeps_target(s, keys, divider, st);
        lemma_sim_step_wf(s, keys, divider, st);
        lemma_run_keeps_target(s, keys, divider, horizon, sim_step(s, keys, divider, st), (fuel
            - 1) as nat);
    }
}

/// With durations of at least one cycle, time advances at every tick,
/// so any fuel covering the remaining horizon reaches a finished
/// state.
pub proof fn lemma_run_reaches_horizon(
    s: SimSpec,
    keys: Seq<Key>,
    divider: i64,
    horizon: i64,
    st: SimState,
    fuel: nat,
)
    requires
        wf_sim_spec(s),
        keys.len() == s.spec_n_procs(),
        wf_state(s, st),
        fuel >= horizon - st.time,
    ensures
        sim_finished(s, keys, divider, horizon, sim_run(s, keys, divider, horizon, st, fuel)),
    decreases fuel,
{
    if !sim_finished(s, keys, divider, horizon, st) {
        assert(st.time < horizon);
        assert(fuel > 0);
        lemma_sim_step_wf(s, keys, divider, st);
        let stepped = sim_step(s, keys, divider, st);
        assert(stepped.time > st.time);
        lemma_run_reaches_horizon(s, keys, divider, horizon, stepped, (fuel - 1) as nat);
    }
}

proof fn lemma_cross_horizon(
    s: SimSpec,
    keys: Seq<Key>,
    divider: i64,
    h1: i64,
    h2: i64,
    st: SimState,
    f: nat,
    g: nat,
)
    requires
        wf_sim_spec(s),
        keys.len() == s.spec_n_procs(),
        wf_state(s, st),
        target_never_consumed(s),
        h1 <= h2,
        sim_finished(s, keys, divider, h1, sim_run(s, keys, divider, h1, st, f)),
        sim_finished(s, keys, divider, h2, sim_run(s, keys, divider, h2, st, g)),
    ensures
        sim_run(s, keys, divider, h1, st, f).stocks[s.target_stock_id as int] <= sim_run(
            s,
            keys,
            divider,
            h2,
            st,
            g,
        ).stocks[s.target_stock_id as int],
    decreases f,
{
    if sim_finished(s, keys, divider, h1, st) {
        crate::model::lemma_finished_fixed(s, keys, divider, h1, st, f);
        lemma_run_keeps_target(s, keys, divider, h2, st, g);
    } else {
        assert(st.time < h1);
        assert(!sim_finished(s, keys, divider, h2, st));
        assert(f > 0);
        assert(g > 0);
        lemma_sim_step_wf(s, keys, divider, st);
        lemma_cross_horizon(
            s,
            keys,
            divider,
            h1,
            h2,
            sim_step(s, keys, divider, st),
            (f - 1) as nat,
            (g - 1) as nat,
        );
    }
}

/// Monotonic horizon: when no process consumes the target stock,
/// raising the horizon never lowers the final target quantity — more
/// simulated time cannot destroy already-produced stock.
pub proof fn lemma_monotonic_horizon(s: SimSpec, keys: Seq<Key>, divider: i64, h1: i64, h2: i64)
    requires
        wf_sim_spec(s),
        keys.len() == s.spec_n_procs(),
        target_never_consumed(s),
        h1 <= h2,
    ensures
        crate::model::fitness_of(s, keys, divider, h1) <= crate::model::fitness_of(
            s,
            keys,
            divider,
            h2,
        ),
{
    lemma_init_state_wf(s);
    lemma_run_reaches_horizon(s, keys, divider, h1, init_state(s), crate::model::sim_fuel(h1));
    lemma_run_reaches_horizon(s, keys, divider, h2, init_state(s), crate::model::sim_fuel(h2));
    lemma_cross_horizon(
        s,
        keys,
        divider,
        h1,
        h2,
        init_state(s),
        crate::model::sim_fuel(h1),
        crate::model::sim_fuel(h2),
    );
}

} // verus!
