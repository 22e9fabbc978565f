//! The mathematical model of the simulator.
//!
//! One fitness evaluation is modeled as a pure function of the
//! specification, the priority keys, the throttling divider and the
//! horizon.  The executable simulator is proved to return exactly the
//! state this model describes, so evaluation is deterministic by
//! construction.
//!
//! Quantities are held in `i64` and saturate at `i64::MAX` instead of
//! overflowing; the pending ledger never drops below zero.

use vstd::prelude::*;
use crate::domain::Job;
use crate::domain::SimSpec;
use crate::domain::wf_entries;
use crate::domain::wf_sim_spec;
use crate::domain::distinct_ids;
use crate::genome::Key;

verus! {

// ----------------------------------------------------------------
// Priority order
// ----------------------------------------------------------------
/// Sort rank of a key: active keys order by value, and a disabled key
/// ranks after every active one.
pub open spec fn key_rank(k: Key) -> int {
    match k {
        Key::Active(v) => v as int,
        Key::Disabled => u64::MAX as int + 1,
    }
}

/// Strict priority order between process indices: lower key first,
/// ties broken by the lower process id.
pub open spec fn prio_lt(keys: Seq<Key>, i: usize, j: usize) -> bool {
    ||| key_rank(keys[i as int]) < key_rank(keys[j as int])
    ||| (key_rank(keys[i as int]) == key_rank(keys[j as int]) && i < j)
}

/// Inserts process index `x` into an ordered index list, before the
/// first entry that ranks after it.
pub open spec fn insert_ordered(keys: Seq<Key>, ord: Seq<usize>, x: usize) -> Seq<usize>
    decreases ord.len(),
{
    if ord.len() == 0 {
        seq![x]
    } else if prio_lt(keys, x, ord[0]) {
        seq![x] + ord
    } else {
        seq![ord[0]] + insert_ordered(keys, ord.drop_first(), x)
    }
}

/// The ordered list of the first `n` process indices.
pub open spec fn order_rec(keys: Seq<Key>, n: int) -> Seq<usize>
    decreases n,
{
    if n <= 0 {
        Seq::empty()
    } else {
        insert_ordered(keys, order_rec(keys, n - 1), (n - 1) as usize)
    }
}

/// The priority order induced by a key vector: all process indices,
/// sorted ascending by `prio_lt`.
pub open spec fn order_of(keys: Seq<Key>) -> Seq<usize> {
    order_rec(keys, keys.len() as int)
}

// ----------------------------------------------------------------
// Saturating arithmetic
// ----------------------------------------------------------------
/// Clamps a mathematical integer into the `i64` range.
pub open spec fn clip64(x: int) -> i64 {
    if x > i64::MAX {
        i64::MAX
    } else if x < i64::MIN {
        i64::MIN
    } else {
        x as i64
    }
}

/// `a + b`, saturating at the `i64` bounds.
pub open spec fn sat_add64(a: i64, b: int) -> i64 {
    clip64(a + b)
}

/// `a - b`, floored at zero.
pub open spec fn sub_floor0(a: i64, b: i64) -> i64 {
    if a - b < 0 {
        0
    } else {
        clip64(a - b)
    }
}

// ----------------------------------------------------------------
// Run state
// ----------------------------------------------------------------
/// The state of one simulation run: the current time, the quantity of
/// each stock on hand, the quantity of each stock promised by
/// in-flight jobs but not yet delivered, and the pending completion
/// events ordered by `(finish_time, proc_id)`.
#[verifier::ext_equal]
pub struct SimState {
    pub time: i64,
    pub stocks: Seq<i64>,
    pub pending: Seq<i64>,
    pub jobs: Seq<Job>,
}

/// All-zero per-stock vector.
pub open spec fn zero_seq(n: int) -> Seq<i64> {
    Seq::new(n as nat, |i: int| 0i64)
}

/// The state a run starts from: time zero, the specification's initial
/// stocks, nothing pending.
pub open spec fn init_state(s: SimSpec) -> SimState {
    SimState {
        time: 0,
        stocks: s.init_stocks@,
        pending: zero_seq(s.spec_n_stocks()),
        jobs: Seq::empty(),
    }
}

// ----------------------------------------------------------------
// Demand propagation
// ----------------------------------------------------------------
/// Whether every need of a process is covered by the stocks on hand.
pub open spec fn needs_met(needs: Seq<(usize, i64)>, stocks: Seq<i64>) -> bool {
    forall|j: int| 0 <= j < needs.len() ==> stocks[#[trigger] needs[j].0 as int] >= needs[j].1
}

/// Marks the stock of each of the first `j` entries as infinitely
/// demanded.
pub open spec fn mark_infinite(def: Seq<i64>, entries: Seq<(usize, i64)>, j: int) -> Seq<i64>
    decreases j,
{
    if j <= 0 {
        def
    } else {
        mark_infinite(def, entries, j - 1).update(entries[j - 1].0 as int, i64::MAX)
    }
}

/// Adds, for the first `j` needs of a blocked process, its per-stock
/// shortfall (needed minus available, where positive) into the demand
/// map, saturating rather than overflowing.  A saturated (infinite)
/// entry stays infinite.
pub open spec fn add_shortfalls(
    needs: Seq<(usize, i64)>,
    stocks: Seq<i64>,
    def: Seq<i64>,
    j: int,
) -> Seq<i64>
    decreases j,
{
    if j <= 0 {
        def
    } else {
        let d = add_shortfalls(needs, stocks, def, j - 1);
        let sid = needs[j - 1].0 as int;
        let shortfall = needs[j - 1].1 - stocks[sid];
        if shortfall > 0 {
            d.update(sid, sat_add64(d[sid], shortfall))
        } else {
            d
        }
    }
}

/// One contribution to the demand map, from the process at position
/// `pidx` of the priority order.  The process at position zero is the
/// ultimate consumer: its results — and, under a quantity goal, its
/// needs — are demanded without bound.  Any process blocked by
/// insufficient inventory adds its shortfalls.
pub open spec fn deficit_step(
    s: SimSpec,
    order: Seq<usize>,
    stocks: Seq<i64>,
    def: Seq<i64>,
    pidx: int,
) -> Seq<i64> {
    let hp = order[pidx] as int;
    let def1 = if pidx == 0 {
        let d = mark_infinite(def, s.spec_results_of(hp), s.spec_results_of(hp).len() as int);
        if s.spec_is_quantity_goal() {
            mark_infinite(d, s.spec_needs_of(hp), s.spec_needs_of(hp).len() as int)
        } else {
            d
        }
    } else {
        def
    };
    if needs_met(s.spec_needs_of(hp), stocks) {
        def1
    } else {
        add_shortfalls(s.spec_needs_of(hp), stocks, def1, s.spec_needs_of(hp).len() as int)
    }
}

/// The demand map accumulated over the first `k` positions of the
/// priority order.
pub open spec fn deficit_upto(s: SimSpec, order: Seq<usize>, stocks: Seq<i64>, k: int) -> Seq<i64>
    decreases k,
{
    if k <= 0 {
        zero_seq(s.spec_n_stocks())
    } else {
        deficit_step(s, order, stocks, deficit_upto(s, order, stocks, k - 1), k - 1)
    }
}

/// The start decision for the process at position `pos`: at least one
/// of its result stocks is demanded strictly more than the amount of
/// that stock already in flight, divided by the throttling divider.
pub open spec fn should_run_at(
    s: SimSpec,
    order: Seq<usize>,
    stocks: Seq<i64>,
    pending: Seq<i64>,
    divider: i64,
    pos: int,
) -> bool {
    let pid = order[pos] as int;
    let def = deficit_upto(s, order, stocks, pos + 1);
    exists|j: int|
        0 <= j < s.spec_results_of(pid).len() && def[#[trigger] s.spec_results_of(pid)[j].0 as int]
            > pending[s.spec_results_of(pid)[j].0 as int] as int / divider as int
}

// ----------------------------------------------------------------
// Starting a process
// ----------------------------------------------------------------
/// Subtracts the first `j` needs from the stocks on hand.
pub open spec fn consume_needs(needs: Seq<(usize, i64)>, stocks: Seq<i64>, j: int) -> Seq<i64>
    decreases j,
{
    if j <= 0 {
        stocks
    } else {
        let st = consume_needs(needs, stocks, j - 1);
        let sid = needs[j - 1].0 as int;
        st.update(sid, clip64(st[sid] - needs[j - 1].1))
    }
}

/// Adds the first `j` promised results into the pending ledger.
pub open spec fn add_pending(results: Seq<(usize, i64)>, pending: Seq<i64>, j: int) -> Seq<i64>
    decreases j,
{
    if j <= 0 {
        pending
    } else {
        let p = add_pending(results, pending, j - 1);
        let sid = results[j - 1].0 as int;
        p.update(sid, sat_add64(p[sid], results[j - 1].1 as int))
    }
}

/// Queue order of completion events.
pub open spec fn job_le(a: Job, b: Job) -> bool {
    ||| a.finish_time < b.finish_time
    ||| (a.finish_time == b.finish_time && a.proc_id <= b.proc_id)
}

/// Inserts a completion event into the ordered queue, after every
/// event that does not rank after it.
pub open spec fn insert_job(jobs: Seq<Job>, j: Job) -> Seq<Job>
    decreases jobs.len(),
{
    if jobs.len() == 0 {
        seq![j]
    } else if job_le(jobs[0], j) {
        seq![jobs[0]] + insert_job(jobs.drop_first(), j)
    } else {
        seq![j] + jobs
    }
}

/// Starts the process at position `pos`: its needs leave the stocks on
/// hand now, a completion event is queued for `duration` cycles later,
/// and its results are promised in the pending ledger.
pub open spec fn start_proc(s: SimSpec, order: Seq<usize>, st: SimState, pos: int) -> SimState {
    let pid = order[pos] as int;
    let job = Job {
        finish_time: sat_add64(st.time, s.durations@[pid] as int),
        proc_id: order[pos],
    };
    SimState {
        time: st.time,
        stocks: consume_needs(s.spec_needs_of(pid), st.stocks, s.spec_needs_of(pid).len() as int),
        pending: add_pending(
            s.spec_results_of(pid),
            st.pending,
            s.spec_results_of(pid).len() as int,
        ),
        jobs: insert_job(st.jobs, job),
    }
}

// ----------------------------------------------------------------
// One pass over the priority order
// ----------------------------------------------------------------
/// Whether the process at position `pos` starts: it is not disabled,
/// its needs are on hand, and the start decision holds.  Each check
/// reads the state as already updated by the higher-priority starts of
/// the same tick.
pub open spec fn proc_starts(
    s: SimSpec,
    keys: Seq<Key>,
    divider: i64,
    order: Seq<usize>,
    st: SimState,
    pos: int,
) -> bool {
    let pid = order[pos] as int;
    &&& !(keys[pid] is Disabled)
    &&& needs_met(s.spec_needs_of(pid), st.stocks)
    &&& should_run_at(s, order, st.stocks, st.pending, divider, pos)
}

/// The state after considering the process at position `pos`.
pub open spec fn step_proc(
    s: SimSpec,
    keys: Seq<Key>,
    divider: i64,
    order: Seq<usize>,
    st: SimState,
    pos: int,
) -> SimState {
    if proc_starts(s, keys, divider, order, st, pos) {
        start_proc(s, order, st, pos)
    } else {
        st
    }
}

/// The state after considering the first `pos` positions of the
/// priority order, in order.
pub open spec fn pass_upto(
    s: SimSpec,
    keys: Seq<Key>,
    divider: i64,
    order: Seq<usize>,
    st: SimState,
    pos: int,
) -> SimState
    decreases pos,
{
    if pos <= 0 {
        st
    } else {
        step_proc(s, keys, divider, order, pass_upto(s, keys, divider, order, st, pos - 1), pos - 1)
    }
}

/// One full pass over the priority order.
pub open spec fn run_pass(
    s: SimSpec,
    keys: Seq<Key>,
    divider: i64,
    order: Seq<usize>,
    st: SimState,
) -> SimState {
    pass_upto(s, keys, divider, order, st, order.len() as int)
}

// ----------------------------------------------------------------
// Delivering completions
// ----------------------------------------------------------------
/// Adds the first `j` delivered results to the stocks on hand.
pub open spec fn deliver_stocks(results: Seq<(usize, i64)>, stocks: Seq<i64>, j: int) -> Seq<i64>
    decreases j,
{
    if j <= 0 {
        stocks
    } else {
        let st = deliver_stocks(results, stocks, j - 1);
        let sid = results[j - 1].0 as int;
        st.update(sid, sat_add64(st[sid], results[j - 1].1 as int))
    }
}

/// Removes the first `j` delivered results from the pending ledger.
pub open spec fn deliver_pending(results: Seq<(usize, i64)>, pending: Seq<i64>, j: int) -> Seq<i64>
    decreases j,
{
    if j <= 0 {
        pending
    } else {
        let p = deliver_pending(results, pending, j - 1);
        let sid = results[j - 1].0 as int;
        p.update(sid, sub_floor0(p[sid], results[j - 1].1))
    }
}

/// Applies the completion at the front of the queue: its results move
/// from the pending ledger into the stocks on hand.
pub open spec fn apply_first_job(s: SimSpec, st: SimState) -> SimState {
    let res = s.spec_results_of(st.jobs[0].proc_id as int);
    SimState {
        time: st.time,
        stocks: deliver_stocks(res, st.stocks, res.len() as int),
        pending: deliver_pending(res, st.pending, res.len() as int),
        jobs: st.jobs.drop_first(),
    }
}

/// Applies every queued completion due at time `t`.
pub open spec fn deliver_due(s: SimSpec, st: SimState, t: i64) -> SimState
    decreases st.jobs.len(),
{
    if st.jobs.len() > 0 && st.jobs[0].finish_time == t {
        deliver_due(s, apply_first_job(s, st), t)
    } else {
        st
    }
}

/// The event-driven jump: time advances to the earliest queued
/// completion and everything due then is delivered.
pub open spec fn deliver_phase(s: SimSpec, st: SimState) -> SimState {
    if st.jobs.len() == 0 {
        st
    } else {
        let t = st.jobs[0].finish_time;
        let jumped = SimState { time: t, stocks: st.stocks, pending: st.pending, jobs: st.jobs };
        deliver_due(s, jumped, t)
    }
}

// ----------------------------------------------------------------
// The run
// ----------------------------------------------------------------
/// One tick: a full pass over the priority order, then — if anything
/// is in flight — the jump to the next completion.
pub open spec fn sim_step(s: SimSpec, keys: Seq<Key>, divider: i64, st: SimState) -> SimState {
    let st1 = run_pass(s, keys, divider, order_of(keys), st);
    if st1.jobs.len() == 0 {
        st1
    } else {
        deliver_phase(s, st1)
    }
}

/// A run stops when the horizon is reached, or when a pass leaves
/// nothing in flight (so nothing more can ever happen).
pub open spec fn sim_finished(
    s: SimSpec,
    keys: Seq<Key>,
    divider: i64,
    horizon: i64,
    st: SimState,
) -> bool {
    ||| st.time >= horizon
    ||| run_pass(s, keys, divider, order_of(keys), st).jobs.len() == 0
}

/// Iterates ticks from `st` until the run stops, for at most `fuel`
/// ticks.
pub open spec fn sim_run(
    s: SimSpec,
    keys: Seq<Key>,
    divider: i64,
    horizon: i64,
    st: SimState,
    fuel: nat,
) -> SimState
    decreases fuel,
{
    if sim_finished(s, keys, divider, horizon, st) {
        st
    } else if fuel == 0 {
        st
    } else {
        sim_run(s, keys, divider, horizon, sim_step(s, keys, divider, st), (fuel - 1) as nat)
    }
}

/// Enough ticks to reach any horizon: every tick that delivers moves
/// time forward by at least one cycle (durations are at least one).
pub open spec fn sim_fuel(horizon: i64) -> nat {
    if horizon <= 0 {
        0
    } else {
        horizon as nat
    }
}

/// The final state of one evaluation.
pub open spec fn sim_final(s: SimSpec, keys: Seq<Key>, divider: i64, horizon: i64) -> SimState {
    sim_run(s, keys, divider, horizon, init_state(s), sim_fuel(horizon))
}

/// The fitness of one evaluation: the final quantity of the target
/// stock.
pub open spec fn fitness_of(s: SimSpec, keys: Seq<Key>, divider: i64, horizon: i64) -> i64 {
    sim_final(s, keys, divider, horizon).stocks[s.target_stock_id as int]
}

// ----------------------------------------------------------------
// Well-formed run states
// ----------------------------------------------------------------
/// The queue invariant: events name real processes, finish strictly
/// after the current time, and sit in `(finish_time, proc_id)` order.
pub open spec fn wf_jobs(s: SimSpec, st: SimState) -> bool {
    &&& forall|j: int|
        0 <= j < st.jobs.len() ==> ((#[trigger] st.jobs[j]).proc_id < s.spec_n_procs()
            && st.jobs[j].finish_time > st.time)
    &&& forall|j1: int, j2: int| 0 <= j1 < j2 < st.jobs.len() ==> job_le(st.jobs[j1], st.jobs[j2])
}

/// The run-state invariant: nonnegative time, per-stock vectors of the
/// right length holding nonnegative quantities, and a well-formed
/// queue.
pub open spec fn wf_state(s: SimSpec, st: SimState) -> bool {
    &&& 0 <= st.time
    &&& st.stocks.len() == s.spec_n_stocks()
    &&& st.pending.len() == s.spec_n_stocks()
    &&& forall|i: int| 0 <= i < st.stocks.len() ==> 0 <= #[trigger] st.stocks[i]
    &&& forall|i: int| 0 <= i < st.pending.len() ==> 0 <= #[trigger] st.pending[i]
    &&& wf_jobs(s, st)
}

// ----------------------------------------------------------------
// The priority order lists every process index once, in bounds
// ----------------------------------------------------------------
pub proof fn lemma_insert_ordered_props(keys: Seq<Key>, ord: Seq<usize>, x: usize)
    ensures
        insert_ordered(keys, ord, x).len() == ord.len() + 1,
        forall|k: int|
            0 <= k < insert_ordered(keys, ord, x).len() ==> (#[trigger] insert_ordered(
                keys,
                ord,
                x,
            )[k] == x || ord.contains(insert_ordered(keys, ord, x)[k])),
    decreases ord.len(),
{
    if ord.len() == 0 {
    } else if prio_lt(keys, x, ord[0]) {
        assert forall|k: int|
            0 <= k < insert_ordered(keys, ord, x).len() implies (#[trigger] insert_ordered(
            keys,
            ord,
            x,
        )[k] == x || ord.contains(insert_ordered(keys, ord, x)[k])) by {
            if k > 0 {
                assert(insert_ordered(keys, ord, x)[k] == ord[k - 1]);
            }
        }
    } else {
        lemma_insert_ordered_props(keys, ord.drop_first(), x);
        let res = insert_ordered(keys, ord, x);
        let sub = insert_ordered(keys, ord.drop_first(), x);
        assert forall|k: int| 0 <= k < res.len() implies (#[trigger] res[k] == x || ord.contains(
            res[k],
        )) by {
            if k == 0 {
                assert(res[0] == ord[0]);
                assert(ord.contains(ord[0]));
            } else {
                assert(res[k] == sub[k - 1]);
                if sub[k - 1] != x {
                    let w = choose|w: int| 0 <= w < ord.drop_first().len() && ord.drop_first()[w]
                        == sub[k - 1];
                    assert(ord[w + 1] == sub[k - 1]);
                }
            }
        }
    }
}

pub proof fn lemma_order_rec_props(keys: Seq<Key>, n: int)
    requires
        0 <= n,
    ensures
        order_rec(keys, n).len() == n,
        forall|k: int| 0 <= k < n ==> #[trigger] order_rec(keys, n)[k] < n,
    decreases n,
{
    if n > 0 {
        lemma_order_rec_props(keys, n - 1);
        lemma_insert_ordered_props(keys, order_rec(keys, n - 1), (n - 1) as usize);
        let prev = order_rec(keys, n - 1);
        let res = order_rec(keys, n);
        assert forall|k: int| 0 <= k < n implies #[trigger] res[k] < n by {
            if res[k] != (n - 1) as usize {
                assert(prev.contains(res[k]));
                let w = choose|w: int| 0 <= w < prev.len() && prev[w] == res[k];
            }
        }
    }
}

/// The priority order is as long as the key vector and only names
/// process indices in range.
pub proof fn lemma_order_of_bounds(keys: Seq<Key>)
    ensures
        order_of(keys).len() == keys.len(),
        forall|k: int| 0 <= k < keys.len() ==> #[trigger] order_of(keys)[k] < keys.len(),
{
    lemma_order_rec_props(keys, keys.len() as int);
}

// ----------------------------------------------------------------
// The per-stock folds keep the vector length
// ----------------------------------------------------------------
pub proof fn lemma_mark_infinite_len(def: Seq<i64>, entries: Seq<(usize, i64)>, j: int)
    requires
        j <= entries.len(),
        wf_entries(entries, def.len() as int),
    ensures
        mark_infinite(def, entries, j).len() == def.len(),
    decreases j,
{
    if j > 0 {
        lemma_mark_infinite_len(def, entries, j - 1);
    }
}

pub proof fn lemma_add_shortfalls_len(
    needs: Seq<(usize, i64)>,
    stocks: Seq<i64>,
    def: Seq<i64>,
    j: int,
)
    requires
        j <= needs.len(),
        wf_entries(needs, def.len() as int),
    ensures
        add_shortfalls(needs, stocks, def, j).len() == def.len(),
    decreases j,
{
    if j > 0 {
        lemma_add_shortfalls_len(needs, stocks, def, j - 1);
    }
}

pub proof fn lemma_consume_needs_len(needs: Seq<(usize, i64)>, stocks: Seq<i64>, j: int)
    requires
        j <= needs.len(),
        wf_entries(needs, stocks.len() as int),
    ensures
        consume_needs(needs, stocks, j).len() == stocks.len(),
    decreases j,
{
    if j > 0 {
        lemma_consume_needs_len(needs, stocks, j - 1);
    }
}

pub proof fn lemma_add_pending_len(results: Seq<(usize, i64)>, pending: Seq<i64>, j: int)
    requires
        j <= results.len(),
        wf_entries(results, pending.len() as int),
    ensures
        add_pending(results, pending, j).len() == pending.len(),
    decreases j,
{
    if j > 0 {
        lemma_add_pending_len(results, pending, j - 1);
    }
}

pub proof fn lemma_deliver_stocks_len(results: Seq<(usize, i64)>, stocks: Seq<i64>, j: int)
    requires
        j <= results.len(),
        wf_entries(results, stocks.len() as int),
    ensures
        deliver_stocks(results, stocks, j).len() == stocks.len(),
    decreases j,
{
    if j > 0 {
        lemma_deliver_stocks_len(results, stocks, j - 1);
    }
}

pub proof fn lemma_deliver_pending_len(results: Seq<(usize, i64)>, pending: Seq<i64>, j: int)
    requires
        j <= results.len(),
        wf_entries(results, pending.len() as int),
    ensures
        deliver_pending(results, pending, j).len() == pending.len(),
    decreases j,
{
    if j > 0 {
        lemma_deliver_pending_len(results, pending, j - 1);
    }
}

/// The demand map always has one entry per stock id.
pub proof fn lemma_deficit_upto_len(s: SimSpec, order: Seq<usize>, stocks: Seq<i64>, k: int)
    requires
        wf_sim_spec(s),
        k <= order.len(),
        forall|p: int| 0 <= p < order.len() ==> #[trigger] order[p] < s.spec_n_procs(),
    ensures
        deficit_upto(s, order, stocks, k).len() == s.spec_n_stocks(),
    decreases k,
{
    if k <= 0 {
    } else {
        lemma_deficit_upto_len(s, order, stocks, k - 1);
        let prev = deficit_upto(s, order, stocks, k - 1);
        let hp = order[k - 1] as int;
        if k - 1 == 0 {
            lemma_mark_infinite_len(prev, s.spec_results_of(hp), s.spec_results_of(hp).len() as int);
            let d = mark_infinite(prev, s.spec_results_of(hp), s.spec_results_of(hp).len() as int);
            if s.spec_is_quantity_goal() {
                lemma_mark_infinite_len(d, s.spec_needs_of(hp), s.spec_needs_of(hp).len() as int);
            }
        }
        let def1 = if k - 1 == 0 {
            let d = mark_infinite(prev, s.spec_results_of(hp), s.spec_results_of(hp).len() as int);
            if s.spec_is_quantity_goal() {
                mark_infinite(d, s.spec_needs_of(hp), s.spec_needs_of(hp).len() as int)
            } else {
                d
            }
        } else {
            prev
        };
        if !needs_met(s.spec_needs_of(hp), stocks) {
            lemma_add_shortfalls_len(
                s.spec_needs_of(hp),
                stocks,
                def1,
                s.spec_needs_of(hp).len() as int,
            );
        }
    }
}

// ----------------------------------------------------------------
// Pointwise characterizations of the per-stock folds
// ----------------------------------------------------------------
/// Whether one of the first `j` entries names stock `sid`.
pub open spec fn has_id(entries: Seq<(usize, i64)>, j: int, sid: int) -> bool {
    exists|jj: int| 0 <= jj < j && (#[trigger] entries[jj]).0 == sid
}

/// Consuming distinct needs changes exactly the named slots, each by
/// its own quantity.
pub proof fn lemma_consume_needs_char(needs: Seq<(usize, i64)>, stocks: Seq<i64>, j: int)
    requires
        j <= needs.len(),
        wf_entries(needs, stocks.len() as int),
        distinct_ids(needs),
    ensures
        consume_needs(needs, stocks, j).len() == stocks.len(),
        forall|sid: int|
            0 <= sid < stocks.len() && !has_id(needs, j, sid) ==> consume_needs(needs, stocks, j)[sid]
                == stocks[sid],
        forall|jj: int|
            0 <= jj < j ==> consume_needs(needs, stocks, j)[#[trigger] needs[jj].0 as int] == clip64(
                stocks[needs[jj].0 as int] - needs[jj].1,
            ),
    decreases j,
{
    lemma_consume_needs_len(needs, stocks, j);
    if j > 0 {
        lemma_consume_needs_char(needs, stocks, j - 1);
        let prev = consume_needs(needs, stocks, j - 1);
        let sid = needs[j - 1].0 as int;
        assert(!has_id(needs, j - 1, sid));
        assert(prev[sid] == stocks[sid]);
        assert forall|jj: int|
            0 <= jj < j implies consume_needs(needs, stocks, j)[#[trigger] needs[jj].0 as int]
            == clip64(stocks[needs[jj].0 as int] - needs[jj].1) by {
            if jj < j - 1 {
                assert(needs[jj].0 != needs[j - 1].0);
            }
        }
    }
}

/// Promising nonnegative results keeps the ledger nonnegative.
pub proof fn lemma_add_pending_nonneg(results: Seq<(usize, i64)>, pending: Seq<i64>, j: int)
    requires
        j <= results.len(),
        wf_entries(results, pending.len() as int),
        forall|i: int| 0 <= i < pending.len() ==> 0 <= #[trigger] pending[i],
    ensures
        add_pending(results, pending, j).len() == pending.len(),
        forall|i: int|
            0 <= i < pending.len() ==> 0 <= #[trigger] add_pending(results, pending, j)[i],
        forall|i: int|
            0 <= i < pending.len() ==> #[trigger] add_pending(results, pending, j)[i] >= pending[i],
    decreases j,
{
    lemma_add_pending_len(results, pending, j);
    if j > 0 {
        lemma_add_pending_nonneg(results, pending, j - 1);
    }
}

/// Delivering results only raises the stocks on hand.
pub proof fn lemma_deliver_stocks_monotone(results: Seq<(usize, i64)>, stocks: Seq<i64>, j: int)
    requires
        j <= results.len(),
        wf_entries(results, stocks.len() as int),
    ensures
        deliver_stocks(results, stocks, j).len() == stocks.len(),
        forall|i: int|
            0 <= i < stocks.len() ==> #[trigger] deliver_stocks(results, stocks, j)[i] >= stocks[i],
    decreases j,
{
    lemma_deliver_stocks_len(results, stocks, j);
    if j > 0 {
        lemma_deliver_stocks_monotone(results, stocks, j - 1);
    }
}

/// Settling promises keeps the ledger nonnegative.
pub proof fn lemma_deliver_pending_nonneg(results: Seq<(usize, i64)>, pending: Seq<i64>, j: int)
    requires
        j <= results.len(),
        wf_entries(results, pending.len() as int),
        forall|i: int| 0 <= i < pending.len() ==> 0 <= #[trigger] pending[i],
    ensures
        deliver_pending(results, pending, j).len() == pending.len(),
        forall|i: int|
            0 <= i < pending.len() ==> 0 <= #[trigger] deliver_pending(results, pending, j)[i],
    decreases j,
{
    lemma_deliver_pending_len(results, pending, j);
    if j > 0 {
        lemma_deliver_pending_nonneg(results, pending, j - 1);
    }
}

// ----------------------------------------------------------------
// The completion queue stays ordered
// ----------------------------------------------------------------
/// The queue order, over a whole sequence.
pub open spec fn jobs_sorted(jobs: Seq<Job>) -> bool {
    forall|j1: int, j2: int| 0 <= j1 < j2 < jobs.len() ==> job_le(#[trigger] jobs[j1], #[trigger] jobs[j2])
}

pub proof fn lemma_insert_job_props(jobs: Seq<Job>, x: Job)
    ensures
        insert_job(jobs, x).len() == jobs.len() + 1,
        forall|k: int|
            0 <= k < insert_job(jobs, x).len() ==> (#[trigger] insert_job(jobs, x)[k] == x
                || jobs.contains(insert_job(jobs, x)[k])),
        jobs_sorted(jobs) ==> jobs_sorted(insert_job(jobs, x)),
    decreases jobs.len(),
{
    let res = insert_job(jobs, x);
    if jobs.len() == 0 {
    } else if job_le(jobs[0], x) {
        lemma_insert_job_props(jobs.drop_first(), x);
        let sub = insert_job(jobs.drop_first(), x);
        assert forall|k: int| 0 <= k < res.len() implies (#[trigger] res[k] == x || jobs.contains(
            res[k],
        )) by {
            if k == 0 {
                assert(jobs.contains(jobs[0]));
            } else {
                assert(res[k] == sub[k - 1]);
                if sub[k - 1] != x {
                    let w = choose|w: int| 0 <= w < jobs.drop_first().len() && jobs.drop_first()[w]
                        == sub[k - 1];
                    assert(jobs[w + 1] == sub[k - 1]);
                }
            }
        }
        if jobs_sorted(jobs) {
            assert(jobs_sorted(jobs.drop_first()));
            assert forall|j1: int, j2: int| 0 <= j1 < j2 < res.len() implies job_le(
                #[trigger] res[j1],
                #[trigger] res[j2],
            ) by {
                if j1 == 0 {
                    if res[j2] == x {
                    } else {
                        let w = choose|w: int| 0 <= w < jobs.drop_first().len()
                            && jobs.drop_first()[w] == sub[j2 - 1];
                        assert(jobs[w + 1] == res[j2]);
                    }
                } else {
                    assert(res[j1] == sub[j1 - 1] && res[j2] == sub[j2 - 1]);
                }
            }
        }
    } else {
        assert forall|k: int| 0 <= k < res.len() implies (#[trigger] res[k] == x || jobs.contains(
            res[k],
        )) by {
            if k > 0 {
                assert(res[k] == jobs[k - 1]);
                assert(jobs.contains(jobs[k - 1]));
            }
        }
        if jobs_sorted(jobs) {
            assert forall|j1: int, j2: int| 0 <= j1 < j2 < res.len() implies job_le(
                #[trigger] res[j1],
                #[trigger] res[j2],
            ) by {
                if j1 == 0 {
                    assert(res[j2] == jobs[j2 - 1]);
                    if j2 - 1 == 0 {
                        assert(job_le(x, jobs[0]));
                    } else {
                        assert(job_le(jobs[0], jobs[j2 - 1]));
                        assert(job_le(x, jobs[0]));
                    }
                } else {
                    assert(res[j1] == jobs[j1 - 1] && res[j2] == jobs[j2 - 1]);
                }
            }
        }
    }
}

// ----------------------------------------------------------------
// One tick preserves the run-state invariant
// ----------------------------------------------------------------
/// A priority order fit for the specification: one entry per process,
/// all in range.
pub open spec fn order_ok(s: SimSpec, order: Seq<usize>) -> bool {
    &&& order.len() == s.spec_n_procs()
    &&& forall|p: int| 0 <= p < order.len() ==> #[trigger] order[p] < s.spec_n_procs()
}

pub proof fn lemma_start_proc_wf(s: SimSpec, order: Seq<usize>, st: SimState, pos: int)
    requires
        wf_sim_spec(s),
        order_ok(s, order),
        0 <= pos < order.len(),
        wf_state(s, st),
        st.time < i64::MAX,
        needs_met(s.spec_needs_of(order[pos] as int), st.stocks),
    ensures
        wf_state(s, start_proc(s, order, st, pos)),
        start_proc(s, order, st, pos).time == st.time,
        start_proc(s, order, st, pos).jobs.len() == st.jobs.len() + 1,
    decreases 0int,
{
    let pid = order[pos] as int;
    let needs = s.spec_needs_of(pid);
    let results = s.spec_results_of(pid);
    let res = start_proc(s, order, st, pos);
    lemma_consume_needs_char(needs, st.stocks, needs.len() as int);
    assert forall|i: int| 0 <= i < res.stocks.len() implies 0 <= #[trigger] res.stocks[i] by {
        if has_id(needs, needs.len() as int, i) {
            let jj = choose|jj: int|
                0 <= jj < needs.len() && (#[trigger] needs[jj]).0 == i;
            assert(res.stocks[needs[jj].0 as int] == clip64(
                st.stocks[needs[jj].0 as int] - needs[jj].1,
            ));
            assert(st.stocks[needs[jj].0 as int] >= needs[jj].1);
            assert(needs[jj].1 >= 0);
            assert(0 <= st.stocks[i] - needs[jj].1 <= i64::MAX);
        } else {
            assert(res.stocks[i] == st.stocks[i]);
        }
    }
    lemma_add_pending_nonneg(results, st.pending, results.len() as int);
    let job = Job {
        finish_time: sat_add64(st.time, s.durations@[pid] as int),
        proc_id: order[pos],
    };
    assert(1 <= s.durations@[pid]);
    assert(job.finish_time > st.time);
    lemma_insert_job_props(st.jobs, job);
    assert forall|j: int| 0 <= j < res.jobs.len() implies ((#[trigger] res.jobs[j]).proc_id
        < s.spec_n_procs() && res.jobs[j].finish_time > res.time) by {
        if res.jobs[j] != job {
            assert(st.jobs.contains(res.jobs[j]));
            let w = choose|w: int| 0 <= w < st.jobs.len() && st.jobs[w] == res.jobs[j];
        }
    }
}

pub proof fn lemma_step_proc_wf(
    s: SimSpec,
    keys: Seq<Key>,
    divider: i64,
    order: Seq<usize>,
    st: SimState,
    pos: int,
)
    requires
        wf_sim_spec(s),
        order_ok(s, order),
        0 <= pos < order.len(),
        wf_state(s, st),
        st.time < i64::MAX,
    ensures
        wf_state(s, step_proc(s, keys, divider, order, st, pos)),
        step_proc(s, keys, divider, order, st, pos).time == st.time,
        step_proc(s, keys, divider, order, st, pos).jobs.len() >= st.jobs.len(),
        step_proc(s, keys, divider, order, st, pos).jobs.len() == st.jobs.len() ==> step_proc(
            s,
            keys,
            divider,
            order,
            st,
            pos,
        ) == st,
{
    if proc_starts(s, keys, divider, order, st, pos) {
        lemma_start_proc_wf(s, order, st, pos);
    }
}

pub proof fn lemma_pass_upto_wf(
    s: SimSpec,
    keys: Seq<Key>,
    divider: i64,
    order: Seq<usize>,
    st: SimState,
    pos: int,
)
    requires
        wf_sim_spec(s),
        order_ok(s, order),
        0 <= pos <= order.len(),
        wf_state(s, st),
        st.time < i64::MAX,
    ensures
        wf_state(s, pass_upto(s, keys, divider, order, st, pos)),
        pass_upto(s, keys, divider, order, st, pos).time == st.time,
        pass_upto(s, keys, divider, order, st, pos).jobs.len() >= st.jobs.len(),
        pass_upto(s, keys, divider, order, st, pos).jobs.len() == st.jobs.len() ==> pass_upto(
            s,
            keys,
            divider,
            order,
            st,
            pos,
        ) == st,
    decreases pos,
{
    if pos > 0 {
        lemma_pass_upto_wf(s, keys, divider, order, st, pos - 1);
        lemma_step_proc_wf(
            s,
            keys,
            divider,
            order,
            pass_upto(s, keys, divider, order, st, pos - 1),
            pos - 1,
        );
    }
}

/// A pass that leaves the queue empty started nothing and changed
/// nothing.
pub proof fn lemma_pass_empty_is_noop(
    s: SimSpec,
    keys: Seq<Key>,
    divider: i64,
    order: Seq<usize>,
    st: SimState,
)
    requires
        wf_sim_spec(s),
        order_ok(s, order),
        wf_state(s, st),
        st.time < i64::MAX,
        run_pass(s, keys, divider, order, st).jobs.len() == 0,
    ensures
        run_pass(s, keys, divider, order, st) == st,
{
    lemma_pass_upto_wf(s, keys, divider, order, st, order.len() as int);
}

// ----------------------------------------------------------------
// Delivery preserves the run-state invariant and advances time
// ----------------------------------------------------------------
pub proof fn lemma_deliver_due_props(s: SimSpec, st: SimState, t: i64)
    requires
        wf_sim_spec(s),
        st.time == t,
        0 <= t,
        st.stocks.len() == s.spec_n_stocks(),
        st.pending.len() == s.spec_n_stocks(),
        forall|i: int| 0 <= i < st.stocks.len() ==> 0 <= #[trigger] st.stocks[i],
        forall|i: int| 0 <= i < st.pending.len() ==> 0 <= #[trigger] st.pending[i],
        jobs_sorted(st.jobs),
        forall|j: int|
            0 <= j < st.jobs.len() ==> ((#[trigger] st.jobs[j]).proc_id < s.spec_n_procs()
                && st.jobs[j].finish_time >= t),
    ensures
        ({
            let res = deliver_due(s, st, t);
            &&& res.time == t
            &&& res.stocks.len() == s.spec_n_stocks()
            &&& res.pending.len() == s.spec_n_stocks()
            &&& forall|i: int| 0 <= i < res.stocks.len() ==> 0 <= #[trigger] res.stocks[i]
            &&& forall|i: int| 0 <= i < res.pending.len() ==> 0 <= #[trigger] res.pending[i]
            &&& forall|i: int| 0 <= i < res.stocks.len() ==> #[trigger] res.stocks[i] >= st.stocks[i]
            &&& jobs_sorted(res.jobs)
            &&& forall|j: int|
                0 <= j < res.jobs.len() ==> ((#[trigger] res.jobs[j]).proc_id < s.spec_n_procs()
                    && res.jobs[j].finish_time > t)
        }),
    decreases st.jobs.len(),
{
    if st.jobs.len() > 0 && st.jobs[0].finish_time == t {
        let front = st.jobs[0];
        let results = s.spec_results_of(front.proc_id as int);
        lemma_deliver_stocks_monotone(results, st.stocks, results.len() as int);
        lemma_deliver_pending_nonneg(results, st.pending, results.len() as int);
        let mid = apply_first_job(s, st);
        assert(forall|j: int|
            0 <= j < mid.jobs.len() ==> mid.jobs[j] == #[trigger] st.jobs[j + 1]);
        lemma_deliver_due_props(s, mid, t);
    } else {
        if st.jobs.len() > 0 {
            assert forall|j: int| 0 <= j < st.jobs.len() implies ((#[trigger] st.jobs[j]).proc_id
                < s.spec_n_procs() && st.jobs[j].finish_time > t) by {
                if j > 0 {
                    assert(job_le(st.jobs[0], st.jobs[j]));
                }
            }
        }
    }
}

pub proof fn lemma_deliver_phase_wf(s: SimSpec, st: SimState)
    requires
        wf_sim_spec(s),
        wf_state(s, st),
        st.jobs.len() > 0,
    ensures
        wf_state(s, deliver_phase(s, st)),
        deliver_phase(s, st).time == st.jobs[0].finish_time,
        deliver_phase(s, st).time > st.time,
        forall|i: int|
            0 <= i < st.stocks.len() ==> #[trigger] deliver_phase(s, st).stocks[i] >= st.stocks[i],
{
    let t = st.jobs[0].finish_time;
    let jumped = SimState { time: t, stocks: st.stocks, pending: st.pending, jobs: st.jobs };
    assert forall|j: int| 0 <= j < jumped.jobs.len() implies ((#[trigger] jumped.jobs[j]).proc_id
        < s.spec_n_procs() && jumped.jobs[j].finish_time >= t) by {
        if j > 0 {
            assert(job_le(st.jobs[0], st.jobs[j]));
        }
    }
    lemma_deliver_due_props(s, jumped, t);
}

// ----------------------------------------------------------------
// Whole ticks and whole runs
// ----------------------------------------------------------------
pub proof fn lemma_sim_step_wf(s: SimSpec, keys: Seq<Key>, divider: i64, st: SimState)
    requires
        wf_sim_spec(s),
        keys.len() == s.spec_n_procs(),
        wf_state(s, st),
        st.time < i64::MAX,
    ensures
        wf_state(s, sim_step(s, keys, divider, st)),
        sim_step(s, keys, divider, st).time >= st.time,
        run_pass(s, keys, divider, order_of(keys), st).jobs.len() > 0 ==> sim_step(
            s,
            keys,
            divider,
            st,
        ).time > st.time,
{
    let order = order_of(keys);
    lemma_order_of_bounds(keys);
    lemma_pass_upto_wf(s, keys, divider, order, st, order.len() as int);
    let st1 = run_pass(s, keys, divider, order, st);
    if st1.jobs.len() > 0 {
        lemma_deliver_phase_wf(s, st1);
    }
}

/// A finished state is a fixed point of the run.
pub proof fn lemma_finished_fixed(
    s: SimSpec,
    keys: Seq<Key>,
    divider: i64,
    horizon: i64,
    st: SimState,
    fuel: nat,
)
    requires
        sim_finished(s, keys, divider, horizon, st),
    ensures
        sim_run(s, keys, divider, horizon, st, fuel) == st,
{
}

/// Fuel composes: running `a + b` ticks is running `a`, then `b`.
pub proof fn lemma_sim_run_add(
    s: SimSpec,
    keys: Seq<Key>,
    divider: i64,
    horizon: i64,
    st: SimState,
    a: nat,
    b: nat,
)
    ensures
        sim_run(s, keys, divider, horizon, st, a + b) == sim_run(
            s,
            keys,
            divider,
            horizon,
            sim_run(s, keys, divider, horizon, st, a),
            b,
        ),
    decreases a,
{
    if sim_finished(s, keys, divider, horizon, st) {
    } else if a == 0 {
    } else {
        lemma_sim_run_add(s, keys, divider, horizon, sim_step(s, keys, divider, st), (a - 1) as nat, b);
    }
}

/// Every state a run passes through is well formed, and time never
/// moves backward.
pub proof fn lemma_sim_run_wf(
    s: SimSpec,
    keys: Seq<Key>,
    divider: i64,
    horizon: i64,
    st: SimState,
    fuel: nat,
)
    requires
        wf_sim_spec(s),
        keys.len() == s.spec_n_procs(),
        wf_state(s, st),
    ensures
        wf_state(s, sim_run(s, keys, divider, horizon, st, fuel)),
        sim_run(s, keys, divider, horizon, st, fuel).time >= st.time,
    decreases fuel,
{
    if !sim_finished(s, keys, divider, horizon, st) && fuel > 0 {
        assert(st.time < horizon);
        lemma_sim_step_wf(s, keys, divider, st);
        lemma_sim_run_wf(s, keys, divider, horizon, sim_step(s, keys, divider, st), (fuel - 1) as nat);
    }
}

/// The initial state is well formed.
pub proof fn lemma_init_state_wf(s: SimSpec)
    requires
        wf_sim_spec(s),
    ensures
        wf_state(s, init_state(s)),
{
}

} // verus!
