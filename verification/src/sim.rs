//! The executable simulator.  Every function here returns exactly what
//! the corresponding function of the model describes.

use vstd::prelude::*;
use crate::domain::Job;
use crate::domain::SimSpec;
use crate::domain::wf_entries;
use crate::domain::wf_sim_spec;
use crate::genome::Genome;
use crate::genome::Key;
use crate::genome::wf_genome_for;
use crate::model::add_pending;
use crate::model::apply_first_job;
use crate::model::add_shortfalls;
use crate::model::clip64;
use crate::model::consume_needs;
use crate::model::deficit_upto;
use crate::model::deliver_due;
use crate::model::deliver_pending;
use crate::model::deliver_phase;
use crate::model::deliver_stocks;
use crate::model::init_state;
use crate::model::insert_job;
use crate::model::insert_ordered;
use crate::model::job_le;
use crate::model::jobs_sorted;
use crate::model::lemma_deliver_pending_nonneg;
use crate::model::lemma_deliver_stocks_monotone;
use crate::model::lemma_finished_fixed;
use crate::model::lemma_init_state_wf;
use crate::model::lemma_insert_job_props;
use crate::model::lemma_order_of_bounds;
use crate::model::lemma_order_rec_props;
use crate::model::lemma_pass_empty_is_noop;
use crate::model::lemma_pass_upto_wf;
use crate::model::lemma_sim_run_add;
use crate::model::lemma_sim_step_wf;
use crate::model::lemma_step_proc_wf;
use crate::model::mark_infinite;
use crate::model::needs_met;
use crate::model::order_of;
use crate::model::order_ok;
use crate::model::order_rec;
use crate::model::pass_upto;
use crate::model::prio_lt;
use crate::model::proc_starts;
use crate::model::run_pass;
use crate::model::sat_add64;
use crate::model::should_run_at;
use crate::model::sim_fuel;
use crate::model::sim_final;
use crate::model::sim_finished;
use crate::model::sim_run;
use crate::model::sim_step;
use crate::model::start_proc;
use crate::model::step_proc;
use crate::model::sub_floor0;
use crate::model::wf_state;
use crate::model::zero_seq;
use crate::model::SimState;

verus! {

/// The observable state of one finished simulation run.
pub struct Sim {
    pub time: i64,
    pub stocks: Vec<i64>,
    pub running: Vec<Job>,
}

// ----------------------------------------------------------------
// Saturating arithmetic
// ----------------------------------------------------------------
fn add_clip(a: i64, b: i64) -> (r: i64)
    ensures
        r == sat_add64(a, b as int),
{
    match a.checked_add(b) {
        Some(r) => r,
        None => if b >= 0 {
            i64::MAX
        } else {
            i64::MIN
        },
    }
}

fn sub_clip(a: i64, b: i64) -> (r: i64)
    ensures
        r == clip64(a as int - b as int),
{
    match a.checked_sub(b) {
        Some(r) => r,
        None => if b >= 0 {
            i64::MIN
        } else {
            i64::MAX
        },
    }
}

fn sub_floor(a: i64, b: i64) -> (r: i64)
    ensures
        r == sub_floor0(a, b),
{
    let d = sub_clip(a, b);
    if d < 0 {
        0
    } else {
        d
    }
}

/// Truncating division of a nonnegative ledger entry by the divider.
pub(crate) fn divider_quot(p: i64, d: i32) -> (r: i64)
    requires
        p >= 0,
        d >= 1,
    ensures
        r == p as int / d as int,
{
    let pu = p as u64;
    let du = d as u64;
    let q = pu / du;
    proof {
        assert(pu as int / du as int <= pu as int) by (nonlinear_arith)
            requires
                pu >= 0,
                du >= 1,
        ;
    }
    q as i64
}

// ----------------------------------------------------------------
// Priority order
// ----------------------------------------------------------------
/// Decides `prio_lt`.
fn key_before(keys: &Vec<Key>, i: usize, j: usize) -> (b: bool)
    requires
        i < keys@.len(),
        j < keys@.len(),
    ensures
        b == prio_lt(keys@, i, j),
{
    let ki = keys[i];
    let kj = keys[j];
    match (ki, kj) {
        (Key::Active(x), Key::Active(y)) => x < y || (x == y && i < j),
        (Key::Active(_), Key::Disabled) => true,
        (Key::Disabled, Key::Active(_)) => false,
        (Key::Disabled, Key::Disabled) => i < j,
    }
}

proof fn lemma_insert_ordered_split(keys: Seq<Key>, ord: Seq<usize>, x: usize, p: int)
    requires
        0 <= p <= ord.len(),
        forall|q: int| 0 <= q < p ==> !prio_lt(keys, x, #[trigger] ord[q]),
        p < ord.len() ==> prio_lt(keys, x, ord[p]),
    ensures
        insert_ordered(keys, ord, x) == ord.subrange(0, p).push(x) + ord.subrange(
            p,
            ord.len() as int,
        ),
    decreases ord.len(),
{
    if ord.len() == 0 {
        assert(insert_ordered(keys, ord, x) =~= ord.subrange(0, p).push(x) + ord.subrange(
            p,
            ord.len() as int,
        ));
    } else if prio_lt(keys, x, ord[0]) {
        assert(p == 0);
        assert(insert_ordered(keys, ord, x) =~= ord.subrange(0, p).push(x) + ord.subrange(
            p,
            ord.len() as int,
        ));
    } else {
        assert(p >= 1);
        let rest = ord.drop_first();
        assert(forall|q: int| 0 <= q < p - 1 ==> !prio_lt(keys, x, #[trigger] rest[q]));
        assert(p - 1 < rest.len() ==> prio_lt(keys, x, rest[p - 1]));
        lemma_insert_ordered_split(keys, rest, x, p - 1);
        assert(insert_ordered(keys, ord, x) =~= ord.subrange(0, p).push(x) + ord.subrange(
            p,
            ord.len() as int,
        ));
    }
}

/// The priority order induced by a key vector: all process indices,
/// sorted ascending by key, ties broken by process id; disabled
/// processes sort last.
pub fn priority_from_keys(keys: &Vec<Key>) -> (order: Vec<usize>)
    ensures
        order@ == order_of(keys@),
        order@.len() == keys@.len(),
        forall|k: int| 0 <= k < order@.len() ==> #[trigger] order@[k] < keys@.len(),
{
    let n = keys.len();
    let mut order: Vec<usize> = Vec::new();
    let mut i: usize = 0;
    while i < n
        invariant
            0 <= i <= n,
            n == keys@.len(),
            order@ == order_rec(keys@, i as int),
            order@.len() == i,
            forall|k: int| 0 <= k < order@.len() ==> #[trigger] order@[k] < i,
        decreases n - i,
    {
        let m = order.len();
        let mut pos: usize = 0;
        while pos < m && !key_before(keys, i, order[pos])
            invariant
                0 <= pos <= m,
                m == order@.len(),
                i < n,
                n == keys@.len(),
                forall|k: int| 0 <= k < order@.len() ==> #[trigger] order@[k] < i,
                forall|q: int| 0 <= q < pos ==> !prio_lt(keys@, i, #[trigger] order@[q]),
            decreases m - pos,
        {
            pos = pos + 1;
        }
        proof {
            lemma_insert_ordered_split(keys@, order@, i, pos as int);
        }
        order.insert(pos, i);
        proof {
            assert(order@ =~= insert_ordered(keys@, order_rec(keys@, i as int), i));
            lemma_order_rec_props(keys@, i as int + 1);
        }
        i = i + 1;
    }
    proof {
        lemma_order_of_bounds(keys@);
    }
    order
}

// ----------------------------------------------------------------
// Admission and demand
// ----------------------------------------------------------------
/// Whether every need of a process is covered by the stocks on hand.
pub fn inputs_available(needs: &Vec<(usize, i64)>, stocks: &Vec<i64>) -> (b: bool)
    requires
        wf_entries(needs@, stocks@.len() as int),
    ensures
        b == needs_met(needs@, stocks@),
{
    let n = needs.len();
    let mut j: usize = 0;
    while j < n
        invariant
            0 <= j <= n,
            n == needs@.len(),
            wf_entries(needs@, stocks@.len() as int),
            forall|q: int| 0 <= q < j ==> stocks@[#[trigger] needs@[q].0 as int] >= needs@[q].1,
        decreases n - j,
    {
        let (sid, qty) = needs[j];
        if stocks[sid] < qty {
            return false;
        }
        j = j + 1;
    }
    true
}

/// The demand map accumulated over the first `pos` positions of the
/// priority order: the top process's results (and, under a quantity
/// goal, its needs) are demanded without bound, and every blocked
/// process adds its per-stock shortfalls, saturating rather than
/// overflowing.
pub fn deficits_for_higher_priority(
    order: &Vec<usize>,
    pos: usize,
    spec: &SimSpec,
    stocks: &Vec<i64>,
) -> (def: Vec<i64>)
    requires
        wf_sim_spec(*spec),
        pos <= order@.len(),
        forall|p: int| 0 <= p < order@.len() ==> #[trigger] order@[p] < spec.spec_n_procs(),
        stocks@.len() == spec.spec_n_stocks(),
        forall|i: int| 0 <= i < stocks@.len() ==> 0 <= #[trigger] stocks@[i],
    ensures
        def@ == deficit_upto(*spec, order@, stocks@, pos as int),
        def@.len() == spec.spec_n_stocks(),
{
    let n_stocks = stocks.len();
    let mut def: Vec<i64> = Vec::new();
    let mut z: usize = 0;
    while z < n_stocks
        invariant
            0 <= z <= n_stocks,
            def@.len() == z,
            forall|k: int| 0 <= k < z ==> #[trigger] def@[k] == 0i64,
        decreases n_stocks - z,
    {
        def.push(0);
        z = z + 1;
    }
    proof {
        assert(def@ =~= zero_seq(spec.spec_n_stocks()));
    }
    let mut pidx: usize = 0;
    while pidx < pos
        invariant
            0 <= pidx <= pos,
            pos <= order@.len(),
            wf_sim_spec(*spec),
            forall|p: int| 0 <= p < order@.len() ==> #[trigger] order@[p] < spec.spec_n_procs(),
            stocks@.len() == spec.spec_n_stocks(),
            forall|i: int| 0 <= i < stocks@.len() ==> 0 <= #[trigger] stocks@[i],
            def@ == deficit_upto(*spec, order@, stocks@, pidx as int),
            def@.len() == spec.spec_n_stocks(),
        decreases pos - pidx,
    {
        let ghost def_in = def@;
        let hp = order[pidx];
        if pidx == 0 {
            let results = &spec.results[hp];
            let rn = results.len();
            let mut j: usize = 0;
            while j < rn
                invariant
                    0 <= j <= rn,
                    hp < spec.spec_n_procs(),
                    rn == spec.spec_results_of(hp as int).len(),
                    results@ == spec.spec_results_of(hp as int),
                    wf_sim_spec(*spec),
                    def@.len() == spec.spec_n_stocks(),
                    def@ == mark_infinite(def_in, results@, j as int),
                decreases rn - j,
            {
                let (sid, _) = results[j];
                def.set(sid, i64::MAX);
                j = j + 1;
            }
            let ghost def_mid = def@;
            if matches!(spec.optimize, crate::domain::Optimize::Quantity(_)) {
                let needs = &spec.needs[hp];
                let nn = needs.len();
                let mut j2: usize = 0;
                while j2 < nn
                    invariant
                        0 <= j2 <= nn,
                        hp < spec.spec_n_procs(),
                        nn == spec.spec_needs_of(hp as int).len(),
                        needs@ == spec.spec_needs_of(hp as int),
                        wf_sim_spec(*spec),
                        def@.len() == spec.spec_n_stocks(),
                        def@ == mark_infinite(def_mid, needs@, j2 as int),
                    decreases nn - j2,
                {
                    let (sid, _) = needs[j2];
                    def.set(sid, i64::MAX);
                    j2 = j2 + 1;
                }
            }
        }
        let ghost def1 = def@;
        proof {
            assert(wf_entries(spec.spec_needs_of(hp as int), spec.spec_n_stocks()));
        }
        if !inputs_available(&spec.needs[hp], stocks) {
            let needs = &spec.needs[hp];
            let nn = needs.len();
            let mut j3: usize = 0;
            while j3 < nn
                invariant
                    0 <= j3 <= nn,
                    hp < spec.spec_n_procs(),
                    nn == spec.spec_needs_of(hp as int).len(),
                    needs@ == spec.spec_needs_of(hp as int),
                    wf_sim_spec(*spec),
                    stocks@.len() == spec.spec_n_stocks(),
                    forall|i: int| 0 <= i < stocks@.len() ==> 0 <= #[trigger] stocks@[i],
                    def@.len() == spec.spec_n_stocks(),
                    def@ == add_shortfalls(needs@, stocks@, def1, j3 as int),
                decreases nn - j3,
            {
                let (sid, qty) = needs[j3];
                let have = stocks[sid];
                let shortfall = sub_clip(qty, have);
                if shortfall > 0 {
                    let cur = def[sid];
                    def.set(sid, add_clip(cur, shortfall));
                }
                j3 = j3 + 1;
            }
        }
        pidx = pidx + 1;
    }
    def
}

/// The start decision: some result stock of process `pid` is demanded
/// strictly more than its pending amount divided by the divider.
fn check_should_run(
    spec: &SimSpec,
    pid: usize,
    def: &Vec<i64>,
    pending: &Vec<i64>,
    divider: i32,
    Ghost(order): Ghost<Seq<usize>>,
    Ghost(stocks): Ghost<Seq<i64>>,
    Ghost(pos): Ghost<int>,
) -> (b: bool)
    requires
        wf_sim_spec(*spec),
        pid < spec.spec_n_procs(),
        0 <= pos < order.len(),
        order[pos] == pid,
        def@ == deficit_upto(*spec, order, stocks, pos + 1),
        def@.len() == spec.spec_n_stocks(),
        pending@.len() == spec.spec_n_stocks(),
        forall|i: int| 0 <= i < pending@.len() ==> 0 <= #[trigger] pending@[i],
        divider >= 1,
    ensures
        b == should_run_at(*spec, order, stocks, pending@, divider as i64, pos),
{
    let results = &spec.results[pid];
    let rn = results.len();
    let mut j: usize = 0;
    while j < rn
        invariant
            0 <= j <= rn,
            pid < spec.spec_n_procs(),
            rn == spec.spec_results_of(pid as int).len(),
            results@ == spec.spec_results_of(pid as int),
            wf_sim_spec(*spec),
            def@.len() == spec.spec_n_stocks(),
            pending@.len() == spec.spec_n_stocks(),
            forall|i: int| 0 <= i < pending@.len() ==> 0 <= #[trigger] pending@[i],
            divider >= 1,
            0 <= pos < order.len(),
            order[pos] == pid,
            def@ == deficit_upto(*spec, order, stocks, pos + 1),
            forall|q: int|
                0 <= q < j ==> !(def@[#[trigger] spec.spec_results_of(pid as int)[q].0 as int]
                    > pending@[spec.spec_results_of(pid as int)[q].0 as int] as int / (divider
                    as i64) as int),
        decreases rn - j,
    {
        let (sid, _) = results[j];
        let quot = divider_quot(pending[sid], divider);
        if def[sid] > quot {
            proof {
                let pid_m = order[pos] as int;
                let defm = deficit_upto(*spec, order, stocks, pos + 1);
                assert(spec.spec_results_of(pid_m)[j as int].0 == sid);
                assert(defm[spec.spec_results_of(pid_m)[j as int].0 as int] > pending@[
                    spec.spec_results_of(pid_m)[j as int].0 as int] as int / (divider as i64)
                    as int);
            }
            return true;
        }
        proof {
            assert(spec.spec_results_of(pid as int)[j as int].0 == sid);
        }
        j = j + 1;
    }
    false
}

// ----------------------------------------------------------------
// State updates
// ----------------------------------------------------------------
/// Subtracts a started process's needs from the stocks on hand.
fn apply_consume(stocks: &mut Vec<i64>, needs: &Vec<(usize, i64)>)
    requires
        wf_entries(needs@, old(stocks)@.len() as int),
    ensures
        final(stocks)@ == consume_needs(needs@, old(stocks)@, needs@.len() as int),
        final(stocks)@.len() == old(stocks)@.len(),
{
    let n = needs.len();
    let mut j: usize = 0;
    while j < n
        invariant
            0 <= j <= n,
            n == needs@.len(),
            wf_entries(needs@, old(stocks)@.len() as int),
            stocks@ == consume_needs(needs@, old(stocks)@, j as int),
            stocks@.len() == old(stocks)@.len(),
        decreases n - j,
    {
        let (sid, qty) = needs[j];
        let cur = stocks[sid];
        stocks.set(sid, sub_clip(cur, qty));
        j = j + 1;
    }
}

/// Adds a started process's promised results to the pending ledger.
fn apply_add_pending(pending: &mut Vec<i64>, results: &Vec<(usize, i64)>)
    requires
        wf_entries(results@, old(pending)@.len() as int),
    ensures
        final(pending)@ == add_pending(results@, old(pending)@, results@.len() as int),
        final(pending)@.len() == old(pending)@.len(),
{
    let n = results.len();
    let mut j: usize = 0;
    while j < n
        invariant
            0 <= j <= n,
            n == results@.len(),
            wf_entries(results@, old(pending)@.len() as int),
            pending@ == add_pending(results@, old(pending)@, j as int),
            pending@.len() == old(pending)@.len(),
        decreases n - j,
    {
        let (sid, qty) = results[j];
        let cur = pending[sid];
        pending.set(sid, add_clip(cur, qty));
        j = j + 1;
    }
}

/// Adds a delivered job's results to the stocks on hand.
fn apply_deliver_stocks(stocks: &mut Vec<i64>, results: &Vec<(usize, i64)>)
    requires
        wf_entries(results@, old(stocks)@.len() as int),
    ensures
        final(stocks)@ == deliver_stocks(results@, old(stocks)@, results@.len() as int),
        final(stocks)@.len() == old(stocks)@.len(),
{
    let n = results.len();
    let mut j: usize = 0;
    while j < n
        invariant
            0 <= j <= n,
            n == results@.len(),
            wf_entries(results@, old(stocks)@.len() as int),
            stocks@ == deliver_stocks(results@, old(stocks)@, j as int),
            stocks@.len() == old(stocks)@.len(),
        decreases n - j,
    {
        let (sid, qty) = results[j];
        let cur = stocks[sid];
        stocks.set(sid, add_clip(cur, qty));
        j = j + 1;
    }
}

/// Removes a delivered job's results from the pending ledger.
fn apply_deliver_pending(pending: &mut Vec<i64>, results: &Vec<(usize, i64)>)
    requires
        wf_entries(results@, old(pending)@.len() as int),
    ensures
        final(pending)@ == deliver_pending(results@, old(pending)@, results@.len() as int),
        final(pending)@.len() == old(pending)@.len(),
{
    let n = results.len();
    let mut j: usize = 0;
    while j < n
        invariant
            0 <= j <= n,
            n == results@.len(),
            wf_entries(results@, old(pending)@.len() as int),
            pending@ == deliver_pending(results@, old(pending)@, j as int),
            pending@.len() == old(pending)@.len(),
        decreases n - j,
    {
        let (sid, qty) = results[j];
        let cur = pending[sid];
        pending.set(sid, sub_floor(cur, qty));
        j = j + 1;
    }
}

fn job_comes_first(a: &Job, b: &Job) -> (r: bool)
    ensures
        r == job_le(*a, *b),
{
    a.finish_time < b.finish_time || (a.finish_time == b.finish_time && a.proc_id <= b.proc_id)
}

proof fn lemma_insert_job_split(jobs: Seq<Job>, x: Job, p: int)
    requires
        0 <= p <= jobs.len(),
        forall|q: int| 0 <= q < p ==> job_le(#[trigger] jobs[q], x),
        p < jobs.len() ==> !job_le(jobs[p], x),
    ensures
        insert_job(jobs, x) == jobs.subrange(0, p).push(x) + jobs.subrange(p, jobs.len() as int),
    decreases jobs.len(),
{
    if jobs.len() == 0 {
        assert(insert_job(jobs, x) =~= jobs.subrange(0, p).push(x) + jobs.subrange(
            p,
            jobs.len() as int,
        ));
    } else if job_le(jobs[0], x) {
        assert(p >= 1);
        let rest = jobs.drop_first();
        assert(forall|q: int| 0 <= q < p - 1 ==> job_le(#[trigger] rest[q], x));
        lemma_insert_job_split(rest, x, p - 1);
        assert(insert_job(jobs, x) =~= jobs.subrange(0, p).push(x) + jobs.subrange(
            p,
            jobs.len() as int,
        ));
    } else {
        assert(p == 0);
        assert(insert_job(jobs, x) =~= jobs.subrange(0, p).push(x) + jobs.subrange(
            p,
            jobs.len() as int,
        ));
    }
}

fn copy_quantities(src: &Vec<i64>) -> (v: Vec<i64>)
    ensures
        v@ == src@,
{
    let n = src.len();
    let mut v: Vec<i64> = Vec::new();
    let mut i: usize = 0;
    while i < n
        invariant
            0 <= i <= n,
            n == src@.len(),
            v@ == src@.subrange(0, i as int),
        decreases n - i,
    {
        v.push(src[i]);
        proof {
            assert(v@ =~= src@.subrange(0, i + 1));
        }
        i = i + 1;
    }
    proof {
        assert(v@ =~= src@);
    }
    v
}

fn zero_vec(n: usize) -> (v: Vec<i64>)
    ensures
        v@ == zero_seq(n as int),
{
    let mut v: Vec<i64> = Vec::new();
    let mut i: usize = 0;
    while i < n
        invariant
            0 <= i <= n,
            v@.len() == i,
            forall|k: int| 0 <= k < i ==> #[trigger] v@[k] == 0i64,
        decreases n - i,
    {
        v.push(0);
        i = i + 1;
    }
    proof {
        assert(v@ =~= zero_seq(n as int));
    }
    v
}

/// Queues a completion event, keeping `(finish_time, proc_id)` order.
fn push_job(running: &mut Vec<Job>, job: Job)
    ensures
        final(running)@ == insert_job(old(running)@, job),
        final(running)@.len() == old(running)@.len() + 1,
{
    let m = running.len();
    let mut pos: usize = 0;
    while pos < m && job_comes_first(&running[pos], &job)
        invariant
            0 <= pos <= m,
            m == running@.len(),
            forall|q: int| 0 <= q < pos ==> job_le(#[trigger] running@[q], job),
        decreases m - pos,
    {
        pos = pos + 1;
    }
    proof {
        lemma_insert_job_split(running@, job, pos as int);
        lemma_insert_job_props(running@, job);
    }
    running.insert(pos, job);
    proof {
        assert(running@ =~= insert_job(old(running)@, job));
    }
}

// ----------------------------------------------------------------
// One whole evaluation
// ----------------------------------------------------------------
/// Plays the candidate policy forward to the horizon and scores it.
///
/// The result is exactly the state the model `sim_final` describes, so
/// two evaluations of the same specification, genome and horizon
/// return the same fitness and the same final stocks.  The candidate's
/// fitness field is set to the score; its policy fields are untouched.
/// One stock observation for trajectory logging.
pub struct StockSnapshot {
    pub time: i64,
    pub stocks: Vec<i64>,
}

/// Whether a snapshot shows the state after `k` ticks of the run.
pub open spec fn snapshot_matches(
    s: SimSpec,
    keys: Seq<Key>,
    divider: i64,
    horizon: i64,
    k: int,
    snap: StockSnapshot,
) -> bool {
    let st = sim_run(s, keys, divider, horizon, init_state(s), k as nat);
    snap.time == st.time && snap.stocks@ == st.stocks
}

fn run_policy(
    spec: &SimSpec,
    cand: &mut Genome,
    horizon: i64,
    trace: &mut Vec<StockSnapshot>,
    record: bool,
) -> (r: (i64, Sim))
    requires
        wf_sim_spec(*spec),
        wf_genome_for(*old(cand), spec.spec_n_procs()),
        old(trace)@.len() == 0,
    ensures
        ({
            let fin = sim_final(
                *spec,
                old(cand).keys@,
                old(cand).pending_stock_divider as i64,
                horizon,
            );
            &&& r.1.time == fin.time
            &&& r.1.stocks@ == fin.stocks
            &&& r.1.running@ == fin.jobs
            &&& r.0 == fin.stocks[spec.target_stock_id as int]
            &&& 0 <= r.0
        }),
        final(cand).keys@ == old(cand).keys@,
        final(cand).pending_stock_divider == old(cand).pending_stock_divider,
        final(cand).disabled_processes == old(cand).disabled_processes,
        final(cand).fitness == r.0,
        !record ==> final(trace)@ == old(trace)@,
        record ==> final(trace)@.len() >= 1,
        record ==> forall|k: int|
            0 <= k < final(trace)@.len() ==> snapshot_matches(
                *spec,
                old(cand).keys@,
                old(cand).pending_stock_divider as i64,
                horizon,
                k,
                #[trigger] final(trace)@[k],
            ),
        record ==> ({
            let fin = sim_final(
                *spec,
                old(cand).keys@,
                old(cand).pending_stock_divider as i64,
                horizon,
            );
            &&& final(trace)@.last().time == fin.time
            &&& final(trace)@.last().stocks@ == fin.stocks
        }),
{
    let ghost keys = cand.keys@;
    let ghost div = cand.pending_stock_divider as i64;
    let order = priority_from_keys(&cand.keys);
    let n_procs = spec.needs.len();
    let mut time: i64 = 0;
    let mut stocks: Vec<i64> = copy_quantities(&spec.init_stocks);
    let mut pending: Vec<i64> = zero_vec(spec.init_stocks.len());
    let mut running: Vec<Job> = Vec::new();
    let ghost init = init_state(*spec);
    let ghost mut steps: nat = 0;
    proof {
        lemma_init_state_wf(*spec);
        assert((SimState { time: time, stocks: stocks@, pending: pending@, jobs: running@ })
            =~= init);
    }
    while time < horizon
        invariant
            wf_sim_spec(*spec),
            keys == cand.keys@,
            keys.len() == spec.spec_n_procs(),
            div == cand.pending_stock_divider as i64,
            cand.pending_stock_divider >= 1,
            order@ == order_of(keys),
            order_ok(*spec, order@),
            n_procs == spec.spec_n_procs(),
            init == init_state(*spec),
            sim_run(*spec, keys, div, horizon, init, steps) == (SimState {
                time: time,
                stocks: stocks@,
                pending: pending@,
                jobs: running@,
            }),
            wf_state(
                *spec,
                SimState { time: time, stocks: stocks@, pending: pending@, jobs: running@ },
            ),
            steps <= sim_fuel(horizon),
            steps <= time as int,
            record ==> trace@.len() == steps,
            record ==> forall|k: int|
                0 <= k < trace@.len() ==> snapshot_matches(
                    *spec,
                    keys,
                    div,
                    horizon,
                    k,
                    #[trigger] trace@[k],
                ),
            !record ==> trace@.len() == 0,
        ensures
            sim_finished(
                *spec,
                keys,
                div,
                horizon,
                SimState { time: time, stocks: stocks@, pending: pending@, jobs: running@ },
            ),
        decreases sim_fuel(horizon) - steps,
    {
        let ghost head = SimState { time: time, stocks: stocks@, pending: pending@, jobs: running@ };
        let head_snapshot = if record {
            Some(StockSnapshot { time, stocks: copy_quantities(&stocks) })
        } else {
            None
        };
        let mut pos: usize = 0;
        while pos < n_procs
            invariant
                wf_sim_spec(*spec),
                keys == cand.keys@,
                keys.len() == spec.spec_n_procs(),
                div == cand.pending_stock_divider as i64,
                cand.pending_stock_divider >= 1,
                order@ == order_of(keys),
                order_ok(*spec, order@),
                n_procs == spec.spec_n_procs(),
                0 <= pos <= n_procs,
                head.time < horizon,
                wf_state(*spec, head),
                time == head.time,
                pass_upto(*spec, keys, div, order@, head, pos as int) == (SimState {
                    time: time,
                    stocks: stocks@,
                    pending: pending@,
                    jobs: running@,
                }),
                wf_state(
                    *spec,
                    SimState { time: time, stocks: stocks@, pending: pending@, jobs: running@ },
                ),
            decreases n_procs - pos,
        {
            let ghost pre = SimState {
                time: time,
                stocks: stocks@,
                pending: pending@,
                jobs: running@,
            };
            proof {
                lemma_step_proc_wf(*spec, keys, div, order@, pre, pos as int);
            }
            let pid = order[pos];
            let is_disabled = matches!(cand.keys[pid], Key::Disabled);
            if !is_disabled {
                proof {
                    assert(wf_entries(spec.spec_needs_of(pid as int), spec.spec_n_stocks()));
                }
                if inputs_available(&spec.needs[pid], &stocks) {
                    let def = deficits_for_higher_priority(&order, pos + 1, spec, &stocks);
                    let sr = check_should_run(
                        spec,
                        pid,
                        &def,
                        &pending,
                        cand.pending_stock_divider,
                        Ghost(order@),
                        Ghost(stocks@),
                        Ghost(pos as int),
                    );
                    if sr {
                        proof {
                            assert(proc_starts(*spec, keys, div, order@, pre, pos as int));
                        }
                        apply_consume(&mut stocks, &spec.needs[pid]);
                        let dur = spec.durations[pid];
                        let job = Job { finish_time: add_clip(time, dur), proc_id: pid };
                        push_job(&mut running, job);
                        apply_add_pending(&mut pending, &spec.results[pid]);
                        proof {
                            assert((SimState {
                                time: time,
                                stocks: stocks@,
                                pending: pending@,
                                jobs: running@,
                            }) =~= start_proc(*spec, order@, pre, pos as int));
                        }
                    } else {
                        proof {
                            assert(!proc_starts(*spec, keys, div, order@, pre, pos as int));
                        }
                    }
                } else {
                    proof {
                        assert(!proc_starts(*spec, keys, div, order@, pre, pos as int));
                    }
                }
            } else {
                proof {
                    assert(keys[order@[pos as int] as int] is Disabled);
                    assert(!proc_starts(*spec, keys, div, order@, pre, pos as int));
                }
            }
            proof {
                assert((SimState {
                    time: time,
                    stocks: stocks@,
                    pending: pending@,
                    jobs: running@,
                }) == step_proc(*spec, keys, div, order@, pre, pos as int));
            }
            pos = pos + 1;
        }
        let ghost st1 = SimState { time: time, stocks: stocks@, pending: pending@, jobs: running@ };
        proof {
            assert(st1 == run_pass(*spec, keys, div, order@, head));
            lemma_pass_upto_wf(*spec, keys, div, order@, head, n_procs as int);
        }
        if running.len() == 0 {
            proof {
                lemma_pass_empty_is_noop(*spec, keys, div, order@, head);
                assert(st1 == head);
            }
            break;
        }
        let t_next = running[0].finish_time;
        proof {
            assert(st1.jobs[0].finish_time > st1.time);
        }
        time = t_next;
        let ghost jumped = SimState {
            time: t_next,
            stocks: st1.stocks,
            pending: st1.pending,
            jobs: st1.jobs,
        };
        proof {
            assert forall|j: int| 0 <= j < st1.jobs.len() implies (#[trigger] st1.jobs[j]).finish_time
                >= t_next by {
                if j > 0 {
                    assert(job_le(st1.jobs[0], st1.jobs[j]));
                }
            }
        }
        while running.len() > 0 && running[0].finish_time == t_next
            invariant
                wf_sim_spec(*spec),
                time == t_next,
                stocks@.len() == spec.spec_n_stocks(),
                pending@.len() == spec.spec_n_stocks(),
                forall|i: int| 0 <= i < stocks@.len() ==> 0 <= #[trigger] stocks@[i],
                forall|i: int| 0 <= i < pending@.len() ==> 0 <= #[trigger] pending@[i],
                jobs_sorted(running@),
                forall|j: int|
                    0 <= j < running@.len() ==> ((#[trigger] running@[j]).proc_id
                        < spec.spec_n_procs() && running@[j].finish_time >= t_next),
                deliver_due(
                    *spec,
                    SimState { time: t_next, stocks: stocks@, pending: pending@, jobs: running@ },
                    t_next,
                ) == deliver_due(*spec, jumped, t_next),
            decreases running@.len(),
        {
            let ghost dpre = SimState {
                time: t_next,
                stocks: stocks@,
                pending: pending@,
                jobs: running@,
            };
            let job = running.remove(0);
            proof {
                assert(running@ =~= dpre.jobs.drop_first());
                assert(wf_entries(
                    spec.spec_results_of(job.proc_id as int),
                    spec.spec_n_stocks(),
                ));
            }
            let results = &spec.results[job.proc_id];
            apply_deliver_stocks(&mut stocks, results);
            apply_deliver_pending(&mut pending, results);
            proof {
                let res = spec.spec_results_of(job.proc_id as int);
                lemma_deliver_stocks_monotone(res, dpre.stocks, res.len() as int);
                lemma_deliver_pending_nonneg(res, dpre.pending, res.len() as int);
                assert((SimState {
                    time: t_next,
                    stocks: stocks@,
                    pending: pending@,
                    jobs: running@,
                }) =~= apply_first_job(*spec, dpre));
                assert(forall|j: int|
                    0 <= j < running@.len() ==> running@[j] == #[trigger] dpre.jobs[j + 1]);
            }
        }
        proof {
            let cur = SimState { time: t_next, stocks: stocks@, pending: pending@, jobs: running@ };
            assert(deliver_due(*spec, cur, t_next) == cur);
            assert(cur == deliver_phase(*spec, st1));
            assert(cur == sim_step(*spec, keys, div, head));
            assert(!sim_finished(*spec, keys, div, horizon, head));
            lemma_sim_run_add(*spec, keys, div, horizon, init, steps, 1);
            let stepped = sim_step(*spec, keys, div, head);
            assert(sim_run(*spec, keys, div, horizon, stepped, 0) == stepped);
            assert(sim_run(*spec, keys, div, horizon, head, 1) == cur);
            lemma_sim_step_wf(*spec, keys, div, head);
            assert(cur.time > head.time);
            steps = steps + 1;
            assert(sim_fuel(horizon) == horizon as nat);
        }
        if record {
            match head_snapshot {
                Some(snap) => {
                    trace.push(snap);
                },
                None => {
                },
            }
        }
    }
    proof {
        let cur = SimState { time: time, stocks: stocks@, pending: pending@, jobs: running@ };
        lemma_sim_run_add(*spec, keys, div, horizon, init, steps, (sim_fuel(horizon) - steps) as nat);
        lemma_finished_fixed(*spec, keys, div, horizon, cur, (sim_fuel(horizon) - steps) as nat);
        assert(sim_final(*spec, keys, div, horizon) == cur);
    }
    if record {
        trace.push(StockSnapshot { time, stocks: copy_quantities(&stocks) });
    }
    let fit = stocks[spec.target_stock_id];
    cand.fitness = fit;
    (fit, Sim { time, stocks, running })
}

/// Plays the candidate policy forward to the horizon and scores it.
///
/// The result is exactly the state the model `sim_final` describes, so
/// two evaluations of the same specification, genome and horizon
/// return the same fitness and the same final stocks.  The candidate's
/// fitness field is set to the score; its policy fields are untouched.
pub fn eval_fitness(spec: &SimSpec, cand: &mut Genome, horizon: i64) -> (r: (i64, Sim))
    requires
        wf_sim_spec(*spec),
        wf_genome_for(*old(cand), spec.spec_n_procs()),
    ensures
        ({
            let fin = sim_final(
                *spec,
                old(cand).keys@,
                old(cand).pending_stock_divider as i64,
                horizon,
            );
            &&& r.1.time == fin.time
            &&& r.1.stocks@ == fin.stocks
            &&& r.1.running@ == fin.jobs
            &&& r.0 == fin.stocks[spec.target_stock_id as int]
            &&& 0 <= r.0
        }),
        final(cand).keys@ == old(cand).keys@,
        final(cand).pending_stock_divider == old(cand).pending_stock_divider,
        final(cand).disabled_processes == old(cand).disabled_processes,
        final(cand).fitness == r.0,
{
    let mut trace: Vec<StockSnapshot> = Vec::new();
    run_policy(spec, cand, horizon, &mut trace, false)
}

/// Like `eval_fitness`, and also fills `trace` with one stock
/// snapshot per simulated tick — the state after each tick, ending
/// with the final state — so a logger can render the trajectory.
pub fn eval_fitness_logged(
    spec: &SimSpec,
    cand: &mut Genome,
    horizon: i64,
    trace: &mut Vec<StockSnapshot>,
) -> (r: (i64, Sim))
    requires
        wf_sim_spec(*spec),
        wf_genome_for(*old(cand), spec.spec_n_procs()),
    ensures
        ({
            let fin = sim_final(
                *spec,
                old(cand).keys@,
                old(cand).pending_stock_divider as i64,
                horizon,
            );
            &&& r.1.time == fin.time
            &&& r.1.stocks@ == fin.stocks
            &&& r.1.running@ == fin.jobs
            &&& r.0 == fin.stocks[spec.target_stock_id as int]
            &&& 0 <= r.0
        }),
        final(cand).keys@ == old(cand).keys@,
        final(cand).pending_stock_divider == old(cand).pending_stock_divider,
        final(cand).disabled_processes == old(cand).disabled_processes,
        final(cand).fitness == r.0,
        final(trace)@.len() >= 1,
        forall|k: int|
            0 <= k < final(trace)@.len() ==> snapshot_matches(
                *spec,
                old(cand).keys@,
                old(cand).pending_stock_divider as i64,
                horizon,
                k,
                #[trigger] final(trace)@[k],
            ),
        final(trace)@.last().time == sim_final(
            *spec,
            old(cand).keys@,
            old(cand).pending_stock_divider as i64,
            horizon,
        ).time,
        final(trace)@.last().stocks@ == sim_final(
            *spec,
            old(cand).keys@,
            old(cand).pending_stock_divider as i64,
            horizon,
        ).stocks,
{
    trace.clear();
    run_policy(spec, cand, horizon, trace, true)
}

} // verus!
