//! The island-based evolutionary search: random genome generation,
//! crossover, mutation, per-island selection with stagnation resets
//! and cross-island migration, and the generation driver.

use vstd::prelude::*;
use crate::domain::SimSpec;
use crate::domain::wf_sim_spec;
use crate::genome::Genome;
use crate::genome::genome_eq;
use crate::genome::genomes_equal;
use crate::genome::wf_genome_for;
use crate::genome::Key;
use crate::genome::KEY_SCALE;
use crate::model::fitness_of;
use vstd::multiset::Multiset;
use crate::rng::rand_below;
use crate::rng::rand_chance;
use crate::sim::eval_fitness;
use rayon::iter::IntoParallelRefMutIterator;
use rayon::iter::ParallelIterator;

verus! {

/// Total number of genomes alive at once, across all islands.
pub const MAX_POPULATION: usize = 400;

/// Number of independently evolving islands.
pub const ISLANDS_COUNT: usize = 8;

/// Genomes per island.
pub const MAX_POPULATION_PER_ISLAND: usize = MAX_POPULATION / ISLANDS_COUNT;

/// Horizon every fitness evaluation runs to.
pub const MAX_CYCLES: i64 = 10000;

/// Elite share of an island, in hundredths.
pub const TOP_PCT_100: usize = 10;

/// Discarded bottom share of an island, in hundredths.
pub const BOT_PCT_100: usize = 20;

/// Chance, in hundredths, that a crossover position copies the first
/// parent.
pub const HEAD_PCT_100: u32 = 50;

/// Chance, in hundredths, that a child is mutated.
pub const MUT_CHANCE_SWAP_PROCESS_100: u32 = 10;

/// A stagnation reset fires after this many generations without
/// improvement, to begin with.
pub const RESET_VALUE_GEN: i64 = 2;

/// Scales how fast the reset threshold grows with the generation
/// number.
pub const RESET_DIVIDER: usize = 8;

/// Upper bound on the reset threshold.
pub const MAX_RESET_VALUE: i64 = 20;

/// The whole population: one genome list per island.
pub struct Population {
    pub candidates: Vec<Vec<Genome>>,
}

/// A population fit for a specification with `n_procs` processes:
/// every island fully filled with well-formed genomes.
pub open spec fn wf_population(pop: Population, n_procs: int) -> bool {
    &&& pop.candidates@.len() == ISLANDS_COUNT
    &&& forall|i: int|
        0 <= i < ISLANDS_COUNT ==> (#[trigger] pop.candidates@[i])@.len()
            == MAX_POPULATION_PER_ISLAND
    &&& forall|i: int, j: int|
        0 <= i < ISLANDS_COUNT && 0 <= j < MAX_POPULATION_PER_ISLAND ==> wf_genome_for(
            #[trigger] pop.candidates@[i]@[j],
            n_procs,
        )
}

// ----------------------------------------------------------------
// Random genomes
// ----------------------------------------------------------------
/// The dividers a random genome may draw.
pub open spec fn divider_candidates() -> Seq<i32> {
    seq![
        1, 2, 4, 6, 8, 10, 25, 50, 75, 100, 125, 150, 175, 200, 225, 250, 275, 300, 325, 350, 375,
        400, 425, 450, 475, 500,
    ]
}

/// Draws the throttling divider from the candidate list; always at
/// least one, so the throttling division is defined.
pub fn gen_pending_stock_divider(rng: &mut rand::rngs::SmallRng) -> (d: i32)
    ensures
        divider_candidates().contains(d),
        d >= 1,
{
    let dividers: Vec<i32> = vec![
        1, 2, 4, 6, 8, 10, 25, 50, 75, 100, 125, 150, 175, 200, 225, 250, 275, 300, 325, 350, 375,
        400, 425, 450, 475, 500,
    ];
    proof {
        assert(dividers@ =~= divider_candidates());
    }
    let idx = rand_below(rng, 26) as usize;
    let d = dividers[idx];
    proof {
        assert(divider_candidates().contains(d));
        assert forall|i: int| 0 <= i < divider_candidates().len() implies divider_candidates()[i]
            >= 1 by {
        }
    }
    d
}

/// A freshly drawn key: active, below the key scale.
pub open spec fn fresh_key(k: Key) -> bool {
    k matches Key::Active(v) && v < KEY_SCALE
}

/// A genome exactly as random generation leaves it: well formed, the
/// fitness still unset, the divider drawn from the candidate list,
/// and every key either fresh or the disabled marker.
pub open spec fn fresh_genome(g: Genome, n_procs: int) -> bool {
    &&& wf_genome_for(g, n_procs)
    &&& g.fitness == 0
    &&& divider_candidates().contains(g.pending_stock_divider)
    &&& forall|i: int|
        0 <= i < n_procs ==> (fresh_key(#[trigger] g.keys@[i]) || g.keys@[i] is Disabled)
}

/// One independently drawn priority key per process.
pub fn gen_random_keys(rng: &mut rand::rngs::SmallRng, n: usize) -> (keys: Vec<Key>)
    ensures
        keys@.len() == n,
        forall|i: int| 0 <= i < n ==> fresh_key(#[trigger] keys@[i]),
{
    let mut keys: Vec<Key> = Vec::new();
    let mut i: usize = 0;
    while i < n
        invariant
            0 <= i <= n,
            keys@.len() == i,
            forall|k: int| 0 <= k < i ==> fresh_key(#[trigger] keys@[k]),
        decreases n - i,
    {
        let v = rand_below(rng, KEY_SCALE);
        keys.push(Key::Active(v));
        i = i + 1;
    }
    keys
}

/// A coin decides whether any processes are disabled at all; if so, a
/// random number of random positions get the disabled marker.  Every
/// key is either untouched or disabled, and a false result means the
/// keys are untouched.
pub fn disable_rdm_processes(rng: &mut rand::rngs::SmallRng, keys: &mut Vec<Key>) -> (flagged:
    bool)
    requires
        old(keys)@.len() < usize::MAX,
    ensures
        final(keys)@.len() == old(keys)@.len(),
        forall|i: int|
            0 <= i < old(keys)@.len() ==> (#[trigger] final(keys)@[i] == old(keys)@[i]
                || final(keys)@[i] is Disabled),
        !flagged ==> final(keys)@ == old(keys)@,
{
    let flagged = rand_chance(rng, 1, 2);
    if !flagged {
        return flagged;
    }
    let n = keys.len();
    let n_disabled = rand_below(rng, (n as u64) + 1);
    let mut k: u64 = 0;
    while k < n_disabled
        invariant
            n == keys@.len(),
            n == old(keys)@.len(),
            n_disabled <= n,
            forall|i: int|
                0 <= i < old(keys)@.len() ==> (#[trigger] keys@[i] == old(keys)@[i] || keys@[i]
                    is Disabled),
        decreases n_disabled - k,
    {
        let pick = rand_below(rng, n as u64) as usize;
        keys.set(pick, Key::Disabled);
        k = k + 1;
    }
    flagged
}

/// A freshly drawn candidate policy: random keys, possibly some
/// disabled, a random divider, and no fitness yet.
pub fn gen_random_genome(rng: &mut rand::rngs::SmallRng, cnt_processes: usize) -> (g: Genome)
    requires
        cnt_processes < usize::MAX,
    ensures
        fresh_genome(g, cnt_processes as int),
{
    let mut random_keys = gen_random_keys(rng, cnt_processes);
    let disabled_processes = disable_rdm_processes(rng, &mut random_keys);
    let divider = gen_pending_stock_divider(rng);
    Genome::new(random_keys, 0, divider, disabled_processes)
}

/// The initial population: every island filled with fresh random
/// genomes.
pub fn gen_initial_pop(rng: &mut rand::rngs::SmallRng, cnt_processes: usize) -> (pop: Population)
    requires
        cnt_processes < usize::MAX,
    ensures
        wf_population(pop, cnt_processes as int),
        forall|i: int, j: int|
            0 <= i < ISLANDS_COUNT && 0 <= j < MAX_POPULATION_PER_ISLAND ==> fresh_genome(
                #[trigger] pop.candidates@[i]@[j],
                cnt_processes as int,
            ),
{
    let mut candidates: Vec<Vec<Genome>> = Vec::new();
    let mut idx: usize = 0;
    while idx < ISLANDS_COUNT
        invariant
            0 <= idx <= ISLANDS_COUNT,
            cnt_processes < usize::MAX,
            candidates@.len() == idx,
            forall|i: int|
                0 <= i < idx ==> (#[trigger] candidates@[i])@.len() == MAX_POPULATION_PER_ISLAND,
            forall|i: int, j: int|
                0 <= i < idx && 0 <= j < MAX_POPULATION_PER_ISLAND ==> fresh_genome(
                    #[trigger] candidates@[i]@[j],
                    cnt_processes as int,
                ),
        decreases ISLANDS_COUNT - idx,
    {
        let mut island: Vec<Genome> = Vec::new();
        let mut c: usize = 0;
        while c < MAX_POPULATION_PER_ISLAND
            invariant
                0 <= c <= MAX_POPULATION_PER_ISLAND,
                cnt_processes < usize::MAX,
                island@.len() == c,
                forall|j: int|
                    0 <= j < c ==> fresh_genome(#[trigger] island@[j], cnt_processes as int),
            decreases MAX_POPULATION_PER_ISLAND - c,
        {
            let cand = gen_random_genome(rng, cnt_processes);
            island.push(cand);
            c = c + 1;
        }
        candidates.push(island);
        idx = idx + 1;
    }
    Population { candidates }
}

// ----------------------------------------------------------------
// Variation
// ----------------------------------------------------------------
/// Swaps two randomly chosen priority keys in place.
pub fn mutate(rng: &mut rand::rngs::SmallRng, cand: &mut Genome)
    requires
        old(cand).keys@.len() >= 1,
    ensures
        final(cand).keys@.len() == old(cand).keys@.len(),
        final(cand).fitness == old(cand).fitness,
        final(cand).pending_stock_divider == old(cand).pending_stock_divider,
        final(cand).disabled_processes == old(cand).disabled_processes,
        exists|i: int, j: int|
            0 <= i < old(cand).keys@.len() && 0 <= j < old(cand).keys@.len() && final(cand).keys@
                == old(cand).keys@.update(i, old(cand).keys@[j]).update(j, old(cand).keys@[i]),
{
    let n = cand.keys.len();
    let key1 = rand_below(rng, n as u64) as usize;
    let key2 = rand_below(rng, n as u64) as usize;
    let a = cand.keys[key1];
    let b = cand.keys[key2];
    cand.keys.set(key1, b);
    cand.keys.set(key2, a);
    proof {
        assert(final(cand).keys@ =~= old(cand).keys@.update(
            key1 as int,
            old(cand).keys@[key2 as int],
        ).update(key2 as int, old(cand).keys@[key1 as int]));
    }
}

/// A child genome: each priority key copied from the first parent
/// with a fixed head chance and from the second otherwise, the
/// divider copied wholesale from a parent chosen by one coin flip,
/// the disabled flag inherited from the first parent, and no fitness
/// yet.
pub fn crossover(rng: &mut rand::rngs::SmallRng, p1: &Genome, p2: &Genome) -> (child: Genome)
    requires
        p1.keys@.len() == p2.keys@.len(),
    ensures
        child.keys@.len() == p1.keys@.len(),
        forall|k: int|
            0 <= k < child.keys@.len() ==> (#[trigger] child.keys@[k] == p1.keys@[k]
                || child.keys@[k] == p2.keys@[k]),
        child.pending_stock_divider == p1.pending_stock_divider || child.pending_stock_divider
            == p2.pending_stock_divider,
        child.disabled_processes == p1.disabled_processes,
        child.fitness == 0,
{
    let n = p1.keys.len();
    let mut keys: Vec<Key> = Vec::new();
    let mut k: usize = 0;
    while k < n
        invariant
            0 <= k <= n,
            n == p1.keys@.len(),
            n == p2.keys@.len(),
            keys@.len() == k,
            forall|q: int|
                0 <= q < k ==> (#[trigger] keys@[q] == p1.keys@[q] || keys@[q] == p2.keys@[q]),
        decreases n - k,
    {
        if rand_chance(rng, HEAD_PCT_100, 100) {
            keys.push(p1.keys[k]);
        } else {
            keys.push(p2.keys[k]);
        }
        k = k + 1;
    }
    let divider: i32 = if rand_chance(rng, HEAD_PCT_100, 100) {
        p1.pending_stock_divider
    } else {
        p2.pending_stock_divider
    };
    Genome::new(keys, 0, divider, p1.disabled_processes)
}

/// The elite count bounded into `1..=MAX_POPULATION_PER_ISLAND`.
pub open spec fn clamped_elite(elite_cnt: usize) -> int {
    if elite_cnt < 1 {
        1
    } else if elite_cnt > MAX_POPULATION_PER_ISLAND {
        MAX_POPULATION_PER_ISLAND as int
    } else {
        elite_cnt as int
    }
}

/// Picks the positions of two parents in a sorted island: one from
/// the elite slice and one from the rest — or, when the elite slice
/// covers the island, two distinct positions.
fn pick_parents(rng: &mut rand::rngs::SmallRng, elite_cnt: usize) -> (r: (usize, usize))
    ensures
        r.0 < clamped_elite(elite_cnt),
        r.1 < MAX_POPULATION_PER_ISLAND,
        clamped_elite(elite_cnt) < MAX_POPULATION_PER_ISLAND ==> clamped_elite(elite_cnt) <= r.1,
        clamped_elite(elite_cnt) == MAX_POPULATION_PER_ISLAND ==> r.1 != r.0,
{
    let ec = if elite_cnt < 1 {
        1
    } else if elite_cnt > MAX_POPULATION_PER_ISLAND {
        MAX_POPULATION_PER_ISLAND
    } else {
        elite_cnt
    };
    let i_elite = rand_below(rng, ec as u64) as usize;
    if ec < MAX_POPULATION_PER_ISLAND {
        let i_other = ec + rand_below(rng, (MAX_POPULATION_PER_ISLAND - ec) as u64) as usize;
        (i_elite, i_other)
    } else {
        let mut j = rand_below(rng, MAX_POPULATION_PER_ISLAND as u64) as usize;
        if j == i_elite {
            j = (j + 1) % MAX_POPULATION_PER_ISLAND;
        }
        (i_elite, j)
    }
}

// ----------------------------------------------------------------
// Selection
// ----------------------------------------------------------------
/// The position of a genome with maximal fitness.
fn argmax_fitness(island: &Vec<Genome>) -> (idx: usize)
    requires
        island@.len() > 0,
    ensures
        idx < island@.len(),
        forall|j: int| 0 <= j < island@.len() ==> (#[trigger] island@[j]).fitness <= island@[
            idx as int].fitness,
{
    let n = island.len();
    let mut best: usize = 0;
    let mut j: usize = 1;
    while j < n
        invariant
            n == island@.len(),
            best < j <= n,
            1 <= j,
            forall|q: int| 0 <= q < j ==> (#[trigger] island@[q]).fitness <= island@[
                best as int].fitness,
        decreases n - j,
    {
        if island[j].fitness >= island[best].fitness {
            best = j;
        }
        j = j + 1;
    }
    best
}

/// Whether the seen-list already holds a duplicate of the genome,
/// under the quantized dedup equality.
fn contains_genome(seen: &Vec<Genome>, g: &Genome) -> (r: bool)
    ensures
        r == exists|i: int| 0 <= i < seen@.len() && genomes_equal(#[trigger] seen@[i], *g),
{
    let n = seen.len();
    let mut i: usize = 0;
    while i < n
        invariant
            0 <= i <= n,
            n == seen@.len(),
            forall|q: int| 0 <= q < i ==> !genomes_equal(#[trigger] seen@[q], *g),
        decreases n - i,
    {
        if genome_eq(&seen[i], g) {
            return true;
        }
        i = i + 1;
    }
    false
}

/// Sorts an island by fitness, highest first.  The result holds
/// exactly the same genomes (as a multiset), each of which sat in the
/// island before.
pub fn sort_by_fitness_desc(island: &mut Vec<Genome>)
    ensures
        final(island)@.len() == old(island)@.len(),
        final(island)@.to_multiset() == old(island)@.to_multiset(),
        forall|i: int, j: int|
            0 <= i < j < final(island)@.len() ==> (#[trigger] final(island)@[i]).fitness
                >= (#[trigger] final(island)@[j]).fitness,
        forall|i: int|
            0 <= i < final(island)@.len() ==> old(island)@.contains(#[trigger] final(island)@[i]),
{
    broadcast use vstd::seq_lib::group_to_multiset_ensures;

    let mut out: Vec<Genome> = Vec::new();
    while island.len() > 0
        invariant
            out@.to_multiset().add(island@.to_multiset()) == old(island)@.to_multiset(),
            forall|i: int, j: int|
                0 <= i < j < out@.len() ==> (#[trigger] out@[i]).fitness >= (#[trigger] out@[
                    j]).fitness,
            forall|i: int, j: int|
                0 <= i < out@.len() && 0 <= j < island@.len() ==> (#[trigger] out@[i]).fitness
                    >= (#[trigger] island@[j]).fitness,
            forall|i: int| 0 <= i < out@.len() ==> old(island)@.contains(#[trigger] out@[i]),
            forall|i: int| 0 <= i < island@.len() ==> old(island)@.contains(#[trigger] island@[i]),
            out@.len() + island@.len() == old(island)@.len(),
        decreases island@.len(),
    {
        let idx = argmax_fitness(island);
        let ghost pre = island@;
        let g = island.remove(idx);
        out.push(g);
        proof {
            broadcast use vstd::seq_lib::group_to_multiset_ensures;

            assert(pre[idx as int] == g);
            assert(pre.contains(g));
            assert(pre.to_multiset().count(g) > 0);
            assert(island@ == pre.remove(idx as int));
            assert(pre.remove(idx as int).to_multiset() == pre.to_multiset().remove(pre[
                idx as int]));
            assert(out@.to_multiset().add(island@.to_multiset()) == old(island)@.to_multiset())
                by {
                assert(out@.to_multiset().add(island@.to_multiset()) =~= old(
                    island,
                )@.to_multiset());
            }
            assert forall|i: int| 0 <= i < island@.len() implies old(island)@.contains(
                #[trigger] island@[i],
            ) by {
                if i < idx {
                    assert(island@[i] == pre[i]);
                } else {
                    assert(island@[i] == pre[i + 1]);
                }
            }
            assert forall|i: int, j: int|
                0 <= i < out@.len() && 0 <= j < island@.len() implies (#[trigger] out@[i]).fitness
                >= (#[trigger] island@[j]).fitness by {
                if j < idx {
                    assert(island@[j] == pre[j]);
                } else {
                    assert(island@[j] == pre[j + 1]);
                }
            }
        }
    }
    proof {
        broadcast use vstd::seq_lib::group_to_multiset_ensures;

        assert(island@ =~= Seq::<Genome>::empty());
        assert(island@.to_multiset() =~= Multiset::<Genome>::empty());
        assert(out@.to_multiset() =~= old(island)@.to_multiset());
    }
    *island = out;
}

// ----------------------------------------------------------------
// Evaluation
// ----------------------------------------------------------------
/// The after-state of scoring one candidate: the policy fields are
/// untouched and the fitness equals the model score of that policy.
pub open spec fn evaluated_genome(s: SimSpec, before: Genome, horizon: i64, after: Genome) -> bool {
    &&& after.keys@ == before.keys@
    &&& after.pending_stock_divider == before.pending_stock_divider
    &&& after.disabled_processes == before.disabled_processes
    &&& after.fitness == fitness_of(s, before.keys@, before.pending_stock_divider as i64, horizon)
    &&& after.fitness >= 0
}

/// Scores one candidate in place.
pub fn evaluate_into(spec: &SimSpec, cand: &mut Genome, horizon: i64)
    requires
        wf_sim_spec(*spec),
        wf_genome_for(*old(cand), spec.spec_n_procs()),
    ensures
        evaluated_genome(*spec, *old(cand), horizon, *final(cand)),
{
    let _scored = eval_fitness(spec, cand, horizon);
}

/// Relies on rayon's `par_iter_mut` and `ParallelIterator::for_each`:
/// the closure runs exactly once on each element of the vector, in
/// place; each run touches only its own genome and reads the shared
/// specification.
#[verifier::external_body]
fn eval_population(spec: &SimSpec, genomes: &mut Vec<Genome>, horizon: i64)
    requires
        wf_sim_spec(*spec),
        forall|i: int|
            0 <= i < old(genomes)@.len() ==> wf_genome_for(
                #[trigger] old(genomes)@[i],
                spec.spec_n_procs(),
            ),
    ensures
        final(genomes)@.len() == old(genomes)@.len(),
        forall|i: int|
            0 <= i < old(genomes)@.len() ==> evaluated_genome(
                *spec,
                old(genomes)@[i],
                horizon,
                #[trigger] final(genomes)@[i],
            ),
{
    genomes.par_iter_mut().for_each(|cand| evaluate_into(spec, cand, horizon));
}

// ----------------------------------------------------------------
// The generation driver
// ----------------------------------------------------------------
/// Every genome of the island is well formed.
pub open spec fn wf_island(isl: Seq<Genome>, n_procs: int) -> bool {
    forall|j: int| 0 <= j < isl.len() ==> wf_genome_for(#[trigger] isl[j], n_procs)
}

/// `count` islands, each fully filled with well-formed genomes.
pub open spec fn wf_islands(islands: Seq<Vec<Genome>>, n_procs: int, count: int) -> bool {
    &&& islands.len() == count
    &&& forall|k: int|
        0 <= k < count ==> ((#[trigger] islands[k])@.len() == MAX_POPULATION_PER_ISLAND
            && wf_island(islands[k]@, n_procs))
}

/// The genome's fitness field holds exactly its own evaluated score.
pub open spec fn self_scored(s: SimSpec, g: Genome, horizon: i64) -> bool {
    &&& g.fitness == fitness_of(s, g.keys@, g.pending_stock_divider as i64, horizon)
    &&& g.fitness >= 0
}

/// The genome scores at least as well as every genome of the island.
pub open spec fn beats_island(s: SimSpec, g: Genome, isl: Seq<Genome>, horizon: i64) -> bool {
    forall|j: int|
        0 <= j < isl.len() ==> g.fitness >= fitness_of(
            s,
            (#[trigger] isl[j]).keys@,
            isl[j].pending_stock_divider as i64,
            horizon,
        )
}

/// The running per-island champions: well formed, carrying their own
/// evaluated score, and at least as good as everything the island
/// started from.
pub open spec fn good_bests(
    s: SimSpec,
    bests: Seq<Genome>,
    orig: Seq<Vec<Genome>>,
    n_procs: int,
) -> bool {
    &&& bests.len() == ISLANDS_COUNT
    &&& forall|k: int|
        0 <= k < ISLANDS_COUNT ==> (wf_genome_for(#[trigger] bests[k], n_procs) && self_scored(
            s,
            bests[k],
            MAX_CYCLES,
        ) && beats_island(s, bests[k], orig[k]@, MAX_CYCLES))
}

proof fn lemma_island_wf_from_contains(a: Seq<Genome>, b: Seq<Genome>, n_procs: int)
    requires
        wf_island(a, n_procs),
        forall|i: int| 0 <= i < b.len() ==> a.contains(#[trigger] b[i]),
    ensures
        wf_island(b, n_procs),
{
    assert forall|j: int| 0 <= j < b.len() implies wf_genome_for(#[trigger] b[j], n_procs) by {
        let w = choose|w: int| 0 <= w < a.len() && a[w] == b[j];
    }
}

fn fill_i64(n: usize, x: i64) -> (v: Vec<i64>)
    ensures
        v@.len() == n,
        forall|i: int| 0 <= i < n ==> #[trigger] v@[i] == x,
{
    let mut v: Vec<i64> = Vec::new();
    let mut i: usize = 0;
    while i < n
        invariant
            v@.len() == i,
            i <= n,
            forall|k: int| 0 <= k < i ==> #[trigger] v@[k] == x,
        decreases n - i,
    {
        v.push(x);
        i = i + 1;
    }
    v
}

fn fill_bool(n: usize, x: bool) -> (v: Vec<bool>)
    ensures
        v@.len() == n,
        forall|i: int| 0 <= i < n ==> #[trigger] v@[i] == x,
{
    let mut v: Vec<bool> = Vec::new();
    let mut i: usize = 0;
    while i < n
        invariant
            v@.len() == i,
            i <= n,
            forall|k: int| 0 <= k < i ==> #[trigger] v@[k] == x,
        decreases n - i,
    {
        v.push(x);
        i = i + 1;
    }
    v
}

/// Runs the evolutionary search for a fixed number of generations and
/// returns the best genome found, re-scored at the end.  The result
/// is well formed, its fitness field holds exactly its own evaluated
/// score, and it scores at least as well as every genome of the
/// initial population.
pub fn run_ga(
    spec: &SimSpec,
    pop: Population,
    generations: usize,
    rng: &mut rand::rngs::SmallRng,
) -> (best: Genome)
    requires
        wf_sim_spec(*spec),
        1 <= spec.spec_n_procs(),
        spec.spec_n_procs() < usize::MAX,
        wf_population(pop, spec.spec_n_procs()),
        generations <= i64::MAX,
    ensures
        wf_genome_for(best, spec.spec_n_procs()),
        self_scored(*spec, best, MAX_CYCLES),
        forall|i: int, j: int|
            0 <= i < ISLANDS_COUNT && 0 <= j < MAX_POPULATION_PER_ISLAND ==> best.fitness
                >= fitness_of(
                *spec,
                (#[trigger] pop.candidates@[i]@[j]).keys@,
                pop.candidates@[i]@[j].pending_stock_divider as i64,
                MAX_CYCLES,
            ),
{
    let n_procs = spec.needs.len();
    let ghost orig = pop.candidates@;
    let Population { candidates: mut islands_in } = pop;
    let mut islands: Vec<Vec<Genome>> = Vec::new();
    let mut best_cands: Vec<Genome> = Vec::new();
    let mut idx: usize = 0;
    while idx < ISLANDS_COUNT
        invariant
            wf_sim_spec(*spec),
            n_procs == spec.spec_n_procs(),
            1 <= n_procs < usize::MAX,
            0 <= idx <= ISLANDS_COUNT,
            orig.len() == ISLANDS_COUNT,
            islands_in@.len() == ISLANDS_COUNT - idx,
            forall|k: int|
                0 <= k < islands_in@.len() ==> #[trigger] islands_in@[k] == orig[k + idx],
            forall|k: int|
                0 <= k < ISLANDS_COUNT ==> ((#[trigger] orig[k])@.len()
                    == MAX_POPULATION_PER_ISLAND && wf_island(orig[k]@, n_procs as int)),
            wf_islands(islands@, n_procs as int, idx as int),
            best_cands@.len() == idx,
            forall|k: int|
                0 <= k < idx ==> (wf_genome_for(#[trigger] best_cands@[k], n_procs as int)
                    && self_scored(*spec, best_cands@[k], MAX_CYCLES) && beats_island(
                    *spec,
                    best_cands@[k],
                    orig[k]@,
                    MAX_CYCLES,
                )),
        decreases ISLANDS_COUNT - idx,
    {
        let mut island = islands_in.remove(0);
        proof {
            assert(island == orig[idx as int]);
            assert forall|k: int| 0 <= k < islands_in@.len() implies #[trigger] islands_in@[k]
                == orig[k + idx + 1] by {
            }
        }
        eval_population(spec, &mut island, MAX_CYCLES);
        let bi = argmax_fitness(&island);
        let chosen = island[bi].duplicate();
        proof {
            assert(evaluated_genome(*spec, orig[idx as int]@[bi as int], MAX_CYCLES, island@[
                bi as int]));
            assert(self_scored(*spec, chosen, MAX_CYCLES));
            assert forall|j: int| 0 <= j < orig[idx as int]@.len() implies chosen.fitness
                >= fitness_of(
                *spec,
                (#[trigger] orig[idx as int]@[j]).keys@,
                orig[idx as int]@[j].pending_stock_divider as i64,
                MAX_CYCLES,
            ) by {
                assert(evaluated_genome(*spec, orig[idx as int]@[j], MAX_CYCLES, island@[j]));
                assert(island@[j].fitness <= island@[bi as int].fitness);
            }
        }
        best_cands.push(chosen);
        islands.push(island);
        idx = idx + 1;
    }
    let mut last_improvement: Vec<i64> = fill_i64(ISLANDS_COUNT, 0);
    let mut best_fitness: Vec<i64> = fill_i64(ISLANDS_COUNT, 0);
    let mut current_reset_value: Vec<i64> = fill_i64(ISLANDS_COUNT, RESET_VALUE_GEN);
    let mut last_wipe_improvements: Vec<bool> = fill_bool(ISLANDS_COUNT, false);
    let mut g: usize = 0;
    while g < generations
        invariant
            wf_sim_spec(*spec),
            n_procs == spec.spec_n_procs(),
            1 <= n_procs < usize::MAX,
            generations <= i64::MAX,
            0 <= g <= generations,
            orig.len() == ISLANDS_COUNT,
            wf_islands(islands@, n_procs as int, ISLANDS_COUNT as int),
            good_bests(*spec, best_cands@, orig, n_procs as int),
            last_improvement@.len() == ISLANDS_COUNT,
            forall|k: int| 0 <= k < ISLANDS_COUNT ==> 0 <= #[trigger] last_improvement@[k],
            best_fitness@.len() == ISLANDS_COUNT,
            current_reset_value@.len() == ISLANDS_COUNT,
            forall|k: int|
                0 <= k < ISLANDS_COUNT ==> 0 <= #[trigger] current_reset_value@[k]
                    <= MAX_RESET_VALUE,
            last_wipe_improvements@.len() == ISLANDS_COUNT,
        decreases generations - g,
    {
        let gen_i64 = g as i64;
        let mut isl_idx: usize = 0;
        while isl_idx < ISLANDS_COUNT
            invariant
                wf_sim_spec(*spec),
                n_procs == spec.spec_n_procs(),
                1 <= n_procs < usize::MAX,
                0 <= isl_idx <= ISLANDS_COUNT,
                0 <= gen_i64,
                orig.len() == ISLANDS_COUNT,
                wf_islands(islands@, n_procs as int, ISLANDS_COUNT as int),
                good_bests(*spec, best_cands@, orig, n_procs as int),
                last_improvement@.len() == ISLANDS_COUNT,
                forall|k: int| 0 <= k < ISLANDS_COUNT ==> 0 <= #[trigger] last_improvement@[k],
                best_fitness@.len() == ISLANDS_COUNT,
                current_reset_value@.len() == ISLANDS_COUNT,
                forall|k: int|
                    0 <= k < ISLANDS_COUNT ==> 0 <= #[trigger] current_reset_value@[k]
                        <= MAX_RESET_VALUE,
                last_wipe_improvements@.len() == ISLANDS_COUNT,
            decreases ISLANDS_COUNT - isl_idx,
        {
            let ghost pre_islands = islands@;
            let mut island = islands.remove(isl_idx);
            proof {
                assert forall|k: int| 0 <= k < islands@.len() implies ((#[trigger] islands@[k])@.len()
                    == MAX_POPULATION_PER_ISLAND && wf_island(islands@[k]@, n_procs as int)) by {
                    if k < isl_idx {
                        assert(islands@[k] == pre_islands[k]);
                    } else {
                        assert(islands@[k] == pre_islands[k + 1]);
                    }
                }
            }
            let ghost pre_sort = island@;
            sort_by_fitness_desc(&mut island);
            proof {
                lemma_island_wf_from_contains(pre_sort, island@, n_procs as int);
            }
            let elite_cnt = MAX_POPULATION_PER_ISLAND * TOP_PCT_100 / 100;
            let bot_raw = (MAX_POPULATION_PER_ISLAND * BOT_PCT_100 + 50) / 100;
            let bot_cnt = if bot_raw < 1 {
                1
            } else if bot_raw > MAX_POPULATION_PER_ISLAND {
                MAX_POPULATION_PER_ISLAND
            } else {
                bot_raw
            };
            let surv0 = MAX_POPULATION_PER_ISLAND - bot_cnt;
            let survivors_end = if surv0 < elite_cnt {
                elite_cnt
            } else {
                surv0
            };
            let mut next: Vec<Genome> = Vec::new();
            if gen_i64 - last_improvement[isl_idx] > current_reset_value[isl_idx] {
                if !last_wipe_improvements[isl_idx] {
                    let step = crate::sim::divider_quot(
                        gen_i64,
                        (MAX_POPULATION_PER_ISLAND / RESET_DIVIDER) as i32,
                    );
                    proof {
                        assert(gen_i64 as int / 6int <= gen_i64 as int) by (nonlinear_arith)
                            requires
                                gen_i64 >= 0,
                        ;
                    }
                    let grown = current_reset_value[isl_idx] + step;
                    let new_crv = if grown > MAX_RESET_VALUE {
                        MAX_RESET_VALUE
                    } else {
                        grown
                    };
                    current_reset_value.set(isl_idx, new_crv);
                }
                last_improvement.set(isl_idx, gen_i64);
                last_wipe_improvements.set(isl_idx, false);
                next.push(island[0].duplicate());
                while next.len() < MAX_POPULATION_PER_ISLAND
                    invariant
                        1 <= next@.len() <= MAX_POPULATION_PER_ISLAND,
                        1 <= n_procs < usize::MAX,
                        wf_island(next@, n_procs as int),
                    decreases MAX_POPULATION_PER_ISLAND - next@.len(),
                {
                    next.push(gen_random_genome(rng, n_procs));
                }
            } else {
                let mut k: usize = 0;
                while k < elite_cnt
                    invariant
                        0 <= k <= elite_cnt,
                        elite_cnt <= island@.len(),
                        wf_island(island@, n_procs as int),
                        next@.len() == k,
                        wf_island(next@, n_procs as int),
                    decreases elite_cnt - k,
                {
                    next.push(island[k].duplicate());
                    k = k + 1;
                }
                let mut seen: Vec<Genome> = Vec::new();
                let mut sk: usize = 0;
                while sk < next.len()
                    invariant
                        0 <= sk <= next@.len(),
                    decreases next@.len() - sk,
                {
                    seen.push(next[sk].duplicate());
                    sk = sk + 1;
                }
                if isl_idx == ISLANDS_COUNT - 1 {
                    let mut i2: usize = 0;
                    while i2 < ISLANDS_COUNT - 1
                        invariant
                            0 <= i2 <= ISLANDS_COUNT - 1,
                            1 <= n_procs < usize::MAX,
                            islands@.len() == ISLANDS_COUNT - 1,
                            forall|k2: int|
                                0 <= k2 < islands@.len() ==> ((#[trigger] islands@[k2])@.len()
                                    == MAX_POPULATION_PER_ISLAND && wf_island(
                                    islands@[k2]@,
                                    n_procs as int,
                                )),
                            next@.len() <= MAX_POPULATION_PER_ISLAND,
                            wf_island(next@, n_procs as int),
                        decreases ISLANDS_COUNT - 1 - i2,
                    {
                        if next.len() < MAX_POPULATION_PER_ISLAND {
                            let ghost pre_mig = islands@;
                            let mut other = islands.remove(i2);
                            let ghost pre_other = other@;
                            sort_by_fitness_desc(&mut other);
                            proof {
                                lemma_island_wf_from_contains(pre_other, other@, n_procs as int);
                            }
                            let cand = other[0].duplicate();
                            islands.insert(i2, other);
                            proof {
                                assert forall|k2: int| 0 <= k2 < islands@.len() implies ((
                                #[trigger] islands@[k2])@.len() == MAX_POPULATION_PER_ISLAND
                                    && wf_island(islands@[k2]@, n_procs as int)) by {
                                    if k2 < i2 {
                                        assert(islands@[k2] == pre_mig[k2]);
                                    } else if k2 > i2 {
                                        assert(islands@[k2] == pre_mig[k2 - 1 + 1]);
                                    }
                                }
                            }
                            if !contains_genome(&seen, &cand) {
                                seen.push(cand.duplicate());
                                next.push(cand);
                            }
                        }
                        i2 = i2 + 1;
                    }
                    if next.len() < MAX_POPULATION_PER_ISLAND {
                        let cand = island[0].duplicate();
                        if !contains_genome(&seen, &cand) {
                            next.push(cand);
                        }
                    }
                }
                while next.len() < survivors_end
                    invariant
                        next@.len() <= MAX_POPULATION_PER_ISLAND,
                        survivors_end <= MAX_POPULATION_PER_ISLAND,
                        elite_cnt < island@.len(),
                        1 <= n_procs < usize::MAX,
                        island@.len() == MAX_POPULATION_PER_ISLAND,
                        wf_island(island@, n_procs as int),
                        wf_island(next@, n_procs as int),
                    decreases survivors_end - next@.len(),
                {
                    let (pi, pj) = pick_parents(rng, elite_cnt);
                    let mut child = crossover(rng, &island[pi], &island[pj]);
                    if rand_chance(rng, MUT_CHANCE_SWAP_PROCESS_100, 100) {
                        mutate(rng, &mut child);
                    }
                    next.push(child);
                }
                while next.len() < MAX_POPULATION_PER_ISLAND
                    invariant
                        next@.len() <= MAX_POPULATION_PER_ISLAND,
                        1 <= n_procs < usize::MAX,
                        wf_island(next@, n_procs as int),
                    decreases MAX_POPULATION_PER_ISLAND - next@.len(),
                {
                    next.push(gen_random_genome(rng, n_procs));
                }
            }
            let ghost before_eval = next@;
            eval_population(spec, &mut next, MAX_CYCLES);
            proof {
                assert forall|j: int| 0 <= j < next@.len() implies wf_genome_for(
                    #[trigger] next@[j],
                    n_procs as int,
                ) && self_scored(*spec, next@[j], MAX_CYCLES) by {
                    assert(evaluated_genome(*spec, before_eval[j], MAX_CYCLES, next@[j]));
                }
            }
            let cb = argmax_fitness(&next);
            if next[cb].fitness > best_cands[isl_idx].fitness {
                let ghost old_best = best_cands@[isl_idx as int];
                best_cands.set(isl_idx, next[cb].duplicate());
                proof {
                    assert forall|j: int| 0 <= j < orig[isl_idx as int]@.len() implies best_cands@[
                        isl_idx as int].fitness >= fitness_of(
                        *spec,
                        (#[trigger] orig[isl_idx as int]@[j]).keys@,
                        orig[isl_idx as int]@[j].pending_stock_divider as i64,
                        MAX_CYCLES,
                    ) by {
                        assert(old_best.fitness >= fitness_of(
                            *spec,
                            orig[isl_idx as int]@[j].keys@,
                            orig[isl_idx as int]@[j].pending_stock_divider as i64,
                            MAX_CYCLES,
                        ));
                    }
                }
            }
            if best_cands[isl_idx].fitness > best_fitness[isl_idx] {
                last_improvement.set(isl_idx, gen_i64);
                let bf = best_cands[isl_idx].fitness;
                best_fitness.set(isl_idx, bf);
                last_wipe_improvements.set(isl_idx, true);
            }
            let ghost before_insert = islands@;
            islands.insert(isl_idx, next);
            proof {
                assert forall|k2: int| 0 <= k2 < islands@.len() implies ((#[trigger] islands@[
                k2])@.len() == MAX_POPULATION_PER_ISLAND && wf_island(
                    islands@[k2]@,
                    n_procs as int,
                )) by {
                    if k2 < isl_idx {
                        assert(islands@[k2] == before_insert[k2]);
                    } else if k2 > isl_idx {
                        assert(islands@[k2] == before_insert[k2 - 1]);
                    }
                }
            }
            isl_idx = isl_idx + 1;
        }
        g = g + 1;
    }
    let bi = argmax_fitness(&best_cands);
    let mut best = best_cands[bi].duplicate();
    let _final_score = eval_fitness(spec, &mut best, MAX_CYCLES);
    proof {
        assert forall|i: int, j: int|
            0 <= i < ISLANDS_COUNT && 0 <= j < MAX_POPULATION_PER_ISLAND implies best.fitness
            >= fitness_of(
            *spec,
            (#[trigger] orig[i]@[j]).keys@,
            orig[i]@[j].pending_stock_divider as i64,
            MAX_CYCLES,
        ) by {
            assert(best_cands@[i].fitness <= best_cands@[bi as int].fitness);
            assert(best_cands@[i].fitness >= fitness_of(
                *spec,
                orig[i]@[j].keys@,
                orig[i]@[j].pending_stock_divider as i64,
                MAX_CYCLES,
            ));
        }
    }
    best
}

} // verus!
