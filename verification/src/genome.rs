//! Candidate policies.  A genome carries one priority key per process
//! (lower key means the process is considered earlier each tick), a
//! throttling divider, a flag recording whether any process was
//! disabled at generation time, and the fitness assigned by the last
//! evaluation.

use vstd::prelude::*;

verus! {

/// Priority keys are held at a fine integer resolution: an active key
/// is a value in `[0, KEY_SCALE)`, standing for the real number
/// `key / KEY_SCALE` in `[0, 1)`.
pub const KEY_SCALE: u64 = 1_000_000_000;

/// Width of one quantization bucket: keys are compared for equality at
/// a tolerance of `KEY_QUANTUM / KEY_SCALE` (one part in a million).
pub const KEY_QUANTUM: u64 = 1_000;

/// One priority key.  A disabled process is marked by its own variant
/// rather than by a reserved key value, so no legitimate key can
/// collide with the marker; a disabled process sorts after every
/// active one.
#[derive(Debug, Clone, Copy, PartialEq, Eq, Structural)]
pub enum Key {
    Active(u64),
    Disabled,
}

/// A candidate policy.
#[derive(Debug, Clone)]
pub struct Genome {
    pub keys: Vec<Key>,
    pub fitness: i64,
    pub pending_stock_divider: i32,
    pub disabled_processes: bool,
}

impl Genome {
    pub fn new(keys: Vec<Key>, fitness: i64, pending_stock_divider: i32, disabled_processes: bool)
        -> (g: Self)
        ensures
            g.keys == keys,
            g.fitness == fitness,
            g.pending_stock_divider == pending_stock_divider,
            g.disabled_processes == disabled_processes,
    {
        Self { keys, fitness, pending_stock_divider, disabled_processes }
    }
}

impl Genome {
    /// An exact copy, field by field.
    pub fn duplicate(&self) -> (g: Genome)
        ensures
            g.keys@ == self.keys@,
            g.fitness == self.fitness,
            g.pending_stock_divider == self.pending_stock_divider,
            g.disabled_processes == self.disabled_processes,
    {
        let mut keys: Vec<Key> = Vec::new();
        let n = self.keys.len();
        let mut i: usize = 0;
        while i < n
            invariant
                n == self.keys@.len(),
                0 <= i <= n,
                keys@ == self.keys@.subrange(0, i as int),
            decreases n - i,
        {
            keys.push(self.keys[i]);
            proof {
                assert(keys@ =~= self.keys@.subrange(0, i + 1));
            }
            i = i + 1;
        }
        proof {
            assert(keys@ =~= self.keys@);
        }
        Genome {
            keys,
            fitness: self.fitness,
            pending_stock_divider: self.pending_stock_divider,
            disabled_processes: self.disabled_processes,
        }
    }
}

/// A genome fit to drive a simulation over specification with
/// `n_procs` processes: one key per process, and a divider of at least
/// one so that the throttling division is defined.
pub open spec fn wf_genome_for(g: Genome, n_procs: int) -> bool {
    &&& g.keys@.len() == n_procs
    &&& g.pending_stock_divider >= 1
}

/// The quantization bucket of a fine-resolution key value: the nearest
/// multiple of `KEY_QUANTUM`, halves rounding up.
pub open spec fn spec_quantize(k: u64) -> u64 {
    ((k as int + KEY_QUANTUM as int / 2) / KEY_QUANTUM as int) as u64
}

/// Rounds a key value to its quantization bucket.
pub fn quantize(k: u64) -> (q: u64)
    ensures
        q == spec_quantize(k),
{
    let whole = k / KEY_QUANTUM;
    let part = k % KEY_QUANTUM;
    let q = if part >= KEY_QUANTUM / 2 {
        whole + 1
    } else {
        whole
    };
    proof {
        assert(k == KEY_QUANTUM * whole + part && whole <= k) by (nonlinear_arith)
            requires
                whole == k as int / KEY_QUANTUM as int,
                part == k as int % KEY_QUANTUM as int,
                KEY_QUANTUM == 1000,
        ;
        assert((k as int + 500) / 1000 == whole as int + (part as int + 500) / 1000)
            by (nonlinear_arith)
            requires
                k == 1000 * whole + part,
                0 <= part < 1000,
        ;
    }
    q
}

/// Two keys are equal up to quantization: both disabled, or both
/// active and in the same quantization bucket.
pub open spec fn keys_quantized_eq(a: Key, b: Key) -> bool {
    match (a, b) {
        (Key::Active(x), Key::Active(y)) => spec_quantize(x) == spec_quantize(y),
        (Key::Disabled, Key::Disabled) => true,
        _ => false,
    }
}

/// Genome equality for deduplication: dividers and disabled flags
/// match exactly, and every priority key matches up to quantization.
pub open spec fn genomes_equal(a: Genome, b: Genome) -> bool {
    &&& a.pending_stock_divider == b.pending_stock_divider
    &&& a.disabled_processes == b.disabled_processes
    &&& a.keys@.len() == b.keys@.len()
    &&& forall|i: int| 0 <= i < a.keys@.len() ==> keys_quantized_eq(#[trigger] a.keys@[i], b.keys@[i])
}

/// Keys more than one quantization step apart land in different
/// buckets.
pub proof fn lemma_quantize_separates(x: u64, y: u64)
    requires
        x + KEY_QUANTUM < y,
    ensures
        spec_quantize(x) != spec_quantize(y),
{
    assert((x as int + 500) / 1000 < (y as int + 500) / 1000) by (nonlinear_arith)
        requires
            x as int + 1000 < y as int,
            x >= 0,
    ;
}

/// Quantized equality is tolerant: genomes whose dividers and
/// disabled flags match and whose keys fall pairwise into the same
/// quantization buckets are duplicates, however the keys differ below
/// that resolution.
pub proof fn lemma_quantized_eq_tolerant(a: Genome, b: Genome)
    requires
        a.pending_stock_divider == b.pending_stock_divider,
        a.disabled_processes == b.disabled_processes,
        a.keys@.len() == b.keys@.len(),
        forall|i: int| 0 <= i < a.keys@.len() ==> keys_quantized_eq(#[trigger] a.keys@[i], b.keys@[i]),
    ensures
        genomes_equal(a, b),
{
}

/// Quantized equality separates: genomes carrying a pair of active
/// keys more than one quantization step apart are distinct, whatever
/// the rest of their keys.
pub proof fn lemma_quantized_eq_separates(a: Genome, b: Genome, i: int)
    requires
        0 <= i < a.keys@.len(),
        0 <= i < b.keys@.len(),
        a.keys@[i] matches Key::Active(x) && b.keys@[i] matches Key::Active(y) && x + KEY_QUANTUM
            < y,
    ensures
        !genomes_equal(a, b),
{
    let x = a.keys@[i]->Active_0;
    let y = b.keys@[i]->Active_0;
    lemma_quantize_separates(x, y);
    assert(!keys_quantized_eq(a.keys@[i], b.keys@[i]));
}

/// Decides `genomes_equal`.  Fitness is deliberately ignored: two
/// genomes that encode the same policy are duplicates whether or not
/// both have been evaluated yet.
pub fn genome_eq(a: &Genome, b: &Genome) -> (r: bool)
    ensures
        r == genomes_equal(*a, *b),
{
    if a.pending_stock_divider != b.pending_stock_divider {
        return false;
    }
    if a.disabled_processes != b.disabled_processes {
        return false;
    }
    if a.keys.len() != b.keys.len() {
        return false;
    }
    let n = a.keys.len();
    let mut i: usize = 0;
    while i < n
        invariant
            n == a.keys@.len(),
            n == b.keys@.len(),
            0 <= i <= n,
            forall|j: int| 0 <= j < i ==> keys_quantized_eq(#[trigger] a.keys@[j], b.keys@[j]),
        decreases n - i,
    {
        let ka = a.keys[i];
        let kb = b.keys[i];
        let same = match (ka, kb) {
            (Key::Active(x), Key::Active(y)) => quantize(x) == quantize(y),
            (Key::Disabled, Key::Disabled) => true,
            _ => false,
        };
        if !same {
            return false;
        }
        i = i + 1;
    }
    true
}

} // verus!
