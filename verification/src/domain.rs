//! The production-network specification: stocks, processes, and the
//! two forms of the specification aggregate (name-keyed as parsed, and
//! index-keyed as consumed by the simulator).

use vstd::prelude::*;

verus! {

/// The optimization goal: maximize the quantity of the named stock.
/// The two variants record how the goal was declared; both are scored
/// by the final quantity of the target stock.
#[derive(Debug, Clone)]
pub enum Optimize {
    Time(String),
    Quantity(String),
}

impl Optimize {
    /// The name of the stock the goal designates.
    pub open spec fn spec_target_name(self) -> Seq<char> {
        match self {
            Optimize::Time(name) => name@,
            Optimize::Quantity(name) => name@,
        }
    }
}

/// A named stock quantity, as it appears in declarations: either an
/// initial inventory entry or one need/result of a process.
#[derive(Debug, Clone)]
pub struct Stock {
    pub name: String,
    pub quantity: i64,
}

impl Stock {
    pub fn new(name: &str, quantity: i64) -> (s: Self)
        ensures
            s.name@ == name@,
            s.quantity == quantity,
    {
        Self { name: String::from_str(name), quantity }
    }
}

/// A transformation rule: consumes its needs now and delivers its
/// results `duration` cycles later.
#[derive(Debug, Clone)]
pub struct Process {
    pub id: usize,
    pub name: String,
    pub needs: Vec<Stock>,
    pub results: Vec<Stock>,
    pub duration: i64,
}

impl Process {
    pub fn new(id: usize, name: &str, needs: Vec<Stock>, results: Vec<Stock>, duration: i64) -> (p:
        Self)
        ensures
            p.id == id,
            p.name@ == name@,
            p.needs == needs,
            p.results == results,
            p.duration == duration,
    {
        Self { id, name: String::from_str(name), needs, results, duration }
    }
}

/// The name-keyed specification, as the parser produces it.
#[derive(Debug, Clone)]
pub struct Spec {
    pub processes: Vec<Process>,
    pub init_stocks: Vec<Stock>,
    pub optimize: Optimize,
}

impl Spec {
    pub fn new(processes: Vec<Process>, init_stocks: Vec<Stock>, optimize: Optimize) -> (s: Self)
        ensures
            s.processes == processes,
            s.init_stocks == init_stocks,
            s.optimize == optimize,
    {
        Self { processes, init_stocks, optimize }
    }
}

/// A completion event: process `proc_id` delivers its results at
/// `finish_time`.  Pending completions are kept ordered by
/// `(finish_time, proc_id)` so that ties resolve deterministically.
#[derive(Debug, Clone, Copy, PartialEq, Eq, Structural)]
pub struct Job {
    pub finish_time: i64,
    pub proc_id: usize,
}

/// The index-keyed specification the simulator consumes.  Stock names
/// are resolved once to dense ids; the id is the index into
/// `init_stocks` and into every per-stock vector of the run state.
#[derive(Debug, Clone)]
pub struct SimSpec {
    /// One list of (stock id, quantity) needs per process.
    pub needs: Vec<Vec<(usize, i64)>>,
    /// One list of (stock id, quantity) results per process.
    pub results: Vec<Vec<(usize, i64)>>,
    /// Cycles between consumption and delivery, per process.
    pub durations: Vec<i64>,
    /// Initial quantity of each stock, indexed by stock id.
    pub init_stocks: Vec<i64>,
    /// The name behind each stock id, for observation and reporting;
    /// the simulator itself never reads it.
    pub stock_names: Vec<String>,
    pub optimize: Optimize,
    pub target_stock_id: usize,
}

impl SimSpec {
    /// Number of processes.
    pub open spec fn spec_n_procs(self) -> int {
        self.needs@.len() as int
    }

    /// Number of stock ids.
    pub open spec fn spec_n_stocks(self) -> int {
        self.init_stocks@.len() as int
    }

    pub open spec fn spec_needs_of(self, p: int) -> Seq<(usize, i64)> {
        self.needs@[p]@
    }

    pub open spec fn spec_results_of(self, p: int) -> Seq<(usize, i64)> {
        self.results@[p]@
    }

    /// Whether the goal was declared as a quantity (not a time) goal.
    pub open spec fn spec_is_quantity_goal(self) -> bool {
        self.optimize is Quantity
    }
}

/// A list of (stock id, quantity) pairs is well formed when every id is
/// a valid stock index and every quantity is nonnegative.
pub open spec fn wf_entries(entries: Seq<(usize, i64)>, n_stocks: int) -> bool {
    forall|j: int|
        0 <= j < entries.len() ==> (entries[j].0 < n_stocks && entries[j].1 >= 0)
}

/// No two entries of the list name the same stock id.
pub open spec fn distinct_ids(entries: Seq<(usize, i64)>) -> bool {
    forall|j1: int, j2: int|
        0 <= j1 < j2 < entries.len() ==> entries[j1].0 != entries[j2].0
}

// ----------------------------------------------------------------
// Resolving stock names to dense ids
// ----------------------------------------------------------------
/// The views of a name table.
pub open spec fn views_of(v: Seq<String>) -> Seq<Seq<char>> {
    v.map_values(|s: String| s@)
}

/// The first position of `x` in the table, or the table's length when
/// absent.
pub open spec fn find_name(names: Seq<Seq<char>>, x: Seq<char>) -> int
    decreases names.len(),
{
    if names.len() == 0 {
        0
    } else if names[0] == x {
        0
    } else {
        1 + find_name(names.drop_first(), x)
    }
}

/// Adds `x` to the table unless it is already there.
pub open spec fn intern_name(names: Seq<Seq<char>>, x: Seq<char>) -> Seq<Seq<char>> {
    if find_name(names, x) < names.len() {
        names
    } else {
        names.push(x)
    }
}

/// Interns the names of the first `j` entries of a stock list.
pub open spec fn intern_stock_list(names: Seq<Seq<char>>, list: Seq<Stock>, j: int) -> Seq<
    Seq<char>,
>
    decreases j,
{
    if j <= 0 {
        names
    } else {
        intern_name(intern_stock_list(names, list, j - 1), list[j - 1].name@)
    }
}

/// Interns the needs and results of the first `p` processes.
pub open spec fn intern_processes(names: Seq<Seq<char>>, procs: Seq<Process>, p: int) -> Seq<
    Seq<char>,
>
    decreases p,
{
    if p <= 0 {
        names
    } else {
        let n1 = intern_processes(names, procs, p - 1);
        let n2 = intern_stock_list(n1, procs[p - 1].needs@, procs[p - 1].needs@.len() as int);
        intern_stock_list(n2, procs[p - 1].results@, procs[p - 1].results@.len() as int)
    }
}

/// The full name table of a specification: initial stocks first, then
/// each process's needs and results in order, then the target.
pub open spec fn spec_stock_names(sp: Spec) -> Seq<Seq<char>> {
    let n0 = intern_stock_list(
        Seq::empty(),
        sp.init_stocks@,
        sp.init_stocks@.len() as int,
    );
    let n1 = intern_processes(n0, sp.processes@, sp.processes@.len() as int);
    intern_name(n1, sp.optimize.spec_target_name())
}

/// The initial quantity of a name: the first declaration fixes it; a
/// stock that is never declared starts at zero.
pub open spec fn first_qty(list: Seq<Stock>, x: Seq<char>) -> i64
    decreases list.len(),
{
    if list.len() == 0 {
        0
    } else if list[0].name@ == x {
        list[0].quantity
    } else {
        first_qty(list.drop_first(), x)
    }
}

/// A stock list resolved against a name table.
pub open spec fn ids_entries(names: Seq<Seq<char>>, list: Seq<Stock>) -> Seq<(usize, i64)> {
    Seq::new(list.len(), |j: int| (find_name(names, list[j].name@) as usize, list[j].quantity))
}

/// The two optimization goals agree in kind and in target name.
pub open spec fn optimize_like(a: Optimize, b: Optimize) -> bool {
    match (a, b) {
        (Optimize::Time(x), Optimize::Time(y)) => x@ == y@,
        (Optimize::Quantity(x), Optimize::Quantity(y)) => x@ == y@,
        _ => false,
    }
}

/// A validated simulation specification; the simulator assumes it,
/// and `check_sim_spec` decides it.  Durations must be at least one
/// cycle, so that simulated time advances at every event and a
/// bounded horizon is reached after a bounded number of events.
pub open spec fn wf_sim_spec(s: SimSpec) -> bool {
    &&& s.results@.len() == s.spec_n_procs()
    &&& s.durations@.len() == s.spec_n_procs()
    &&& s.target_stock_id < s.spec_n_stocks()
    &&& forall|p: int|
        0 <= p < s.spec_n_procs() ==> wf_entries(#[trigger] s.spec_needs_of(p), s.spec_n_stocks())
    &&& forall|p: int|
        0 <= p < s.spec_n_procs() ==> wf_entries(#[trigger] s.spec_results_of(p), s.spec_n_stocks())
    &&& forall|p: int| 0 <= p < s.spec_n_procs() ==> distinct_ids(#[trigger] s.spec_needs_of(p))
    &&& forall|p: int| 0 <= p < s.spec_n_procs() ==> 1 <= #[trigger] s.durations@[p]
    &&& forall|i: int| 0 <= i < s.spec_n_stocks() ==> 0 <= #[trigger] s.init_stocks@[i]
}

// ----------------------------------------------------------------
// Facts about the name table
// ----------------------------------------------------------------
pub proof fn lemma_find_name_props(names: Seq<Seq<char>>, x: Seq<char>)
    ensures
        0 <= find_name(names, x) <= names.len(),
        find_name(names, x) < names.len() ==> names[find_name(names, x)] == x,
        forall|q: int| 0 <= q < find_name(names, x) ==> names[q] != x,
    decreases names.len(),
{
    if names.len() > 0 && names[0] != x {
        lemma_find_name_props(names.drop_first(), x);
        assert forall|q: int| 0 <= q < find_name(names, x) implies names[q] != x by {
            if q > 0 {
                assert(names.drop_first()[q - 1] == names[q]);
            }
        }
    }
}

pub proof fn lemma_find_name_at(names: Seq<Seq<char>>, x: Seq<char>, p: int)
    requires
        0 <= p <= names.len(),
        forall|q: int| 0 <= q < p ==> names[q] != x,
        p < names.len() ==> names[p] == x,
    ensures
        find_name(names, x) == p,
    decreases names.len(),
{
    if names.len() > 0 {
        if names[0] == x {
        } else {
            let rest = names.drop_first();
            assert(forall|q: int| 0 <= q < p - 1 ==> rest[q] != x);
            lemma_find_name_at(rest, x, p - 1);
        }
    }
}

/// Appending never moves an existing name.
pub proof fn lemma_find_name_push(names: Seq<Seq<char>>, x: Seq<char>, y: Seq<char>)
    requires
        find_name(names, x) < names.len(),
    ensures
        find_name(names.push(y), x) == find_name(names, x),
    decreases names.len(),
{
    lemma_find_name_props(names, x);
    let f = find_name(names, x);
    assert(forall|q: int| 0 <= q < f ==> names.push(y)[q] != x);
    assert(names.push(y)[f] == x);
    lemma_find_name_at(names.push(y), x, f);
}

/// Interning keeps every name already in the table at its id, and
/// never shrinks the table.
pub proof fn lemma_intern_preserves(names: Seq<Seq<char>>, x: Seq<char>, z: Seq<char>)
    requires
        find_name(names, z) < names.len(),
    ensures
        find_name(intern_name(names, x), z) == find_name(names, z),
        intern_name(names, x).len() >= names.len(),
{
    if find_name(names, x) < names.len() {
    } else {
        lemma_find_name_push(names, z, x);
    }
}

/// After interning, the name is in the table.
pub proof fn lemma_intern_contains(names: Seq<Seq<char>>, x: Seq<char>)
    ensures
        find_name(intern_name(names, x), x) < intern_name(names, x).len(),
{
    lemma_find_name_props(names, x);
    if find_name(names, x) < names.len() {
    } else {
        assert(forall|q: int| 0 <= q < names.len() ==> names.push(x)[q] != x);
        assert(names.push(x)[names.len() as int] == x);
        lemma_find_name_at(names.push(x), x, names.len() as int);
    }
}

pub proof fn lemma_stock_fold_preserves(
    names: Seq<Seq<char>>,
    list: Seq<Stock>,
    j: int,
    z: Seq<char>,
)
    requires
        find_name(names, z) < names.len(),
    ensures
        find_name(intern_stock_list(names, list, j), z) == find_name(names, z),
        intern_stock_list(names, list, j).len() >= names.len(),
    decreases j,
{
    if j > 0 {
        lemma_stock_fold_preserves(names, list, j - 1, z);
        lemma_intern_preserves(intern_stock_list(names, list, j - 1), list[j - 1].name@, z);
    }
}

pub proof fn lemma_proc_fold_preserves(
    names: Seq<Seq<char>>,
    procs: Seq<Process>,
    p: int,
    z: Seq<char>,
)
    requires
        find_name(names, z) < names.len(),
    ensures
        find_name(intern_processes(names, procs, p), z) == find_name(names, z),
        intern_processes(names, procs, p).len() >= names.len(),
    decreases p,
{
    if p > 0 {
        lemma_proc_fold_preserves(names, procs, p - 1, z);
        let n1 = intern_processes(names, procs, p - 1);
        lemma_stock_fold_preserves(n1, procs[p - 1].needs@, procs[p - 1].needs@.len() as int, z);
        let n2 = intern_stock_list(n1, procs[p - 1].needs@, procs[p - 1].needs@.len() as int);
        lemma_stock_fold_preserves(
            n2,
            procs[p - 1].results@,
            procs[p - 1].results@.len() as int,
            z,
        );
    }
}

/// Every name of the list is in the table after the fold.
pub proof fn lemma_stock_fold_contains(names: Seq<Seq<char>>, list: Seq<Stock>, j: int)
    requires
        0 <= j <= list.len(),
    ensures
        forall|q: int|
            0 <= q < j ==> find_name(intern_stock_list(names, list, j), (#[trigger] list[q]).name@)
                < intern_stock_list(names, list, j).len(),
    decreases j,
{
    if j > 0 {
        lemma_stock_fold_contains(names, list, j - 1);
        let prev = intern_stock_list(names, list, j - 1);
        lemma_intern_contains(prev, list[j - 1].name@);
        assert forall|q: int|
            0 <= q < j implies find_name(
            intern_stock_list(names, list, j),
            (#[trigger] list[q]).name@,
        ) < intern_stock_list(names, list, j).len() by {
            if q < j - 1 {
                lemma_intern_preserves(prev, list[j - 1].name@, list[q].name@);
            }
        }
    }
}

/// Every need and result name of the first `p` processes is in the
/// table after the fold.
pub proof fn lemma_proc_fold_contains(names: Seq<Seq<char>>, procs: Seq<Process>, p: int)
    requires
        0 <= p <= procs.len(),
    ensures
        forall|pp: int, q: int|
            0 <= pp < p && 0 <= q < procs[pp].needs@.len() ==> find_name(
                intern_processes(names, procs, p),
                (#[trigger] procs[pp].needs@[q]).name@,
            ) < intern_processes(names, procs, p).len(),
        forall|pp: int, q: int|
            0 <= pp < p && 0 <= q < procs[pp].results@.len() ==> find_name(
                intern_processes(names, procs, p),
                (#[trigger] procs[pp].results@[q]).name@,
            ) < intern_processes(names, procs, p).len(),
    decreases p,
{
    if p > 0 {
        lemma_proc_fold_contains(names, procs, p - 1);
        let n1 = intern_processes(names, procs, p - 1);
        let needs = procs[p - 1].needs@;
        let results = procs[p - 1].results@;
        let n2 = intern_stock_list(n1, needs, needs.len() as int);
        let n3 = intern_stock_list(n2, results, results.len() as int);
        lemma_stock_fold_contains(n1, needs, needs.len() as int);
        lemma_stock_fold_contains(n2, results, results.len() as int);
        assert forall|pp: int, q: int|
            0 <= pp < p && 0 <= q < procs[pp].needs@.len() implies find_name(
            n3,
            (#[trigger] procs[pp].needs@[q]).name@,
        ) < n3.len() by {
            if pp < p - 1 {
                lemma_stock_fold_preserves(n1, needs, needs.len() as int, procs[pp].needs@[q].name@);
                lemma_stock_fold_preserves(
                    n2,
                    results,
                    results.len() as int,
                    procs[pp].needs@[q].name@,
                );
            } else {
                lemma_stock_fold_preserves(n2, results, results.len() as int, needs[q].name@);
            }
        }
        assert forall|pp: int, q: int|
            0 <= pp < p && 0 <= q < procs[pp].results@.len() implies find_name(
            n3,
            (#[trigger] procs[pp].results@[q]).name@,
        ) < n3.len() by {
            if pp < p - 1 {
                lemma_stock_fold_preserves(
                    n1,
                    needs,
                    needs.len() as int,
                    procs[pp].results@[q].name@,
                );
                lemma_stock_fold_preserves(
                    n2,
                    results,
                    results.len() as int,
                    procs[pp].results@[q].name@,
                );
            }
        }
    }
}

// ----------------------------------------------------------------
// Building the index-keyed specification
// ----------------------------------------------------------------
impl Optimize {
    /// An exact copy.
    pub fn duplicate(&self) -> (o: Optimize)
        ensures
            optimize_like(o, *self),
            o.spec_target_name() == self.spec_target_name(),
            o is Quantity <==> self is Quantity,
    {
        match self {
            Optimize::Time(n) => Optimize::Time(String::from_str(n.as_str())),
            Optimize::Quantity(n) => Optimize::Quantity(String::from_str(n.as_str())),
        }
    }

    /// The name of the target stock.
    pub fn target_name(&self) -> (n: &String)
        ensures
            n@ == self.spec_target_name(),
    {
        match self {
            Optimize::Time(n) => n,
            Optimize::Quantity(n) => n,
        }
    }
}

/// The position of the name in the table, or the table's length when
/// absent.
fn find_name_pos(names: &Vec<String>, x: &String) -> (i: usize)
    ensures
        i as int == find_name(views_of(names@), x@),
        i <= names@.len(),
{
    let n = names.len();
    let mut i: usize = 0;
    while i < n
        invariant
            0 <= i <= n,
            n == names@.len(),
            forall|q: int| 0 <= q < i ==> views_of(names@)[q] != x@,
        decreases n - i,
    {
        if names[i] == *x {
            proof {
                assert(views_of(names@)[i as int] == x@);
                lemma_find_name_at(views_of(names@), x@, i as int);
            }
            return i;
        }
        proof {
            assert(views_of(names@)[i as int] == names@[i as int]@);
        }
        i = i + 1;
    }
    proof {
        lemma_find_name_at(views_of(names@), x@, n as int);
    }
    i
}

/// Adds the name to the table unless it is already there.
fn intern_push(names: &mut Vec<String>, x: &String)
    ensures
        views_of(final(names)@) == intern_name(views_of(old(names)@), x@),
{
    let pos = find_name_pos(names, x);
    if pos == names.len() {
        names.push(x.clone());
        proof {
            assert(views_of(names@) =~= views_of(old(names)@).push(x@));
        }
    }
}

/// The quantity of the first declaration of the name, zero when it is
/// never declared.
fn first_qty_exec(list: &Vec<Stock>, x: &String) -> (q: i64)
    ensures
        q == first_qty(list@, x@),
{
    let n = list.len();
    let mut i: usize = 0;
    proof {
        assert(list@.subrange(0, n as int) =~= list@);
    }
    while i < n
        invariant
            0 <= i <= n,
            n == list@.len(),
            first_qty(list@, x@) == first_qty(list@.subrange(i as int, n as int), x@),
        decreases n - i,
    {
        if list[i].name == *x {
            proof {
                assert(list@.subrange(i as int, n as int)[0] == list@[i as int]);
            }
            return list[i].quantity;
        }
        proof {
            assert(list@.subrange(i as int, n as int).drop_first() =~= list@.subrange(
                i + 1,
                n as int,
            ));
        }
        i = i + 1;
    }
    proof {
        assert(list@.subrange(n as int, n as int).len() == 0);
    }
    0
}

impl SimSpec {
    /// Resolves the name-keyed specification to the index-keyed form
    /// the simulator consumes.  Stock ids are assigned in order of
    /// first appearance: initial stocks, then each process's needs
    /// and results, then the target.  The first declaration of a name
    /// fixes its initial quantity; a stock that only ever appears in
    /// a process starts at zero, as does the target when it is never
    /// declared.
    pub fn from_spec(spec: &Spec) -> (s: SimSpec)
        ensures
            views_of(s.stock_names@) == spec_stock_names(*spec),
            s.init_stocks@.len() == s.stock_names@.len(),
            forall|i: int|
                0 <= i < s.init_stocks@.len() ==> #[trigger] s.init_stocks@[i] == first_qty(
                    spec.init_stocks@,
                    spec_stock_names(*spec)[i],
                ),
            s.needs@.len() == spec.processes@.len(),
            s.results@.len() == spec.processes@.len(),
            s.durations@.len() == spec.processes@.len(),
            forall|p: int|
                0 <= p < spec.processes@.len() ==> #[trigger] s.spec_needs_of(p) == ids_entries(
                    spec_stock_names(*spec),
                    spec.processes@[p].needs@,
                ),
            forall|p: int|
                0 <= p < spec.processes@.len() ==> #[trigger] s.spec_results_of(p) == ids_entries(
                    spec_stock_names(*spec),
                    spec.processes@[p].results@,
                ),
            forall|p: int|
                0 <= p < spec.processes@.len() ==> #[trigger] s.durations@[p]
                    == spec.processes@[p].duration,
            optimize_like(s.optimize, spec.optimize),
            s.target_stock_id as int == find_name(
                spec_stock_names(*spec),
                spec.optimize.spec_target_name(),
            ),
            s.target_stock_id < s.stock_names@.len(),
    {
        let mut names: Vec<String> = Vec::new();
        let n_init = spec.init_stocks.len();
        let mut k: usize = 0;
        while k < n_init
            invariant
                0 <= k <= n_init,
                n_init == spec.init_stocks@.len(),
                views_of(names@) == intern_stock_list(Seq::empty(), spec.init_stocks@, k as int),
            decreases n_init - k,
        {
            intern_push(&mut names, &spec.init_stocks[k].name);
            k = k + 1;
        }
        let ghost n0 = views_of(names@);
        let n_procs = spec.processes.len();
        let mut p: usize = 0;
        while p < n_procs
            invariant
                0 <= p <= n_procs,
                n_procs == spec.processes@.len(),
                views_of(names@) == intern_processes(n0, spec.processes@, p as int),
            decreases n_procs - p,
        {
            let needs_list = &spec.processes[p].needs;
            let n_needs = needs_list.len();
            let ghost base = views_of(names@);
            let mut j: usize = 0;
            while j < n_needs
                invariant
                    0 <= j <= n_needs,
                    n_needs == needs_list@.len(),
                    views_of(names@) == intern_stock_list(base, needs_list@, j as int),
                decreases n_needs - j,
            {
                intern_push(&mut names, &needs_list[j].name);
                j = j + 1;
            }
            let results_list = &spec.processes[p].results;
            let n_results = results_list.len();
            let ghost base2 = views_of(names@);
            let mut j2: usize = 0;
            while j2 < n_results
                invariant
                    0 <= j2 <= n_results,
                    n_results == results_list@.len(),
                    views_of(names@) == intern_stock_list(base2, results_list@, j2 as int),
                decreases n_results - j2,
            {
                intern_push(&mut names, &results_list[j2].name);
                j2 = j2 + 1;
            }
            p = p + 1;
        }
        let ghost n1 = views_of(names@);
        intern_push(&mut names, spec.optimize.target_name());
        let ghost allnames = views_of(names@);
        proof {
            assert(allnames == spec_stock_names(*spec));
            lemma_proc_fold_contains(n0, spec.processes@, n_procs as int);
            lemma_intern_contains(n1, spec.optimize.spec_target_name());
            assert forall|pp: int, q: int|
                0 <= pp < n_procs && 0 <= q < spec.processes@[pp].needs@.len() implies find_name(
                allnames,
                (#[trigger] spec.processes@[pp].needs@[q]).name@,
            ) < allnames.len() by {
                lemma_intern_preserves(
                    n1,
                    spec.optimize.spec_target_name(),
                    spec.processes@[pp].needs@[q].name@,
                );
            }
            assert forall|pp: int, q: int|
                0 <= pp < n_procs && 0 <= q < spec.processes@[pp].results@.len() implies find_name(
                allnames,
                (#[trigger] spec.processes@[pp].results@[q]).name@,
            ) < allnames.len() by {
                lemma_intern_preserves(
                    n1,
                    spec.optimize.spec_target_name(),
                    spec.processes@[pp].results@[q].name@,
                );
            }
        }
        let n_names = names.len();
        let mut init_stocks: Vec<i64> = Vec::new();
        let mut id: usize = 0;
        while id < n_names
            invariant
                0 <= id <= n_names,
                n_names == names@.len(),
                allnames == views_of(names@),
                init_stocks@.len() == id,
                forall|i: int|
                    0 <= i < id ==> #[trigger] init_stocks@[i] == first_qty(
                        spec.init_stocks@,
                        allnames[i],
                    ),
            decreases n_names - id,
        {
            let q = first_qty_exec(&spec.init_stocks, &names[id]);
            proof {
                assert(views_of(names@)[id as int] == names@[id as int]@);
            }
            init_stocks.push(q);
            id = id + 1;
        }
        let mut needs: Vec<Vec<(usize, i64)>> = Vec::new();
        let mut results: Vec<Vec<(usize, i64)>> = Vec::new();
        let mut durations: Vec<i64> = Vec::new();
        let mut p2: usize = 0;
        while p2 < n_procs
            invariant
                0 <= p2 <= n_procs,
                n_procs == spec.processes@.len(),
                allnames == views_of(names@),
                needs@.len() == p2,
                results@.len() == p2,
                durations@.len() == p2,
                forall|pp: int, q: int|
                    0 <= pp < n_procs && 0 <= q < spec.processes@[pp].needs@.len() ==> find_name(
                        allnames,
                        (#[trigger] spec.processes@[pp].needs@[q]).name@,
                    ) < allnames.len(),
                forall|pp: int, q: int|
                    0 <= pp < n_procs && 0 <= q < spec.processes@[pp].results@.len() ==> find_name(
                        allnames,
                        (#[trigger] spec.processes@[pp].results@[q]).name@,
                    ) < allnames.len(),
                forall|pp: int|
                    0 <= pp < p2 ==> (#[trigger] needs@[pp])@ == ids_entries(
                        allnames,
                        spec.processes@[pp].needs@,
                    ),
                forall|pp: int|
                    0 <= pp < p2 ==> (#[trigger] results@[pp])@ == ids_entries(
                        allnames,
                        spec.processes@[pp].results@,
                    ),
                forall|pp: int|
                    0 <= pp < p2 ==> #[trigger] durations@[pp] == spec.processes@[pp].duration,
            decreases n_procs - p2,
        {
            let needs_entries = resolve_entries(&names, &spec.processes[p2].needs, Ghost(allnames));
            let result_entries = resolve_entries(
                &names,
                &spec.processes[p2].results,
                Ghost(allnames),
            );
            needs.push(needs_entries);
            results.push(result_entries);
            durations.push(spec.processes[p2].duration);
            p2 = p2 + 1;
        }
        let target_stock_id = find_name_pos(&names, spec.optimize.target_name());
        proof {
            lemma_find_name_props(allnames, spec.optimize.spec_target_name());
        }
        SimSpec {
            needs,
            results,
            durations,
            init_stocks,
            stock_names: names,
            optimize: spec.optimize.duplicate(),
            target_stock_id,
        }
    }
}

/// Decides whether one entry list is well formed.
fn check_entries(entries: &Vec<(usize, i64)>, n_stocks: usize) -> (b: bool)
    ensures
        b == wf_entries(entries@, n_stocks as int),
{
    let n = entries.len();
    let mut j: usize = 0;
    while j < n
        invariant
            0 <= j <= n,
            n == entries@.len(),
            forall|q: int|
                0 <= q < j ==> ((#[trigger] entries@[q]).0 < n_stocks && entries@[q].1 >= 0),
        decreases n - j,
    {
        let (sid, qty) = entries[j];
        if sid >= n_stocks || qty < 0 {
            return false;
        }
        j = j + 1;
    }
    true
}

/// Decides whether one entry list names each stock at most once.
fn check_distinct(entries: &Vec<(usize, i64)>) -> (b: bool)
    ensures
        b == distinct_ids(entries@),
{
    let n = entries.len();
    let mut j1: usize = 0;
    while j1 < n
        invariant
            0 <= j1 <= n,
            n == entries@.len(),
            forall|q1: int, q2: int|
                0 <= q1 < q2 < entries@.len() && q1 < j1 ==> (#[trigger] entries@[q1]).0 != (
                #[trigger] entries@[q2]).0,
        decreases n - j1,
    {
        let mut j2: usize = j1 + 1;
        while j2 < n
            invariant
                j1 < j2 <= n,
                j1 < n,
                n == entries@.len(),
                forall|q2: int|
                    j1 < q2 < j2 ==> (#[trigger] entries@[q2]).0 != entries@[j1 as int].0,
            decreases n - j2,
        {
            if entries[j2].0 == entries[j1].0 {
                return false;
            }
            j2 = j2 + 1;
        }
        j1 = j1 + 1;
    }
    true
}

/// Decides `wf_sim_spec`, so an unverified caller can establish the
/// simulator's precondition before evaluating anything.
pub fn check_sim_spec(s: &SimSpec) -> (b: bool)
    ensures
        b == wf_sim_spec(*s),
{
    let n_procs = s.needs.len();
    let n_stocks = s.init_stocks.len();
    if s.results.len() != n_procs || s.durations.len() != n_procs {
        return false;
    }
    if s.target_stock_id >= n_stocks {
        return false;
    }
    let mut p: usize = 0;
    while p < n_procs
        invariant
            0 <= p <= n_procs,
            n_procs == s.needs@.len(),
            n_stocks == s.init_stocks@.len(),
            s.results@.len() == n_procs,
            s.durations@.len() == n_procs,
            forall|q: int|
                0 <= q < p ==> wf_entries(#[trigger] s.spec_needs_of(q), n_stocks as int),
            forall|q: int|
                0 <= q < p ==> wf_entries(#[trigger] s.spec_results_of(q), n_stocks as int),
            forall|q: int| 0 <= q < p ==> distinct_ids(#[trigger] s.spec_needs_of(q)),
            forall|q: int| 0 <= q < p ==> 1 <= #[trigger] s.durations@[q],
        decreases n_procs - p,
    {
        if !check_entries(&s.needs[p], n_stocks) {
            proof {
                assert(!wf_entries(s.spec_needs_of(p as int), s.spec_n_stocks()));
            }
            return false;
        }
        if !check_entries(&s.results[p], n_stocks) {
            proof {
                assert(!wf_entries(s.spec_results_of(p as int), s.spec_n_stocks()));
            }
            return false;
        }
        if !check_distinct(&s.needs[p]) {
            proof {
                assert(!distinct_ids(s.spec_needs_of(p as int)));
            }
            return false;
        }
        if s.durations[p] < 1 {
            return false;
        }
        p = p + 1;
    }
    let mut i: usize = 0;
    while i < n_stocks
        invariant
            0 <= i <= n_stocks,
            n_stocks == s.init_stocks@.len(),
            forall|q: int| 0 <= q < i ==> 0 <= #[trigger] s.init_stocks@[q],
        decreases n_stocks - i,
    {
        if s.init_stocks[i] < 0 {
            return false;
        }
        i = i + 1;
    }
    proof {
        assert(wf_sim_spec(*s));
    }
    true
}

/// Resolves one stock list against the name table; every name must be
/// in the table.
fn resolve_entries(names: &Vec<String>, list: &Vec<Stock>, Ghost(allnames): Ghost<Seq<Seq<char>>>)
    -> (entries: Vec<(usize, i64)>)
    requires
        allnames == views_of(names@),
        forall|q: int|
            0 <= q < list@.len() ==> find_name(allnames, (#[trigger] list@[q]).name@)
                < allnames.len(),
    ensures
        entries@ == ids_entries(allnames, list@),
{
    let n = list.len();
    let mut entries: Vec<(usize, i64)> = Vec::new();
    let mut j: usize = 0;
    while j < n
        invariant
            0 <= j <= n,
            n == list@.len(),
            allnames == views_of(names@),
            entries@.len() == j,
            forall|q: int|
                0 <= q < list@.len() ==> find_name(allnames, (#[trigger] list@[q]).name@)
                    < allnames.len(),
            forall|q: int|
                0 <= q < j ==> #[trigger] entries@[q] == (
                    find_name(allnames, list@[q].name@) as usize,
                    list@[q].quantity,
                ),
        decreases n - j,
    {
        let sid = find_name_pos(names, &list[j].name);
        entries.push((sid, list[j].quantity));
        j = j + 1;
    }
    proof {
        assert(entries@ =~= ids_entries(allnames, list@));
    }
    entries
}

} // verus!
