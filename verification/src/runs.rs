//! The dense symbol-by-run matrix and the operations that grow and order it.

use vstd::prelude::*;

use crate::args::{SortBy, SortByField, SortByOrder};
use crate::Error;

verus! {

/// A symbol and its instruction count in a single run.
#[derive(Debug)]
pub struct AnnotatedSymbol {
    /// The name of the symbol.
    pub name: String,
    /// The instruction count for that run.
    pub ir: u64,
}

/// A symbol and its instruction counts across runs.
#[derive(Debug)]
pub struct RecordsSymbol {
    /// The name of the symbol.
    pub name: String,
    /// One instruction count per run, aligned with the run order.
    pub irs: Vec<u64>,
}

/// One profiling session's results.
#[derive(Debug)]
pub struct Run {
    /// The display label of the run; possibly empty.
    pub name: String,
    /// The symbols that were hit and their instruction counts, with unique
    /// names: a symbol hit several times has its counts summed.
    pub symbols: Vec<AnnotatedSymbol>,
    /// The run's own reported grand total; for display only.
    pub total_ir: u64,
}

/// The records of multiple runs: a dense symbol-by-run matrix plus run
/// metadata.
#[derive(Debug)]
pub struct Records {
    /// The display labels of the runs, in the order they were added.
    pub run_names: Vec<String>,
    /// The reported total of each run, aligned with `run_names`.
    pub runs_total_irs: Vec<u64>,
    /// The symbols, each holding one count per run, in first-seen order.
    pub symbols: Vec<RecordsSymbol>,
}

/// Mathematical model of an `AnnotatedSymbol`.
pub struct SymbolCountModel {
    pub name: Seq<char>,
    pub ir: u64,
}

/// Mathematical model of a `RecordsSymbol`.
pub struct RecordsSymbolModel {
    pub name: Seq<char>,
    pub irs: Seq<u64>,
}

/// Mathematical model of a `Run`.
pub struct RunModel {
    pub name: Seq<char>,
    pub symbols: Seq<SymbolCountModel>,
    pub total_ir: u64,
}

/// Mathematical model of `Records`.
pub struct RecordsModel {
    pub run_names: Seq<Seq<char>>,
    pub runs_total_irs: Seq<u64>,
    pub symbols: Seq<RecordsSymbolModel>,
}

impl View for AnnotatedSymbol {
    type V = SymbolCountModel;

    open spec fn view(&self) -> SymbolCountModel {
        SymbolCountModel { name: self.name@, ir: self.ir }
    }
}

impl View for RecordsSymbol {
    type V = RecordsSymbolModel;

    open spec fn view(&self) -> RecordsSymbolModel {
        RecordsSymbolModel { name: self.name@, irs: self.irs@ }
    }
}

impl View for Run {
    type V = RunModel;

    open spec fn view(&self) -> RunModel {
        RunModel {
            name: self.name@,
            symbols: Seq::new(self.symbols@.len(), |i: int| self.symbols@[i]@),
            total_ir: self.total_ir,
        }
    }
}

impl View for Records {
    type V = RecordsModel;

    open spec fn view(&self) -> RecordsModel {
        RecordsModel {
            run_names: Seq::new(self.run_names@.len(), |i: int| self.run_names@[i]@),
            runs_total_irs: self.runs_total_irs@,
            symbols: Seq::new(self.symbols@.len(), |i: int| self.symbols@[i]@),
        }
    }
}

/// The names of a model's symbols, in order.
pub open spec fn rec_names(syms: Seq<RecordsSymbolModel>) -> Seq<Seq<char>> {
    syms.map_values(|s: RecordsSymbolModel| s.name)
}

/// The names of a run's symbols, in order.
pub open spec fn run_names_of(syms: Seq<SymbolCountModel>) -> Seq<Seq<char>> {
    syms.map_values(|s: SymbolCountModel| s.name)
}

/// Index of the first occurrence of `name` in `names`, or `-1`.
pub open spec fn find_name(names: Seq<Seq<char>>, name: Seq<char>) -> int
    decreases names.len(),
{
    if names.len() == 0 {
        -1
    } else if names[0] == name {
        0
    } else {
        let r = find_name(names.drop_first(), name);
        if r == -1 {
            -1
        } else {
            r + 1
        }
    }
}

/// What `find_name` returns: either a first match, or no match at all.
pub proof fn lemma_find_name_props(names: Seq<Seq<char>>, name: Seq<char>)
    ensures
        find_name(names, name) == -1 ==> forall|i: int| 0 <= i < names.len() ==> names[i] != name,
        find_name(names, name) != -1 ==> {
            let r = find_name(names, name);
            &&& 0 <= r < names.len()
            &&& names[r] == name
            &&& forall|i: int| 0 <= i < r ==> names[i] != name
        },
    decreases names.len(),
{
    if names.len() > 0 && names[0] != name {
        lemma_find_name_props(names.drop_first(), name);
        assert(forall|i: int| 1 <= i < names.len() ==> names[i] == names.drop_first()[i - 1]);
    }
}

/// If the first `k` names differ from `name`, the search result is the same
/// as searching from position `k`, shifted back.
pub proof fn lemma_find_name_from(names: Seq<Seq<char>>, name: Seq<char>, k: int)
    requires
        0 <= k <= names.len(),
        forall|i: int| 0 <= i < k ==> names[i] != name,
    ensures
        find_name(names.skip(k), name) == -1 ==> find_name(names, name) == -1,
        find_name(names.skip(k), name) != -1 ==> find_name(names, name) == find_name(
            names.skip(k),
            name,
        ) + k,
    decreases k,
{
    if k == 0 {
        assert(names.skip(0) =~= names);
        assert(find_name(names.skip(k), name) == find_name(names, name));
    } else {
        assert(names[0] != name);
        assert(names.drop_first() =~= names.skip(1));
        assert(forall|i: int| 0 <= i < k - 1 ==> names.skip(1)[i] == names[i + 1]);
        lemma_find_name_from(names.skip(1), name, k - 1);
        assert(names.skip(1).skip(k - 1) =~= names.skip(k));
        let r1 = find_name(names.skip(1), name);
        let rk = find_name(names.skip(k), name);
        lemma_find_name_props(names.skip(k), name);
        assert(find_name(names.drop_first(), name) == r1);
        assert(find_name(names, name) == (if r1 == -1 {
            -1int
        } else {
            r1 + 1
        }));
        assert(r1 == (if rk == -1 {
            -1int
        } else {
            rk + (k - 1)
        }));
    }
}

/// `Run::add_ir` on the model: add to the first symbol of that name, or
/// append a new one.
pub open spec fn spec_add_ir(
    syms: Seq<SymbolCountModel>,
    name: Seq<char>,
    ir: u64,
) -> Seq<SymbolCountModel> {
    let i = find_name(run_names_of(syms), name);
    if i >= 0 {
        syms.update(i, SymbolCountModel { name: syms[i].name, ir: crate::sat_add(syms[i].ir, ir) })
    } else {
        syms.push(SymbolCountModel { name: name, ir: ir })
    }
}

/// No two symbols of the run share a name.
pub open spec fn unique_run_names(syms: Seq<SymbolCountModel>) -> bool {
    forall|i: int, j: int| 0 <= i < j < syms.len() ==> syms[i].name != syms[j].name
}

/// No two symbols of the records share a name.
pub open spec fn unique_rec_names(syms: Seq<RecordsSymbolModel>) -> bool {
    forall|i: int, j: int| 0 <= i < j < syms.len() ==> syms[i].name != syms[j].name
}

impl Run {
    /// The run holds no two symbols of the same name.
    pub open spec fn wf(self) -> bool {
        unique_run_names(self@.symbols)
    }

    /// Create a new run.
    pub fn new() -> (r: Self)
        ensures
            r@.name == Seq::<char>::empty(),
            r@.symbols == Seq::<SymbolCountModel>::empty(),
            r@.total_ir == 0,
            r.wf(),
    {
        let r = Run { name: String::new(), symbols: Vec::new(), total_ir: 0 };
        proof {
            assert(r@.symbols =~= Seq::<SymbolCountModel>::empty());
        }
        r
    }

    /// Create a new run with a name.
    pub fn new_named(name: String) -> (r: Self)
        ensures
            r@.name == name@,
            r@.symbols == Seq::<SymbolCountModel>::empty(),
            r@.total_ir == 0,
            r.wf(),
    {
        let r = Run { name, symbols: Vec::new(), total_ir: 0 };
        proof {
            assert(r@.symbols =~= Seq::<SymbolCountModel>::empty());
        }
        r
    }

    /// Add an instruction count for the given symbol in the run.
    ///
    /// This may be called multiple times with the same symbol; inlining can
    /// attribute one symbol to several source locations. Each call adds onto
    /// the count already recorded, saturating at `u64::MAX`.
    pub fn add_ir(&mut self, symbol: &str, ir: u64)
        ensures
            final(self)@.symbols == spec_add_ir(old(self)@.symbols, symbol@, ir),
            final(self)@.name == old(self)@.name,
            final(self)@.total_ir == old(self)@.total_ir,
            old(self).wf() ==> final(self).wf(),
    {
        let ghost names = run_names_of(old(self)@.symbols);
        let mut i: usize = 0;
        while i < self.symbols.len()
            invariant
                *self == *old(self),
                names == run_names_of(self@.symbols),
                i <= self@.symbols.len(),
                forall|j: int| 0 <= j < i ==> self@.symbols[j].name != symbol@,
            decreases self@.symbols.len() - i,
        {
            if crate::text::chars_eq_str(&str_chars_of_string(&self.symbols[i].name), symbol) {
                proof {
                    assert(names[i as int] == symbol@);
                    assert(forall|j: int| 0 <= j < i ==> names[j] != symbol@);
                    lemma_find_name_from(names, symbol@, i as int);
                    assert(names.skip(i as int)[0] == names[i as int]);
                    assert(find_name(names, symbol@) == i);
                }
                let cur = self.symbols.remove(i);
                let updated = AnnotatedSymbol {
                    name: cur.name,
                    ir: crate::sat_add_exec(cur.ir, ir),
                };
                self.symbols.insert(i, updated);
                proof {
                    assert(self@.symbols =~= spec_add_ir(old(self)@.symbols, symbol@, ir));
                    if old(self).wf() {
                        lemma_add_ir_unique(old(self)@.symbols, symbol@, ir);
                    }
                }
                return ;
            }
            i += 1;
        }
        proof {
            assert(forall|j: int| 0 <= j < names.len() ==> names[j] != symbol@);
            lemma_find_name_from(names, symbol@, names.len() as int);
            assert(names.skip(names.len() as int) =~= Seq::<Seq<char>>::empty());
            assert(find_name(names, symbol@) == -1);
        }
        let new_sym = AnnotatedSymbol { name: symbol_to_string(symbol), ir };
        self.symbols.push(new_sym);
        proof {
            assert(self@.symbols =~= spec_add_ir(old(self)@.symbols, symbol@, ir));
            if old(self).wf() {
                lemma_add_ir_unique(old(self)@.symbols, symbol@, ir);
            }
        }
    }
}

/// `add_ir` keeps symbol names unique.
proof fn lemma_add_ir_unique(syms: Seq<SymbolCountModel>, name: Seq<char>, ir: u64)
    requires
        unique_run_names(syms),
    ensures
        unique_run_names(spec_add_ir(syms, name, ir)),
{
    lemma_find_name_props(run_names_of(syms), name);
    let i = find_name(run_names_of(syms), name);
    if i >= 0 {
        let r = syms.update(i, SymbolCountModel { name: syms[i].name, ir: crate::sat_add(syms[i].ir, ir) });
        assert(forall|j: int| 0 <= j < r.len() ==> r[j].name == syms[j].name);
    } else {
        let r = syms.push(SymbolCountModel { name: name, ir: ir });
        assert forall|j: int| 0 <= j < syms.len() implies r[j].name != name by {
            assert(run_names_of(syms)[j] == syms[j].name);
            assert(r[j] == syms[j]);
        }
        assert forall|a: int, b: int| 0 <= a < b < r.len() implies r[a].name != r[b].name by {
            if b < syms.len() {
                assert(r[a] == syms[a] && r[b] == syms[b]);
            } else {
                assert(r[b].name == name);
            }
        }
    }
}

/// The characters of a `String`, as a fresh vector.
fn str_chars_of_string(s: &String) -> (r: Vec<char>)
    ensures
        r@ == s@,
{
    crate::text::str_chars(s.as_str())
}

/// A `String` holding the characters of `s`.
fn symbol_to_string(s: &str) -> (r: String)
    ensures
        r@ == s@,
{
    s.to_owned()
}

/// One step of the merge: record `ir` for `name` in the matrix, where `n` is
/// the number of runs already present.
pub open spec fn merge_one(
    syms: Seq<RecordsSymbolModel>,
    n: nat,
    name: Seq<char>,
    ir: u64,
) -> Seq<RecordsSymbolModel> {
    let i = find_name(rec_names(syms), name);
    if i >= 0 {
        syms.update(i, RecordsSymbolModel { name: syms[i].name, irs: syms[i].irs.push(ir) })
    } else {
        syms.push(RecordsSymbolModel { name: name, irs: Seq::new(n, |j: int| 0u64).push(ir) })
    }
}

/// The merge of a run's symbol list into the matrix, left to right.
pub open spec fn merge_syms(
    syms: Seq<RecordsSymbolModel>,
    n: nat,
    run_syms: Seq<SymbolCountModel>,
) -> Seq<RecordsSymbolModel>
    decreases run_syms.len(),
{
    if run_syms.len() == 0 {
        syms
    } else {
        merge_one(
            merge_syms(syms, n, run_syms.drop_last()),
            n,
            run_syms.last().name,
            run_syms.last().ir,
        )
    }
}

/// Appends a zero to every symbol whose count vector is not yet `m` long.
pub open spec fn pad_syms(syms: Seq<RecordsSymbolModel>, m: nat) -> Seq<RecordsSymbolModel> {
    syms.map_values(
        |s: RecordsSymbolModel|
            if s.irs.len() != m {
                RecordsSymbolModel { name: s.name, irs: s.irs.push(0u64) }
            } else {
                s
            },
    )
}

/// `Records::add_run` on the model: merge every symbol of the run, append the
/// run's name and total, and pad the symbols the run did not mention.
pub open spec fn spec_add_run(m: RecordsModel, run: RunModel) -> RecordsModel {
    RecordsModel {
        run_names: m.run_names.push(run.name),
        runs_total_irs: m.runs_total_irs.push(run.total_ir),
        symbols: pad_syms(
            merge_syms(m.symbols, m.run_names.len(), run.symbols),
            m.run_names.len() + 1,
        ),
    }
}

impl Records {
    /// The length invariant: as many totals as run names, and every symbol
    /// holds exactly one count per run.
    pub open spec fn wf_lens(self) -> bool {
        &&& self@.runs_total_irs.len() == self@.run_names.len()
        &&& forall|i: int|
            0 <= i < self@.symbols.len() ==> (#[trigger] self@.symbols[i].irs).len()
                == self@.run_names.len()
    }

    /// Full well-formedness: the length invariant, and unique symbol names.
    pub open spec fn wf(self) -> bool {
        self.wf_lens() && unique_rec_names(self@.symbols)
    }

    /// Create new records, ready to receive annotated runs.
    pub fn new() -> (r: Self)
        ensures
            r@.run_names == Seq::<Seq<char>>::empty(),
            r@.runs_total_irs == Seq::<u64>::empty(),
            r@.symbols == Seq::<RecordsSymbolModel>::empty(),
            r.wf(),
    {
        let r = Records { run_names: Vec::new(), runs_total_irs: Vec::new(), symbols: Vec::new() };
        proof {
            assert(r@.run_names =~= Seq::<Seq<char>>::empty());
            assert(r@.symbols =~= Seq::<RecordsSymbolModel>::empty());
        }
        r
    }

    /// The number of runs stored so far.
    pub fn n_runs(&self) -> (r: usize)
        ensures
            r == self@.run_names.len(),
    {
        self.run_names.len()
    }

    /// Whether the length invariant holds; a runtime re-check of what the
    /// verified operations already guarantee.
    pub fn invariants_hold(&self) -> (r: bool)
        ensures
            r == self.wf_lens(),
    {
        if self.runs_total_irs.len() != self.run_names.len() {
            return false;
        }
        let n = self.run_names.len();
        let mut i: usize = 0;
        while i < self.symbols.len()
            invariant
                n == self@.run_names.len(),
                self@.runs_total_irs.len() == n,
                i <= self@.symbols.len(),
                forall|j: int| 0 <= j < i ==> (#[trigger] self@.symbols[j].irs).len() == n,
            decreases self@.symbols.len() - i,
        {
            if self.symbols[i].irs.len() != n {
                proof {
                    assert(self@.symbols[i as int].irs.len() != n);
                }
                return false;
            }
            i += 1;
        }
        true
    }

    /// Make sure that the invariants of the structure hold.
    ///
    /// The length invariant is established statically, so this function has
    /// nothing left to check at runtime; it documents call sites where the
    /// invariant matters.
    pub fn assert_invariants(&self)
        requires
            self.wf_lens(),
    {
    }
}

/// Merging keeps every existing symbol's name and position, keeps every
/// count vector at `n` or `n + 1` entries, and marks the grown ones as
/// mentioned by the run.
proof fn lemma_merge_syms_lens(syms: Seq<RecordsSymbolModel>, n: nat, run_syms: Seq<SymbolCountModel>)
    requires
        unique_run_names(run_syms),
        forall|j: int| 0 <= j < syms.len() ==> (#[trigger] syms[j].irs).len() == n,
    ensures
        merge_syms(syms, n, run_syms).len() >= syms.len(),
        forall|j: int|
            0 <= j < syms.len() ==> (#[trigger] merge_syms(syms, n, run_syms)[j]).name
                == syms[j].name,
        forall|j: int|
            0 <= j < merge_syms(syms, n, run_syms).len() ==> {
                let m = #[trigger] merge_syms(syms, n, run_syms)[j];
                m.irs.len() == n || (m.irs.len() == n + 1 && run_names_of(run_syms).contains(
                    m.name,
                ))
            },
    decreases run_syms.len(),
{
    if run_syms.len() > 0 {
        let prev = run_syms.drop_last();
        assert(unique_run_names(prev)) by {
            assert(forall|i: int| 0 <= i < prev.len() ==> prev[i] == run_syms[i]);
        }
        lemma_merge_syms_lens(syms, n, prev);
        let merged = merge_syms(syms, n, prev);
        let last = run_syms.last();
        let i = find_name(rec_names(merged), last.name);
        lemma_find_name_props(rec_names(merged), last.name);
        assert(forall|j: int|
            0 <= j < merged.len() ==> rec_names(merged)[j] == (#[trigger] merged[j]).name);
        let result = merge_syms(syms, n, run_syms);
        assert(result == merge_one(merged, n, last.name, last.ir));
        if i >= 0 {
            // The updated symbol had exactly `n` counts: had it grown before,
            // its name would be in the already-processed part of the run,
            // where `last.name` cannot recur.
            assert(merged[i].irs.len() == n) by {
                if merged[i].irs.len() != n {
                    assert(run_names_of(prev).contains(merged[i].name));
                    let w = choose|w: int|
                        0 <= w < prev.len() && run_names_of(prev)[w] == merged[i].name;
                    assert(run_syms[w].name == last.name);
                    assert(w < run_syms.len() - 1);
                }
            }
            assert(run_names_of(run_syms)[run_syms.len() - 1] == last.name);
            assert forall|j: int| 0 <= j < result.len() implies {
                let m = #[trigger] result[j];
                m.irs.len() == n || (m.irs.len() == n + 1 && run_names_of(run_syms).contains(
                    m.name,
                ))
            } by {
                if j != i {
                    assert(result[j] == merged[j]);
                    if merged[j].irs.len() != n {
                        let w = choose|w: int|
                            0 <= w < prev.len() && run_names_of(prev)[w] == merged[j].name;
                        assert(run_names_of(run_syms)[w] == merged[j].name);
                    }
                } else {
                    assert(result[i].irs.len() == n + 1);
                    assert(result[i].name == last.name);
                }
            }
        } else {
            assert(result == merged.push(
                RecordsSymbolModel {
                    name: last.name,
                    irs: Seq::new(n, |j: int| 0u64).push(last.ir),
                },
            ));
            assert(run_names_of(run_syms)[run_syms.len() - 1] == last.name);
            assert forall|j: int| 0 <= j < result.len() implies {
                let m = #[trigger] result[j];
                m.irs.len() == n || (m.irs.len() == n + 1 && run_names_of(run_syms).contains(
                    m.name,
                ))
            } by {
                if j < merged.len() {
                    assert(result[j] == merged[j]);
                    if merged[j].irs.len() != n {
                        let w = choose|w: int|
                            0 <= w < prev.len() && run_names_of(prev)[w] == merged[j].name;
                        assert(run_names_of(run_syms)[w] == merged[j].name);
                    }
                } else {
                    assert(result[j].irs.len() == n + 1);
                }
            }
        }
    } else {
        assert(merge_syms(syms, n, run_syms) == syms);
    }
}

/// Merging never introduces a duplicate symbol name.
proof fn lemma_merge_syms_unique(
    syms: Seq<RecordsSymbolModel>,
    n: nat,
    run_syms: Seq<SymbolCountModel>,
)
    requires
        unique_rec_names(syms),
    ensures
        unique_rec_names(merge_syms(syms, n, run_syms)),
    decreases run_syms.len(),
{
    if run_syms.len() > 0 {
        let prev = run_syms.drop_last();
        lemma_merge_syms_unique(syms, n, prev);
        let merged = merge_syms(syms, n, prev);
        let last = run_syms.last();
        let i = find_name(rec_names(merged), last.name);
        lemma_find_name_props(rec_names(merged), last.name);
        assert(forall|j: int|
            0 <= j < merged.len() ==> rec_names(merged)[j] == (#[trigger] merged[j]).name);
        let result = merge_syms(syms, n, run_syms);
        if i >= 0 {
            assert(forall|j: int|
                0 <= j < result.len() ==> (#[trigger] result[j]).name == merged[j].name);
        } else {
            assert forall|a: int, b: int| 0 <= a < b < result.len() implies result[a].name
                != result[b].name by {
                if b < merged.len() {
                    assert(result[a] == merged[a] && result[b] == merged[b]);
                } else {
                    assert(result[a] == merged[a]);
                    assert(result[b].name == last.name);
                }
            }
        }
    }
}

/// Padding to `m` keeps names and order, and evens every count vector out to
/// `m` entries when they start at `m - 1` or `m`.
proof fn lemma_pad_syms(syms: Seq<RecordsSymbolModel>, m: nat)
    requires
        m >= 1,
        forall|j: int|
            0 <= j < syms.len() ==> ((#[trigger] syms[j].irs).len() == m - 1 || syms[j].irs.len()
                == m),
    ensures
        pad_syms(syms, m).len() == syms.len(),
        forall|j: int|
            0 <= j < syms.len() ==> (#[trigger] pad_syms(syms, m)[j]).name == syms[j].name,
        forall|j: int| 0 <= j < syms.len() ==> (#[trigger] pad_syms(syms, m)[j]).irs.len() == m,
{
    assert forall|j: int| 0 <= j < syms.len() implies (#[trigger] pad_syms(syms, m)[j]).name
        == syms[j].name && pad_syms(syms, m)[j].irs.len() == m by {
        assert(syms[j].irs.len() == m - 1 || syms[j].irs.len() == m);
    }
}

impl Records {
    /// Index of the symbol called `name`, if one exists.
    fn find_symbol(&self, name: &String) -> (r: Option<usize>)
        ensures
            match r {
                Some(i) => 0 <= i < self@.symbols.len() && find_name(
                    rec_names(self@.symbols),
                    name@,
                ) == i,
                None => find_name(rec_names(self@.symbols), name@) == -1,
            },
    {
        let ghost names = rec_names(self@.symbols);
        proof {
            assert(forall|j: int|
                0 <= j < self@.symbols.len() ==> names[j] == (#[trigger] self@.symbols[j]).name);
        }
        let mut i: usize = 0;
        while i < self.symbols.len()
            invariant
                names == rec_names(self@.symbols),
                i <= self@.symbols.len(),
                forall|j: int| 0 <= j < i ==> names[j] != name@,
            decreases self@.symbols.len() - i,
        {
            if self.symbols[i].name.eq(name) {
                proof {
                    assert(names[i as int] == name@);
                    lemma_find_name_from(names, name@, i as int);
                    assert(names.skip(i as int)[0] == names[i as int]);
                    assert(find_name(names.skip(i as int), name@) == 0);
                }
                return Some(i);
            }
            proof {
                assert(self@.symbols[i as int].name == self.symbols@[i as int]@.name);
            }
            i += 1;
        }
        proof {
            lemma_find_name_from(names, name@, names.len() as int);
            assert(names.skip(names.len() as int) =~= Seq::<Seq<char>>::empty());
        }
        None
    }

    /// Add the annotations of one run to the records: every symbol of the run
    /// gains one count in its vector (a new symbol is backfilled with zeros),
    /// the run's name and total are appended, and every symbol the run did
    /// not mention gains an explicit zero.
    pub fn add_run(&mut self, run: Run)
        requires
            old(self).wf_lens(),
            run.wf(),
        ensures
            final(self)@ == spec_add_run(old(self)@, run@),
            final(self).wf_lens(),
            unique_rec_names(old(self)@.symbols) ==> final(self).wf(),
    {
        let ghost runm = run@;
        let ghost n: nat = old(self)@.run_names.len();
        let n_runs = self.run_names.len();
        let mut k: usize = 0;
        proof {
            assert(runm.symbols.take(0) =~= Seq::<SymbolCountModel>::empty());
            assert(merge_syms(old(self)@.symbols, n, runm.symbols.take(0)) == old(self)@.symbols);
        }
        while k < run.symbols.len()
            invariant
                n == old(self)@.run_names.len(),
                n_runs == n,
                k <= runm.symbols.len(),
                runm.symbols.len() == run.symbols@.len(),
                forall|j: int| 0 <= j < runm.symbols.len() ==> runm.symbols[j] == run.symbols@[j]@,
                self@.symbols == merge_syms(old(self)@.symbols, n, runm.symbols.take(k as int)),
                self.run_names == old(self).run_names,
                self.runs_total_irs == old(self).runs_total_irs,
            decreases runm.symbols.len() - k,
        {
            let ghost pre = self@.symbols;
            let found = self.find_symbol(&run.symbols[k].name);
            match found {
                Some(i) => {
                    let mut cur = self.symbols.remove(i);
                    cur.irs.push(run.symbols[k].ir);
                    self.symbols.insert(i, cur);
                    proof {
                        assert(self@.symbols =~= merge_one(
                            pre,
                            n,
                            runm.symbols[k as int].name,
                            runm.symbols[k as int].ir,
                        ));
                    }
                },
                None => {
                    let mut irs: Vec<u64> = Vec::new();
                    let mut z: usize = 0;
                    while z < n_runs
                        invariant
                            z <= n_runs,
                            irs@ =~= Seq::new(z as nat, |j: int| 0u64),
                        decreases n_runs - z,
                    {
                        irs.push(0);
                        proof {
                            assert(irs@ =~= Seq::new((z + 1) as nat, |j: int| 0u64));
                        }
                        z += 1;
                    }
                    irs.push(run.symbols[k].ir);
                    let name = run.symbols[k].name.clone();
                    self.symbols.push(RecordsSymbol { name, irs });
                    proof {
                        assert(self@.symbols =~= merge_one(
                            pre,
                            n,
                            runm.symbols[k as int].name,
                            runm.symbols[k as int].ir,
                        ));
                    }
                },
            }
            proof {
                assert(runm.symbols.take(k + 1).drop_last() =~= runm.symbols.take(k as int));
                assert(runm.symbols.take(k + 1).last() == runm.symbols[k as int]);
                assert(merge_syms(old(self)@.symbols, n, runm.symbols.take(k + 1)) == merge_one(
                    pre,
                    n,
                    runm.symbols[k as int].name,
                    runm.symbols[k as int].ir,
                ));
            }
            k += 1;
        }
        proof {
            assert(runm.symbols.take(k as int) =~= runm.symbols);
        }
        let ghost merged = self@.symbols;
        self.run_names.push(run.name);
        self.runs_total_irs.push(run.total_ir);
        proof {
            assert(self@.run_names =~= old(self)@.run_names.push(runm.name));
            assert(self@.runs_total_irs =~= old(self)@.runs_total_irs.push(runm.total_ir));
            assert(self@.symbols =~= merged);
            assert(unique_run_names(runm.symbols));
            lemma_merge_syms_lens(old(self)@.symbols, n, runm.symbols);
        }
        let m = self.run_names.len();
        let ghost mm: nat = n + 1;
        let mut idx: usize = 0;
        while idx < self.symbols.len()
            invariant
                m == mm == n + 1,
                self@.run_names == old(self)@.run_names.push(runm.name),
                self@.runs_total_irs == old(self)@.runs_total_irs.push(runm.total_ir),
                idx <= self@.symbols.len(),
                self@.symbols.len() == merged.len(),
                forall|j: int| 0 <= j < idx ==> self@.symbols[j] == pad_syms(merged, mm)[j],
                forall|j: int| idx <= j < merged.len() ==> self@.symbols[j] == merged[j],
            decreases self@.symbols.len() - idx,
        {
            let ghost pre = self@.symbols;
            if self.symbols[idx].irs.len() != m {
                let mut cur = self.symbols.remove(idx);
                cur.irs.push(0);
                self.symbols.insert(idx, cur);
                proof {
                    assert(forall|j: int|
                        0 <= j < merged.len() && j != idx ==> self@.symbols[j] == pre[j]);
                    assert(self@.symbols[idx as int] == pad_syms(merged, mm)[idx as int]);
                }
            } else {
                proof {
                    assert(self@.symbols[idx as int] == pad_syms(merged, mm)[idx as int]);
                }
            }
            idx += 1;
        }
        proof {
            assert(self@.symbols =~= pad_syms(merged, mm));
            assert(self@ == spec_add_run(old(self)@, runm));
            lemma_pad_syms(merged, mm);
            assert(final(self).wf_lens());
            if unique_rec_names(old(self)@.symbols) {
                lemma_merge_syms_unique(old(self)@.symbols, n, runm.symbols);
                assert(forall|a: int|
                    0 <= a < merged.len() ==> (#[trigger] pad_syms(merged, mm)[a]).name
                        == merged[a].name);
            }
        }
    }
}

/// Whether the sort field can be evaluated on symbols with `n` counts.
pub open spec fn sort_key_ok(field: SortByField, n: nat) -> bool {
    match field {
        SortByField::Symbol => true,
        SortByField::FirstIR => n >= 1,
        SortByField::LastIR => n >= 1,
        SortByField::ColumnIR(k) => (k as nat) < n,
    }
}

/// `a` sorts at or before `b` under the given field; `n` is the number of
/// runs.
pub open spec fn sym_le(field: SortByField, n: nat, a: RecordsSymbolModel, b: RecordsSymbolModel) -> bool {
    match field {
        SortByField::Symbol => crate::text::lex_le(a.name, b.name),
        SortByField::FirstIR => a.irs[0] <= b.irs[0],
        SortByField::LastIR => a.irs[n as int - 1] <= b.irs[n as int - 1],
        SortByField::ColumnIR(k) => a.irs[k as int] <= b.irs[k as int],
    }
}

/// Any two symbols compare one way or the other.
pub proof fn lemma_sym_le_total(field: SortByField, n: nat, a: RecordsSymbolModel, b: RecordsSymbolModel)
    ensures
        sym_le(field, n, a, b) || sym_le(field, n, b, a),
{
    if field is Symbol {
        crate::text::lemma_lex_le_total(a.name, b.name);
    }
}

/// The comparison is transitive.
pub proof fn lemma_sym_le_trans(
    field: SortByField,
    n: nat,
    a: RecordsSymbolModel,
    b: RecordsSymbolModel,
    c: RecordsSymbolModel,
)
    requires
        sym_le(field, n, a, b),
        sym_le(field, n, b, c),
    ensures
        sym_le(field, n, a, c),
{
    if field is Symbol {
        crate::text::lemma_lex_le_trans(a.name, b.name, c.name);
    }
}

/// Insertion of `x` into `acc`, after every element that sorts at or before
/// it; the basis of the stable sort.
pub open spec fn insert_sorted(
    field: SortByField,
    n: nat,
    acc: Seq<RecordsSymbolModel>,
    x: RecordsSymbolModel,
) -> Seq<RecordsSymbolModel>
    decreases acc.len(),
{
    if acc.len() == 0 {
        seq![x]
    } else if sym_le(field, n, acc.last(), x) {
        acc.push(x)
    } else {
        insert_sorted(field, n, acc.drop_last(), x).push(acc.last())
    }
}

/// The stable insertion sort of `s` under the given field: each element is
/// inserted after its equals, so ties keep their prior order.
pub open spec fn sort_syms(field: SortByField, n: nat, s: Seq<RecordsSymbolModel>) -> Seq<RecordsSymbolModel>
    decreases s.len(),
{
    if s.len() == 0 {
        Seq::empty()
    } else {
        insert_sorted(field, n, sort_syms(field, n, s.drop_last()), s.last())
    }
}

/// Every neighboring pair is ordered.
pub open spec fn sorted_by(field: SortByField, n: nat, s: Seq<RecordsSymbolModel>) -> bool {
    forall|i: int| 0 <= i < s.len() - 1 ==> sym_le(field, n, #[trigger] s[i], s[i + 1])
}

/// Where the insertion lands: `x` goes to the first position from the right
/// whose predecessor sorts at or before it.
proof fn lemma_insert_at(
    field: SortByField,
    n: nat,
    acc: Seq<RecordsSymbolModel>,
    x: RecordsSymbolModel,
    j: int,
)
    requires
        0 <= j <= acc.len(),
        j > 0 ==> sym_le(field, n, acc[j - 1], x),
        forall|m: int| j <= m < acc.len() ==> !sym_le(field, n, #[trigger] acc[m], x),
    ensures
        insert_sorted(field, n, acc, x) == acc.take(j) + seq![x] + acc.skip(j),
    decreases acc.len(),
{
    if j == acc.len() {
        if acc.len() == 0 {
            assert(insert_sorted(field, n, acc, x) =~= acc.take(j) + seq![x] + acc.skip(j));
        } else {
            assert(sym_le(field, n, acc.last(), x));
            assert(acc.push(x) =~= acc.take(j) + seq![x] + acc.skip(j));
        }
    } else {
        assert(!sym_le(field, n, acc[acc.len() - 1], x));
        let dropped = acc.drop_last();
        assert(forall|m: int| j <= m < dropped.len() ==> dropped[m] == acc[m]);
        if j > 0 {
            assert(dropped[j - 1] == acc[j - 1]);
        }
        lemma_insert_at(field, n, dropped, x, j);
        assert(insert_sorted(field, n, acc, x) == insert_sorted(field, n, dropped, x).push(
            acc.last(),
        ));
        assert((dropped.take(j) + seq![x] + dropped.skip(j)).push(acc.last()) =~= acc.take(j)
            + seq![x] + acc.skip(j));
    }
}

/// Inserting keeps the elements: one more in total, the rest unchanged.
proof fn lemma_insert_sorted_elems(
    field: SortByField,
    n: nat,
    acc: Seq<RecordsSymbolModel>,
    x: RecordsSymbolModel,
)
    ensures
        insert_sorted(field, n, acc, x).len() == acc.len() + 1,
        insert_sorted(field, n, acc, x).to_multiset() == acc.to_multiset().insert(x),
        forall|e: RecordsSymbolModel|
            insert_sorted(field, n, acc, x).contains(e) <==> (acc.contains(e) || e == x),
    decreases acc.len(),
{
    broadcast use vstd::seq_lib::group_to_multiset_ensures;

    let r = insert_sorted(field, n, acc, x);
    if acc.len() == 0 {
        assert(r =~= Seq::empty().push(x));
        assert(r.to_multiset() =~= acc.to_multiset().insert(x));
        assert forall|e: RecordsSymbolModel| r.contains(e) <==> (acc.contains(e) || e == x) by {
            if r.contains(e) {
                assert(r[0] == x);
            }
            if e == x {
                assert(r[0] == x);
            }
        }
    } else if sym_le(field, n, acc.last(), x) {
        assert(r == acc.push(x));
        assert forall|e: RecordsSymbolModel| r.contains(e) <==> (acc.contains(e) || e == x) by {
            if acc.contains(e) {
                let w = choose|w: int| 0 <= w < acc.len() && acc[w] == e;
                assert(r[w] == e);
            }
            if e == x {
                assert(r[acc.len() as int] == x);
            }
            if r.contains(e) {
                let w = choose|w: int| 0 <= w < r.len() && r[w] == e;
                if w < acc.len() {
                    assert(acc[w] == e);
                }
            }
        }
    } else {
        let dropped = acc.drop_last();
        lemma_insert_sorted_elems(field, n, dropped, x);
        let inner = insert_sorted(field, n, dropped, x);
        assert(r == inner.push(acc.last()));
        assert(acc =~= dropped.push(acc.last()));
        assert(acc.to_multiset() == dropped.to_multiset().insert(acc.last()));
        assert(r.to_multiset() == inner.to_multiset().insert(acc.last()));
        assert(r.to_multiset() =~= acc.to_multiset().insert(x));
        lemma_push_contains(inner, acc.last());
        lemma_push_contains(dropped, acc.last());
        assert forall|e: RecordsSymbolModel| r.contains(e) <==> (acc.contains(e) || e == x) by {
            assert(r.contains(e) <==> (inner.contains(e) || e == acc.last()));
            assert(acc.contains(e) <==> (dropped.push(acc.last()).contains(e)));
            assert(dropped.push(acc.last()).contains(e) <==> (dropped.contains(e) || e
                == acc.last()));
        }
    }
}

/// What a pushed sequence holds: the old elements and the new one.
proof fn lemma_push_contains(s: Seq<RecordsSymbolModel>, x: RecordsSymbolModel)
    ensures
        forall|e: RecordsSymbolModel| s.push(x).contains(e) <==> (s.contains(e) || e == x),
{
    assert forall|e: RecordsSymbolModel| s.push(x).contains(e) <==> (s.contains(e) || e == x) by {
        if s.push(x).contains(e) {
            let w = choose|w: int| 0 <= w < s.push(x).len() && s.push(x)[w] == e;
            if w < s.len() {
                assert(s[w] == e);
            }
        }
        if s.contains(e) {
            let w = choose|w: int| 0 <= w < s.len() && s[w] == e;
            assert(s.push(x)[w] == e);
        }
        if e == x {
            assert(s.push(x)[s.len() as int] == e);
        }
    }
}

/// Inserting below keeps a sorted sequence sorted.
proof fn lemma_insert_sorted_sorted(
    field: SortByField,
    n: nat,
    acc: Seq<RecordsSymbolModel>,
    x: RecordsSymbolModel,
)
    requires
        sorted_by(field, n, acc),
    ensures
        sorted_by(field, n, insert_sorted(field, n, acc, x)),
    decreases acc.len(),
{
    let r = insert_sorted(field, n, acc, x);
    if acc.len() == 0 {
    } else if sym_le(field, n, acc.last(), x) {
        assert(r == acc.push(x));
        assert forall|i: int| 0 <= i < r.len() - 1 implies sym_le(field, n, #[trigger] r[i], r[i + 1]) by {
            if i < acc.len() - 1 {
                assert(sym_le(field, n, acc[i], acc[i + 1]));
            }
        }
    } else {
        let dropped = acc.drop_last();
        assert(sorted_by(field, n, dropped)) by {
            assert(forall|i: int|
                0 <= i < dropped.len() - 1 ==> sym_le(field, n, #[trigger] dropped[i], dropped[i + 1])
                    == sym_le(field, n, acc[i], acc[i + 1]));
        }
        lemma_insert_sorted_sorted(field, n, dropped, x);
        let inner = insert_sorted(field, n, dropped, x);
        assert(r == inner.push(acc.last()));
        lemma_sym_le_total(field, n, acc.last(), x);
        assert(sym_le(field, n, x, acc.last()));
        assert forall|i: int| 0 <= i < r.len() - 1 implies sym_le(field, n, #[trigger] r[i], r[i + 1]) by {
            lemma_insert_sorted_elems(field, n, dropped, x);
            if i + 1 < inner.len() {
                assert(sym_le(field, n, inner[i], inner[i + 1]));
            } else {
                // The last element of the inner insertion is either `x` or
                // the last of `dropped`; both sort at or before `acc.last()`.
                assert(i == inner.len() - 1);
                assert(r[i] == inner.last());
                if dropped.len() == 0 {
                    assert(inner =~= seq![x]);
                    assert(inner.last() == x);
                } else if sym_le(field, n, dropped.last(), x) {
                    assert(inner == dropped.push(x));
                    assert(inner.last() == x);
                } else {
                    assert(inner == insert_sorted(field, n, dropped.drop_last(), x).push(
                        dropped.last(),
                    ));
                    assert(inner.last() == dropped.last());
                    assert(sym_le(field, n, acc[acc.len() - 2], acc[acc.len() - 1]));
                }
            }
        }
    }
}

/// The result of the stable sort: same length, same elements.
///
/// Together with `lemma_sort_syms_sorted` this states the sorter's law: the
/// sorted sequence is an ordered permutation of the input, and because every
/// element is inserted after its equals, ties keep their prior order.
pub proof fn lemma_sort_syms_elems(field: SortByField, n: nat, s: Seq<RecordsSymbolModel>)
    ensures
        sort_syms(field, n, s).len() == s.len(),
        sort_syms(field, n, s).to_multiset() == s.to_multiset(),
        forall|e: RecordsSymbolModel| sort_syms(field, n, s).contains(e) <==> s.contains(e),
    decreases s.len(),
{
    broadcast use vstd::seq_lib::group_to_multiset_ensures;

    let r = sort_syms(field, n, s);
    if s.len() == 0 {
        assert(r.to_multiset() =~= s.to_multiset());
    } else {
        let dropped = s.drop_last();
        lemma_sort_syms_elems(field, n, dropped);
        lemma_insert_sorted_elems(field, n, sort_syms(field, n, dropped), s.last());
        assert(s =~= dropped.push(s.last()));
        assert(s.to_multiset() == dropped.to_multiset().insert(s.last()));
        assert forall|e: RecordsSymbolModel| r.contains(e) <==> s.contains(e) by {
            assert(r.contains(e) <==> (sort_syms(field, n, dropped).contains(e) || e == s.last()));
            assert(s.contains(e) <==> (dropped.contains(e) || e == s.last()));
        }
    }
}

/// The result of the stable sort is ordered under the chosen field: every
/// neighboring pair compares, and by `lemma_sym_le_trans` so does any pair.
pub proof fn lemma_sort_syms_sorted(field: SortByField, n: nat, s: Seq<RecordsSymbolModel>)
    ensures
        sorted_by(field, n, sort_syms(field, n, s)),
    decreases s.len(),
{
    if s.len() > 0 {
        lemma_sort_syms_sorted(field, n, s.drop_last());
        lemma_insert_sorted_sorted(field, n, sort_syms(field, n, s.drop_last()), s.last());
    }
}

/// A name is present in a symbol sequence.
pub open spec fn has_name(syms: Seq<RecordsSymbolModel>, name: Seq<char>) -> bool {
    exists|i: int| 0 <= i < syms.len() && syms[i].name == name
}

/// Sorting keeps symbol names unique.
pub proof fn lemma_sort_syms_unique(field: SortByField, n: nat, s: Seq<RecordsSymbolModel>)
    requires
        unique_rec_names(s),
    ensures
        unique_rec_names(sort_syms(field, n, s)),
    decreases s.len(),
{
    if s.len() > 0 {
        let dropped = s.drop_last();
        assert(unique_rec_names(dropped)) by {
            assert(forall|i: int| 0 <= i < dropped.len() ==> dropped[i] == s[i]);
        }
        lemma_sort_syms_unique(field, n, dropped);
        lemma_sort_syms_elems(field, n, dropped);
        assert(!has_name(sort_syms(field, n, dropped), s.last().name)) by {
            if has_name(sort_syms(field, n, dropped), s.last().name) {
                let w = choose|w: int|
                    0 <= w < sort_syms(field, n, dropped).len() && sort_syms(field, n, dropped)[w].name
                        == s.last().name;
                assert(sort_syms(field, n, dropped).contains(sort_syms(field, n, dropped)[w]));
                assert(dropped.contains(sort_syms(field, n, dropped)[w]));
                let v = choose|v: int| 0 <= v < dropped.len() && dropped[v] == sort_syms(field, n, dropped)[w];
                assert(s[v].name == s[s.len() - 1].name);
            }
        }
        lemma_insert_unique(field, n, sort_syms(field, n, dropped), s.last());
    }
}

/// Inserting a fresh name keeps names unique.
proof fn lemma_insert_unique(
    field: SortByField,
    n: nat,
    acc: Seq<RecordsSymbolModel>,
    x: RecordsSymbolModel,
)
    requires
        unique_rec_names(acc),
        !has_name(acc, x.name),
    ensures
        unique_rec_names(insert_sorted(field, n, acc, x)),
    decreases acc.len(),
{
    let r = insert_sorted(field, n, acc, x);
    lemma_insert_sorted_elems(field, n, acc, x);
    assert(forall|a: int, b: int| 0 <= a < b < acc.len() ==> acc[a] != acc[b]) by {
        assert(forall|a: int, b: int|
            0 <= a < b < acc.len() ==> (#[trigger] acc[a]).name != (#[trigger] acc[b]).name);
    }
    assert(!acc.contains(x)) by {
        if acc.contains(x) {
            let w = choose|w: int| 0 <= w < acc.len() && acc[w] == x;
            assert(acc[w].name == x.name);
        }
    }
    lemma_insert_distinct(field, n, acc, x);
    assert forall|a: int, b: int| 0 <= a < b < r.len() implies r[a].name != r[b].name by {
        if r[a].name == r[b].name {
            assert(r.contains(r[a]));
            assert(r.contains(r[b]));
            assert(r[a] != r[b]);
            if r[a] == x {
                assert(acc.contains(r[b]));
                let v = choose|v: int| 0 <= v < acc.len() && acc[v] == r[b];
                assert(has_name(acc, x.name));
            } else if r[b] == x {
                assert(acc.contains(r[a]));
                let v = choose|v: int| 0 <= v < acc.len() && acc[v] == r[a];
                assert(has_name(acc, x.name));
            } else {
                assert(acc.contains(r[a]));
                assert(acc.contains(r[b]));
                let va = choose|v: int| 0 <= v < acc.len() && acc[v] == r[a];
                let vb = choose|v: int| 0 <= v < acc.len() && acc[v] == r[b];
                assert(va != vb);
                assert(acc[va].name != acc[vb].name || va == vb);
            }
        }
    }
}

/// Inserting a value the sequence does not hold keeps its values distinct.
proof fn lemma_insert_distinct(
    field: SortByField,
    n: nat,
    acc: Seq<RecordsSymbolModel>,
    x: RecordsSymbolModel,
)
    requires
        forall|a: int, b: int| 0 <= a < b < acc.len() ==> acc[a] != acc[b],
        !acc.contains(x),
    ensures
        forall|a: int, b: int|
            0 <= a < b < insert_sorted(field, n, acc, x).len() ==> insert_sorted(field, n, acc, x)[a]
                != insert_sorted(field, n, acc, x)[b],
    decreases acc.len(),
{
    let r = insert_sorted(field, n, acc, x);
    if acc.len() == 0 {
        assert(r =~= seq![x]);
        assert(forall|a: int, b: int| 0 <= a < b < r.len() ==> r[a] != r[b]);
    } else if sym_le(field, n, acc.last(), x) {
        assert(r == acc.push(x));
        assert forall|a: int, b: int| 0 <= a < b < r.len() implies r[a] != r[b] by {
            if b == acc.len() {
                assert(r[b] == x);
                assert(acc.contains(acc[a]));
            }
        }
    } else {
        let dropped = acc.drop_last();
        assert(forall|i: int| 0 <= i < dropped.len() ==> dropped[i] == acc[i]);
        assert(!dropped.contains(x)) by {
            if dropped.contains(x) {
                let w = choose|w: int| 0 <= w < dropped.len() && dropped[w] == x;
                assert(acc.contains(acc[w]));
                assert(acc[w] == x);
            }
        }
        lemma_insert_distinct(field, n, dropped, x);
        lemma_insert_sorted_elems(field, n, dropped, x);
        let inner = insert_sorted(field, n, dropped, x);
        assert(r == inner.push(acc.last()));
        assert(!inner.contains(acc.last())) by {
            if inner.contains(acc.last()) {
                if acc.last() == x {
                    assert(acc.contains(acc[acc.len() - 1]));
                } else {
                    assert(dropped.contains(acc.last()));
                    let w = choose|w: int| 0 <= w < dropped.len() && dropped[w] == acc.last();
                    assert(acc[w] == acc[acc.len() - 1]);
                }
            }
        }
        assert forall|a: int, b: int| 0 <= a < b < r.len() implies r[a] != r[b] by {
            if b == r.len() - 1 {
                assert(r[b] == acc.last());
                assert(inner.contains(inner[a]));
            } else {
                assert(r[a] == inner[a] && r[b] == inner[b]);
            }
        }
    }
}

/// Whether `a` sorts at or before `b` under the given field.
fn sym_le_exec(field: SortByField, n: usize, a: &RecordsSymbol, b: &RecordsSymbol) -> (r: bool)
    requires
        sort_key_ok(field, n as nat),
        a@.irs.len() == n,
        b@.irs.len() == n,
    ensures
        r == sym_le(field, n as nat, a@, b@),
{
    match field {
        SortByField::Symbol => crate::text::lex_le_exec(a.name.as_str(), b.name.as_str()),
        SortByField::FirstIR => a.irs[0] <= b.irs[0],
        SortByField::LastIR => a.irs[n - 1] <= b.irs[n - 1],
        SortByField::ColumnIR(k) => a.irs[k as usize] <= b.irs[k as usize],
    }
}

/// Reverses the symbols of a vector in place.
fn reverse_symbols(v: &mut Vec<RecordsSymbol>)
    ensures
        final(v)@.len() == old(v)@.len(),
        forall|i: int|
            0 <= i < old(v)@.len() ==> final(v)@[i] == old(v)@[old(v)@.len() - 1 - i],
{
    let mut out: Vec<RecordsSymbol> = Vec::new();
    while v.len() > 0
        invariant
            out@.len() + v@.len() == old(v)@.len(),
            forall|i: int| 0 <= i < v@.len() ==> v@[i] == old(v)@[i],
            forall|i: int|
                0 <= i < out@.len() ==> out@[i] == old(v)@[old(v)@.len() - 1 - i],
        decreases v@.len(),
    {
        let s = v.pop().unwrap();
        out.push(s);
    }
    *v = out;
}

impl Records {
    /// Reorder the symbols in place according to `by`; the run names and
    /// totals are never touched.
    ///
    /// Sorting by a column that is not loaded fails up front, with no
    /// reordering at all. The sort is stable: symbols whose keys tie keep
    /// their prior order, and a descending sort is the exact reversal of the
    /// ascending one.
    pub fn sort(&mut self, by: SortBy) -> (r: Result<(), Error>)
        requires
            old(self).wf_lens(),
            (by.field is FirstIR || by.field is LastIR) && old(self)@.symbols.len() > 1 ==> old(
                self,
            )@.run_names.len() >= 1,
        ensures
            match r {
                Ok(_) => {
                    &&& (by.field matches SortByField::ColumnIR(k) ==> (k as int) < old(
                        self,
                    )@.run_names.len())
                    &&& final(self)@.run_names == old(self)@.run_names
                    &&& final(self)@.runs_total_irs == old(self)@.runs_total_irs
                    &&& final(self)@.symbols == (if by.order is Descending {
                        sort_syms(
                            by.field,
                            old(self)@.run_names.len(),
                            old(self)@.symbols,
                        ).reverse()
                    } else {
                        sort_syms(by.field, old(self)@.run_names.len(), old(self)@.symbols)
                    })
                    &&& final(self).wf_lens()
                    &&& unique_rec_names(old(self)@.symbols) ==> final(self).wf()
                },
                Err(e) => {
                    &&& by.field matches SortByField::ColumnIR(k) && (k as int) >= old(
                        self,
                    )@.run_names.len() && e == (Error::SortColumnOutOfRange {
                        column: k,
                        runs: old(self)@.run_names.len() as usize,
                    })
                    &&& final(self)@ == old(self)@
                },
            },
    {
        let ghost n: nat = old(self)@.run_names.len();
        let n_runs = self.run_names.len();
        if let SortByField::ColumnIR(x) = by.field {
            if !((x as usize) < n_runs) {
                return Err(Error::SortColumnOutOfRange { column: x, runs: n_runs });
            }
        }
        let ghost orig = self@.symbols;
        if self.symbols.len() > 1 {
            let mut i: usize = 1;
            proof {
                assert(orig.take(1) =~= Seq::empty().push(orig[0]));
                assert(sort_syms(by.field, n, orig.take(1)) == insert_sorted(
                    by.field,
                    n,
                    sort_syms(by.field, n, orig.take(1).drop_last()),
                    orig[0],
                ));
                assert(orig.take(1).drop_last() =~= Seq::<RecordsSymbolModel>::empty());
                assert(self@.symbols.take(1) =~= sort_syms(by.field, n, orig.take(1)));
            }
            while i < self.symbols.len()
                invariant
                    n == old(self)@.run_names.len(),
                    n_runs == n,
                    sort_key_ok(by.field, n),
                    1 <= i <= self@.symbols.len(),
                    self@.symbols.len() == orig.len(),
                    self@.symbols.take(i as int) == sort_syms(by.field, n, orig.take(i as int)),
                    self@.symbols.skip(i as int) == orig.skip(i as int),
                    forall|j: int|
                        0 <= j < orig.len() ==> (#[trigger] orig[j]).irs.len() == n,
                    forall|j: int|
                        0 <= j < self@.symbols.len() ==> (#[trigger] self@.symbols[j]).irs.len()
                            == n,
                    self.run_names == old(self).run_names,
                    self.runs_total_irs == old(self).runs_total_irs,
                decreases self@.symbols.len() - i,
            {
                let ghost cur = self@.symbols;
                proof {
                    assert(cur[i as int] == orig[i as int]) by {
                        assert(cur.skip(i as int)[0] == cur[i as int]);
                        assert(orig.skip(i as int)[0] == orig[i as int]);
                    }
                }
                let x = self.symbols.remove(i);
                let ghost pref = cur.take(i as int);
                proof {
                    assert(self@.symbols =~= cur.remove(i as int));
                    assert(forall|m: int| 0 <= m < i ==> self@.symbols[m] == pref[m]);
                    assert forall|m: int| 0 <= m < i implies (#[trigger] self@.symbols[m]).irs.len()
                        == n by {
                        assert(self@.symbols[m] == pref[m]);
                        assert(pref[m] == cur[m]);
                    }
                    assert forall|m: int| 0 <= m < i implies (#[trigger] self.symbols@[m])@.irs.len()
                        == n by {
                        assert(self@.symbols[m] == self.symbols@[m]@);
                    }
                    assert(self.symbols@.len() == cur.len() - 1);
                }
                let mut j: usize = i;
                while j > 0 && !sym_le_exec(by.field, n_runs, &self.symbols[j - 1], &x)
                    invariant
                        n_runs == n,
                        sort_key_ok(by.field, n),
                        j <= i < cur.len(),
                        self@.symbols == cur.remove(i as int),
                        pref == cur.take(i as int),
                        x@ == cur[i as int],
                        x@.irs.len() == n,
                        forall|m: int| 0 <= m < i ==> self@.symbols[m] == pref[m],
                        forall|m: int|
                            0 <= m < cur.len() ==> (#[trigger] cur[m]).irs.len() == n,
                        forall|m: int|
                            0 <= m < i ==> (#[trigger] self@.symbols[m]).irs.len() == n,
                        forall|m: int|
                            0 <= m < i ==> (#[trigger] self.symbols@[m])@.irs.len() == n,
                        self.symbols@.len() == cur.len() - 1,
                        forall|m: int|
                            j <= m < i ==> !sym_le(by.field, n, #[trigger] pref[m], x@),
                    decreases j,
                {
                    proof {
                        assert(self@.symbols[j - 1] == self.symbols@[j - 1]@);
                        assert(self@.symbols[j - 1] == pref[j - 1]);
                    }
                    j -= 1;
                }
                proof {
                    lemma_insert_at(by.field, n, pref, x@, j as int);
                }
                self.symbols.insert(j, x);
                proof {
                    assert(self@.symbols =~= cur.remove(i as int).insert(j as int, x@));
                    assert(self@.symbols.take(i + 1) =~= pref.take(j as int) + seq![x@]
                        + pref.skip(j as int));
                    assert(self@.symbols.take(i + 1) == insert_sorted(by.field, n, pref, x@));
                    assert(orig.take(i + 1).drop_last() =~= orig.take(i as int));
                    assert(orig.take(i + 1).last() == orig[i as int]);
                    assert(sort_syms(by.field, n, orig.take(i + 1)) == insert_sorted(
                        by.field,
                        n,
                        sort_syms(by.field, n, orig.take(i as int)),
                        orig[i as int],
                    ));
                    assert(self@.symbols.skip(i + 1) =~= cur.skip(i + 1));
                    assert(cur.skip(i + 1) =~= orig.skip(i + 1)) by {
                        assert(forall|m: int|
                            0 <= m < cur.len() - i - 1 ==> #[trigger] cur.skip(i + 1)[m]
                                == cur.skip(i as int)[m + 1]);
                        assert(forall|m: int|
                            0 <= m < orig.len() - i - 1 ==> #[trigger] orig.skip(i + 1)[m]
                                == orig.skip(i as int)[m + 1]);
                    }
                    lemma_insert_sorted_elems(by.field, n, sort_syms(by.field, n, orig.take(i as int)), orig[i as int]);
                    assert forall|m: int| 0 <= m < self@.symbols.len() implies (#[trigger] self@.symbols[m]).irs.len() == n by {
                        if m < i + 1 {
                            lemma_sort_syms_elems(by.field, n, orig.take(i + 1));
                            assert(self@.symbols.take(i + 1)[m] == self@.symbols[m]);
                            assert(sort_syms(by.field, n, orig.take(i + 1)).contains(
                                self@.symbols[m],
                            ));
                            assert(orig.take(i + 1).contains(self@.symbols[m]));
                            let w = choose|w: int|
                                0 <= w < orig.take(i + 1).len() && #[trigger] orig.take(i + 1)[w]
                                    == self@.symbols[m];
                            assert(orig[w] == self@.symbols[m]);
                        } else {
                            assert(self@.symbols.skip(i + 1)[m - i - 1] == self@.symbols[m]);
                            assert(orig.skip(i + 1)[m - i - 1] == orig[m]);
                        }
                    }
                }
                i += 1;
            }
            proof {
                assert(orig.take(i as int) =~= orig);
                assert(self@.symbols.take(i as int) =~= self@.symbols);
            }
        } else {
            proof {
                if orig.len() == 0 {
                    assert(sort_syms(by.field, n, orig) =~= orig);
                } else {
                    assert(orig.take(1) =~= orig);
                    assert(orig.drop_last() =~= Seq::<RecordsSymbolModel>::empty());
                    assert(sort_syms(by.field, n, orig) == insert_sorted(
                        by.field,
                        n,
                        sort_syms(by.field, n, orig.drop_last()),
                        orig.last(),
                    ));
                    assert(sort_syms(by.field, n, orig) =~= orig);
                }
            }
        }
        let ghost asc = sort_syms(by.field, n, orig);
        proof {
            assert(self@.symbols == asc);
        }
        if matches!(by.order, SortByOrder::Descending) {
            reverse_symbols(&mut self.symbols);
            proof {
                assert(self@.symbols =~= asc.reverse());
            }
        }
        proof {
            lemma_sort_syms_elems(by.field, n, orig);
            assert forall|m: int| 0 <= m < self@.symbols.len() implies (
            #[trigger] self@.symbols[m]).irs.len() == n by {
                if by.order is Descending {
                    assert(self@.symbols[m] == asc[asc.len() - 1 - m]);
                }
                assert(asc.contains(self@.symbols[m])) by {
                    if by.order is Descending {
                        assert(asc[asc.len() - 1 - m] == self@.symbols[m]);
                    } else {
                        assert(asc[m] == self@.symbols[m]);
                    }
                }
                let w = choose|w: int| 0 <= w < orig.len() && orig[w] == self@.symbols[m];
            }
            if unique_rec_names(old(self)@.symbols) {
                lemma_sort_syms_unique(by.field, n, orig);
                if by.order is Descending {
                    assert forall|a: int, b: int|
                        0 <= a < b < self@.symbols.len() implies self@.symbols[a].name
                        != self@.symbols[b].name by {
                        assert(self@.symbols[a] == asc[asc.len() - 1 - a]);
                        assert(self@.symbols[b] == asc[asc.len() - 1 - b]);
                    }
                }
            }
        }
        Ok(())
    }
}

} // verus!
