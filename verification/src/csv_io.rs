//! CSV import and export of the records.
//!
//! The splitting of CSV text into records of cells, and the joining back,
//! is done by the CSV library behind two trusted wrappers; everything the
//! rows mean — header detection, default column names, tolerant count
//! parsing, totals, and the diff/percentage columns — is specified and
//! verified here.

use vstd::prelude::*;

use crate::args::{ReplacementModel, StringReplacement};
use crate::num::{dec_of, parse_or_zero, diff_str_seq, pct_str_seq};
use crate::runs::{Records, RecordsModel, RecordsSymbol, RecordsSymbolModel};
use crate::text::{eq_ignore_ascii_case, replace_seq};
use crate::Error;
use csv::Error as CsvLibError;

verus! {

/// The models of a replacement list.
pub open spec fn repl_models(rs: Seq<StringReplacement>) -> Seq<ReplacementModel> {
    rs.map_values(|r: StringReplacement| r@)
}

/// The views of a list of strings.
pub open spec fn strings_view(v: Seq<String>) -> Seq<Seq<char>> {
    v.map_values(|s: String| s@)
}

/// All replacements applied to a name, in the order given.
pub open spec fn apply_replacements(name: Seq<char>, repl: Seq<ReplacementModel>) -> Seq<char>
    decreases repl.len(),
{
    if repl.len() == 0 {
        name
    } else {
        replace_seq(
            apply_replacements(name, repl.drop_last()),
            repl.last().from,
            repl.last().to,
        )
    }
}

/// The synthetic run names for `k` unnamed columns: `Run 1` through `Run k`.
pub open spec fn default_names(k: nat) -> Seq<Seq<char>> {
    Seq::new(k, |i: int| "Run "@ + dec_of((i + 1) as nat))
}

/// The counts a data row contributes, one per column: a missing cell counts
/// as zero, extra cells are dropped.
pub open spec fn row_counts(row: Seq<Seq<char>>, ncols: nat) -> Seq<u64> {
    Seq::new(
        ncols,
        |j: int|
            if j + 1 < row.len() {
                parse_or_zero(row[j + 1])
            } else {
                0u64
            },
    )
}

/// The importer's running state: whether the first meaningful row is still
/// to come, the column names, and the records built so far.
pub struct CsvState {
    pub first: bool,
    pub cols: Seq<Seq<char>>,
    pub rec: RecordsModel,
}

/// The importer's state before any row.
pub open spec fn init_csv_state() -> CsvState {
    CsvState {
        first: true,
        cols: Seq::empty(),
        rec: RecordsModel {
            run_names: Seq::empty(),
            runs_total_irs: Seq::empty(),
            symbols: Seq::empty(),
        },
    }
}

/// One row of the import: rows of fewer than two cells are skipped; the
/// first meaningful row is a header exactly when its first cell is `name`,
/// case-insensitively; every other row adds one symbol, updates the totals,
/// and fixes the columns on first contact.
pub open spec fn csv_step(st: CsvState, row: Seq<Seq<char>>, repl: Seq<ReplacementModel>) -> CsvState {
    if row.len() < 2 {
        st
    } else if st.first && eq_ignore_ascii_case(row[0], "name"@) {
        CsvState { first: false, cols: row.drop_first(), rec: st.rec }
    } else {
        let cols = if st.first {
            default_names((row.len() - 1) as nat)
        } else {
            st.cols
        };
        let rec0 = if st.rec.run_names.len() == 0 {
            RecordsModel {
                run_names: cols,
                runs_total_irs: Seq::new(cols.len(), |j: int| 0u64),
                symbols: st.rec.symbols,
            }
        } else {
            st.rec
        };
        let counts = row_counts(row, rec0.run_names.len());
        CsvState {
            first: false,
            cols: cols,
            rec: RecordsModel {
                run_names: rec0.run_names,
                runs_total_irs: Seq::new(
                    rec0.runs_total_irs.len(),
                    |j: int| crate::sat_add(rec0.runs_total_irs[j], counts[j]),
                ),
                symbols: rec0.symbols.push(
                    RecordsSymbolModel { name: apply_replacements(row[0], repl), irs: counts },
                ),
            },
        }
    }
}

/// The import folded over all rows, in order.
pub open spec fn csv_fold(st: CsvState, rows: Seq<Seq<Seq<char>>>, repl: Seq<ReplacementModel>) -> CsvState
    decreases rows.len(),
{
    if rows.len() == 0 {
        st
    } else {
        csv_step(csv_fold(st, rows.drop_last(), repl), rows.last(), repl)
    }
}

/// What a batch of already-split CSV rows means as records.
pub open spec fn spec_from_csv_rows(rows: Seq<Seq<Seq<char>>>, repl: Seq<ReplacementModel>) -> RecordsModel {
    csv_fold(init_csv_state(), rows, repl).rec
}

/// Applies the whole replacement list to one name.
pub fn apply_replacements_vec(name: &Vec<char>, replacements: &Vec<StringReplacement>) -> (r: Vec<
    char,
>)
    ensures
        r@ == apply_replacements(name@, repl_models(replacements@)),
{
    let ghost repl = repl_models(replacements@);
    let mut cur = name.clone();
    let mut i: usize = 0;
    proof {
        assert(repl.take(0) =~= Seq::<ReplacementModel>::empty());
    }
    while i < replacements.len()
        invariant
            repl == repl_models(replacements@),
            repl.len() == replacements@.len(),
            i <= replacements@.len(),
            cur@ == apply_replacements(name@, repl.take(i as int)),
        decreases replacements@.len() - i,
    {
        let fv = crate::text::str_chars(replacements[i].pattern_str().as_str());
        let tv = crate::text::str_chars(replacements[i].substitute_str().as_str());
        proof {
            assert(repl[i as int] == replacements@[i as int]@);
            assert(repl.take(i + 1).drop_last() =~= repl.take(i as int));
            assert(repl.take(i + 1).last() == repl[i as int]);
        }
        cur = crate::text::replace_exec(&cur, &fv, &tv);
        i += 1;
    }
    proof {
        assert(repl.take(i as int) =~= repl);
    }
    cur
}

/// Build the records that a batch of split CSV rows describes.
///
/// The first row whose first cell is `name` (case-insensitively) names the
/// columns; otherwise names `Run 1`, `Run 2`, ... are made up from the first
/// data row. Each data row is one symbol: its name with the replacements
/// applied, then one count per column, a cell that does not parse counting
/// as zero. Per-column totals accumulate as rows are read, saturating at
/// `u64::MAX`. Rows of fewer than two cells are skipped.
pub fn from_csv_rows(rows: &Vec<Vec<String>>, replacements: &Vec<StringReplacement>) -> (r:
    Records)
    ensures
        r@ == spec_from_csv_rows(rows.deep_view(), repl_models(replacements@)),
        r.wf_lens(),
{
    let ghost rowsm = rows.deep_view();
    let ghost repl = repl_models(replacements@);
    let mut records = Records::new();
    let mut first_row = true;
    let mut column_names: Vec<String> = Vec::new();
    let namev = crate::text::str_chars("name");
    let mut k: usize = 0;
    proof {
        assert(rowsm.take(0) =~= Seq::<Seq<Seq<char>>>::empty());
        assert(rowsm.len() == rows@.len());
        assert(forall|a: int|
            0 <= a < rows@.len() ==> #[trigger] rowsm[a] == rows@[a].deep_view());
        assert(init_csv_state().cols =~~= strings_view(column_names@));
        assert(csv_fold(init_csv_state(), rowsm.take(0), repl) == init_csv_state());
    }
    while k < rows.len()
        invariant
            rowsm == rows.deep_view(),
            rowsm.len() == rows@.len(),
            forall|a: int| 0 <= a < rows@.len() ==> #[trigger] rowsm[a] == rows@[a].deep_view(),
            repl == repl_models(replacements@),
            namev@ == "name"@,
            k <= rows@.len(),
            csv_fold(init_csv_state(), rowsm.take(k as int), repl) == (CsvState {
                first: first_row,
                cols: strings_view(column_names@),
                rec: records@,
            }),
        decreases rows@.len() - k,
    {
        let ghost st = csv_fold(init_csv_state(), rowsm.take(k as int), repl);
        let ghost rowm = rowsm[k as int];
        proof {
            lemma_csv_fold_wf(init_csv_state(), rowsm.take(k as int), repl);
            assert(rowsm.take(k + 1).drop_last() =~= rowsm.take(k as int));
            assert(rowsm.take(k + 1).last() == rowsm[k as int]);
            assert(rowm.len() == rows@[k as int]@.len());
            assert(forall|a: int|
                0 <= a < rowm.len() ==> #[trigger] rowm[a] == rows@[k as int]@[a]@);
        }
        let row_len = rows[k].len();
        if row_len < 2 {
            proof {
                assert(csv_step(st, rowm, repl) == st);
            }
        } else {
            let cell0 = crate::text::str_chars(rows[k][0].as_str());
            proof {
                assert(cell0@ == rowm[0]);
            }
            if first_row && crate::text::eq_ignore_case_exec(&cell0, &namev) {
                let mut names: Vec<String> = Vec::new();
                let mut i: usize = 1;
                while i < rows[k].len()
                    invariant
                        rowsm == rows.deep_view(),
                        forall|a: int|
                            0 <= a < rows@.len() ==> #[trigger] rowsm[a] == rows@[a].deep_view(),
                        rowm == rowsm[k as int],
                        k < rows@.len(),
                        rowm.len() == rows@[k as int]@.len(),
                        forall|a: int|
                            0 <= a < rowm.len() ==> #[trigger] rowm[a] == rows@[k as int]@[a]@,
                        1 <= i <= rowm.len(),
                        strings_view(names@) =~~= rowm.drop_first().take(i - 1),
                    decreases rowm.len() - i,
                {
                    let ghost pre = names@;
                    proof {
                        assert(strings_view(pre).len() == pre.len());
                        assert(rowm.drop_first().take(i - 1).len() == i - 1);
                        assert(pre.len() == i - 1);
                    }
                    names.push(rows[k][i].clone());
                    proof {
                        assert(names@.len() == i);
                        assert(names@[i - 1] == rows@[k as int]@[i as int]);
                        assert(strings_view(names@) =~~= rowm.drop_first().take(i as int));
                    }
                    i += 1;
                }
                column_names = names;
                first_row = false;
                proof {
                    assert(strings_view(column_names@) =~~= rowm.drop_first());
                    assert(csv_step(st, rowm, repl) == (CsvState {
                        first: false,
                        cols: strings_view(column_names@),
                        rec: st.rec,
                    }));
                }
            } else {
                if first_row {
                    let mut names: Vec<String> = Vec::new();
                    let mut i: usize = 1;
                    let runv = crate::text::str_chars("Run ");
                    while i < rows[k].len()
                        invariant
                            rowm == rowsm[k as int],
                            k < rows@.len(),
                            rowm.len() == rows@[k as int]@.len(),
                            rowsm == rows.deep_view(),
                            forall|a: int|
                                0 <= a < rows@.len() ==> #[trigger] rowsm[a]
                                    == rows@[a].deep_view(),
                            runv@ == "Run "@,
                            1 <= i <= rowm.len(),
                            strings_view(names@) =~~= default_names((rowm.len() - 1) as nat).take(
                                i - 1,
                            ),
                        decreases rowm.len() - i,
                    {
                        let ghost pre = names@;
                        proof {
                            assert(strings_view(pre).len() == pre.len());
                            assert(default_names((rowm.len() - 1) as nat).take(i - 1).len() == i
                                - 1);
                            assert(pre.len() == i - 1);
                        }
                        let mut nm = runv.clone();
                        let digits = crate::num::dec_chars_u64(i as u64);
                        crate::num::append_chars(&mut nm, &digits);
                        names.push(crate::text::string_of_chars(&nm));
                        proof {
                            assert(names@.len() == i);
                            assert(nm@ == "Run "@ + dec_of(i as nat));
                            assert(default_names((rowm.len() - 1) as nat)[i - 1] == "Run "@
                                + dec_of(i as nat));
                            assert(strings_view(names@) =~~= default_names(
                                (rowm.len() - 1) as nat,
                            ).take(i as int));
                        }
                        i += 1;
                    }
                    column_names = names;
                    proof {
                        assert(strings_view(column_names@) =~~= default_names(
                            (rowm.len() - 1) as nat,
                        ));
                    }
                }
                first_row = false;
                let ghost cols = strings_view(column_names@);
                if records.n_runs() == 0 {
                    let mut rn: Vec<String> = Vec::new();
                    let mut tz: Vec<u64> = Vec::new();
                    let mut i: usize = 0;
                    while i < column_names.len()
                        invariant
                            cols == strings_view(column_names@),
                            i <= column_names@.len(),
                            cols.len() == column_names@.len(),
                            strings_view(rn@) =~~= cols.take(i as int),
                            tz@ =~= Seq::new(i as nat, |j: int| 0u64),
                        decreases column_names@.len() - i,
                    {
                        let ghost pre = rn@;
                        proof {
                            assert(strings_view(pre).len() == pre.len());
                            assert(cols.take(i as int).len() == i);
                            assert(pre.len() == i);
                        }
                        rn.push(column_names[i].clone());
                        tz.push(0);
                        proof {
                            assert(rn@.len() == i + 1);
                            assert(rn@[i as int] == column_names@[i as int]);
                            assert(strings_view(rn@) =~~= cols.take(i + 1));
                            assert(tz@ =~= Seq::new((i + 1) as nat, |j: int| 0u64));
                        }
                        i += 1;
                    }
                    records.run_names = rn;
                    records.runs_total_irs = tz;
                    proof {
                        assert(cols.take(column_names@.len() as int) =~~= cols);
                        assert(records@.run_names =~~= cols);
                        assert(records@.runs_total_irs =~= Seq::new(cols.len(), |j: int| 0u64));
                        assert(records@.symbols =~= st.rec.symbols);
                    }
                }
                let ghost rec0 = records@;
                let ghost ncols: nat = rec0.run_names.len();
                let ncols_e = records.n_runs();
                let ghost counts = row_counts(rowm, ncols);
                let name_chars = apply_replacements_vec(&cell0, replacements);
                let name = crate::text::string_of_chars(&name_chars);
                let mut irs: Vec<u64> = Vec::new();
                let mut j: usize = 0;
                while j < ncols_e
                    invariant
                        ncols_e == ncols == records@.run_names.len(),
                        records@.runs_total_irs.len() == ncols,
                        row_len == rowm.len(),
                        rowm == rowsm[k as int],
                        k < rows@.len(),
                        rowsm == rows.deep_view(),
                        forall|a: int|
                            0 <= a < rows@.len() ==> #[trigger] rowsm[a] == rows@[a].deep_view(),
                        rowm.len() == rows@[k as int]@.len(),
                        forall|a: int|
                            0 <= a < rowm.len() ==> #[trigger] rowm[a] == rows@[k as int]@[a]@,
                        counts == row_counts(rowm, ncols),
                        j <= ncols,
                        irs@ =~= counts.take(j as int),
                        records@.run_names == rec0.run_names,
                        records@.symbols == rec0.symbols,
                        records@.runs_total_irs =~= Seq::new(
                            ncols,
                            |m: int|
                                if m < j {
                                    crate::sat_add(rec0.runs_total_irs[m], counts[m])
                                } else {
                                    rec0.runs_total_irs[m]
                                },
                        ),
                    decreases ncols_e - j,
                {
                    let c: u64 = if j + 1 < row_len {
                        let cell = crate::text::str_chars(rows[k][j + 1].as_str());
                        let trimmed = crate::text::trim_exec(&cell);
                        match crate::num::parse_u64_chars(&trimmed) {
                            Some(v) => v,
                            None => 0,
                        }
                    } else {
                        0
                    };
                    proof {
                        assert(counts[j as int] == c);
                    }
                    irs.push(c);
                    let t = records.runs_total_irs.remove(j);
                    let t2 = crate::sat_add_exec(t, c);
                    records.runs_total_irs.insert(j, t2);
                    proof {
                        assert(irs@ =~= counts.take(j + 1));
                        assert(records@.runs_total_irs =~= Seq::new(
                            ncols,
                            |m: int|
                                if m < j + 1 {
                                    crate::sat_add(rec0.runs_total_irs[m], counts[m])
                                } else {
                                    rec0.runs_total_irs[m]
                                },
                        ));
                    }
                    j += 1;
                }
                proof {
                    assert(irs@ =~= counts);
                }
                records.symbols.push(RecordsSymbol { name, irs });
                proof {
                    let ghost spec_cols = if st.first {
                        default_names((rowm.len() - 1) as nat)
                    } else {
                        st.cols
                    };
                    assert(strings_view(column_names@) == spec_cols);
                    assert(rec0 == (if st.rec.run_names.len() == 0 {
                        RecordsModel {
                            run_names: spec_cols,
                            runs_total_irs: Seq::new(spec_cols.len(), |j: int| 0u64),
                            symbols: st.rec.symbols,
                        }
                    } else {
                        st.rec
                    }));
                    assert(records@.symbols =~= rec0.symbols.push(
                        RecordsSymbolModel {
                            name: apply_replacements(rowm[0], repl),
                            irs: counts,
                        },
                    ));
                    assert(records@.runs_total_irs =~= Seq::new(
                        ncols,
                        |m: int| crate::sat_add(rec0.runs_total_irs[m], counts[m]),
                    ));
                    assert(csv_step(st, rowm, repl).rec == records@);
                    assert(csv_step(st, rowm, repl) == (CsvState {
                        first: false,
                        cols: strings_view(column_names@),
                        rec: records@,
                    }));
                }
            }
        }
        k += 1;
    }
    proof {
        assert(rowsm.take(k as int) =~= rowsm);
        let fin = csv_fold(init_csv_state(), rowsm, repl);
        assert(records@ == fin.rec);
        lemma_csv_fold_wf(init_csv_state(), rowsm, repl);
    }
    records
}

/// A state whose records satisfy the length invariant, with the columns and
/// run names agreeing once any run exists.
pub open spec fn csv_state_wf(st: CsvState) -> bool {
    &&& st.rec.runs_total_irs.len() == st.rec.run_names.len()
    &&& forall|i: int|
        0 <= i < st.rec.symbols.len() ==> (#[trigger] st.rec.symbols[i].irs).len()
            == st.rec.run_names.len()
    &&& (st.rec.run_names.len() > 0 ==> st.rec.run_names == st.cols)
    &&& (st.first ==> st.rec.run_names.len() == 0 && st.rec.symbols.len() == 0)
    &&& (st.rec.run_names.len() == 0 ==> st.rec.symbols.len() == 0)
    &&& (!st.first ==> st.cols.len() >= 1)
}

/// Folding rows preserves the importer's invariant.
proof fn lemma_csv_fold_wf(st: CsvState, rows: Seq<Seq<Seq<char>>>, repl: Seq<ReplacementModel>)
    requires
        csv_state_wf(st),
    ensures
        csv_state_wf(csv_fold(st, rows, repl)),
    decreases rows.len(),
{
    if rows.len() > 0 {
        lemma_csv_fold_wf(st, rows.drop_last(), repl);
        let prev = csv_fold(st, rows.drop_last(), repl);
        let row = rows.last();
        let next = csv_step(prev, row, repl);
        if row.len() < 2 {
        } else if prev.first && eq_ignore_ascii_case(row[0], "name"@) {
        } else {
            let cols = if prev.first {
                default_names((row.len() - 1) as nat)
            } else {
                prev.cols
            };
            let rec0 = if prev.rec.run_names.len() == 0 {
                RecordsModel {
                    run_names: cols,
                    runs_total_irs: Seq::new(cols.len(), |j: int| 0u64),
                    symbols: prev.rec.symbols,
                }
            } else {
                prev.rec
            };
            assert(rec0.run_names == cols);
            assert(rec0.runs_total_irs.len() == rec0.run_names.len());
            assert(rec0.symbols.len() == prev.rec.symbols.len());
            assert(forall|i: int|
                0 <= i < rec0.symbols.len() ==> (#[trigger] rec0.symbols[i].irs).len()
                    == rec0.run_names.len());
            assert(cols.len() >= 1);
            assert(next.rec.run_names == cols && next.cols == cols);
            assert(next.rec.runs_total_irs.len() == next.rec.run_names.len());
            assert(next.rec.symbols.len() == rec0.symbols.len() + 1);
            assert forall|i: int| 0 <= i < next.rec.symbols.len() implies (
            #[trigger] next.rec.symbols[i].irs).len() == next.rec.run_names.len() by {
                if i < rec0.symbols.len() {
                    assert(next.rec.symbols[i] == rec0.symbols[i]);
                } else {
                    assert(next.rec.symbols[i].irs == row_counts(row, rec0.run_names.len()));
                }
            }
        }
    }
}

/// The plain export: a `name` header with the run names, then one row per
/// symbol holding its name and its counts in decimal.
pub open spec fn spec_to_csv_rows(m: RecordsModel) -> Seq<Seq<Seq<char>>> {
    seq![seq!["name"@] + m.run_names] + m.symbols.map_values(
        |s: RecordsSymbolModel| seq![s.name] + s.irs.map_values(|v: u64| dec_of(v as nat)),
    )
}

/// Renders the records as rows of cells, exactly as `spec_to_csv_rows` says.
pub fn to_csv_rows(records: &Records) -> (r: Vec<Vec<String>>)
    ensures
        r.deep_view() == spec_to_csv_rows(records@),
{
    let ghost m = records@;
    let mut rows: Vec<Vec<String>> = Vec::new();
    let mut header: Vec<String> = Vec::new();
    header.push("name".to_owned());
    let mut i: usize = 0;
    while i < records.run_names.len()
        invariant
            m == records@,
            i <= m.run_names.len(),
            m.run_names.len() == records.run_names@.len(),
            header.deep_view() =~~= (seq!["name"@] + m.run_names).take(1 + i),
        decreases m.run_names.len() - i,
    {
        let ghost pre = header.deep_view();
        header.push(records.run_names[i].clone());
        proof {
            assert(header.deep_view() =~~= pre.push(m.run_names[i as int]));
            assert(header.deep_view() =~~= (seq!["name"@] + m.run_names).take(1 + i + 1));
        }
        i += 1;
    }
    rows.push(header);
    proof {
        assert(rows.deep_view() =~~= spec_to_csv_rows(m).take(1));
    }
    let mut k: usize = 0;
    while k < records.symbols.len()
        invariant
            m == records@,
            k <= m.symbols.len(),
            m.symbols.len() == records.symbols@.len(),
            rows.deep_view() =~~= spec_to_csv_rows(m).take(1 + k),
        decreases m.symbols.len() - k,
    {
        let mut row: Vec<String> = Vec::new();
        row.push(records.symbols[k].name.clone());
        let mut j: usize = 0;
        while j < records.symbols[k].irs.len()
            invariant
                m == records@,
                k < m.symbols.len(),
                m.symbols.len() == records.symbols@.len(),
                j <= m.symbols[k as int].irs.len(),
                m.symbols[k as int].irs.len() == records.symbols@[k as int]@.irs.len(),
                row.deep_view() =~~= (seq![m.symbols[k as int].name] + m.symbols[k as int].irs.map_values(|v: u64| dec_of(v as nat))).take(1 + j),
            decreases m.symbols[k as int].irs.len() - j,
        {
            let ghost pre = row.deep_view();
            let digits = crate::num::dec_chars_u64(records.symbols[k].irs[j]);
            row.push(crate::text::string_of_chars(&digits));
            proof {
                assert(row.deep_view() =~~= pre.push(dec_of(m.symbols[k as int].irs[j as int] as nat)));
                assert(row.deep_view() =~~= (seq![m.symbols[k as int].name] + m.symbols[k as int].irs.map_values(|v: u64| dec_of(v as nat))).take(1 + j + 1));
            }
            j += 1;
        }
        let ghost pre_rows = rows.deep_view();
        rows.push(row);
        proof {
            assert(row.deep_view() =~~= seq![m.symbols[k as int].name] + m.symbols[k as int].irs.map_values(|v: u64| dec_of(v as nat)));
            assert(spec_to_csv_rows(m)[1 + k] == seq![m.symbols[k as int].name] + m.symbols[k as int].irs.map_values(|v: u64| dec_of(v as nat)));
            assert(rows.deep_view() =~~= pre_rows.push(row.deep_view()));
            assert(rows.deep_view() =~~= spec_to_csv_rows(m).take(1 + k + 1));
        }
        k += 1;
    }
    proof {
        assert(spec_to_csv_rows(m).take(1 + m.symbols.len() as int) =~~= spec_to_csv_rows(m));
    }
    rows
}

/// Exporting and importing again reproduces the matrix.
///
/// Re-importing a plain export with no replacements gives back exactly the
/// same symbols with the same counts, and — as soon as one symbol exists to
/// carry a data row — the same run names. The totals are recomputed from the
/// columns, so they are not part of this statement.
pub proof fn lemma_csv_round_trip(m: RecordsModel)
    requires
        m.run_names.len() >= 1,
        forall|i: int|
            0 <= i < m.symbols.len() ==> (#[trigger] m.symbols[i].irs).len()
                == m.run_names.len(),
    ensures
        spec_from_csv_rows(spec_to_csv_rows(m), Seq::<ReplacementModel>::empty()).symbols
            == m.symbols,
        m.symbols.len() >= 1 ==> spec_from_csv_rows(
            spec_to_csv_rows(m),
            Seq::<ReplacementModel>::empty(),
        ).run_names == m.run_names,
{
    let rows = spec_to_csv_rows(m);
    let repl = Seq::<ReplacementModel>::empty();
    lemma_round_fold(m, m.symbols.len() as int);
    assert(rows.take(1 + m.symbols.len() as int) =~~= rows);
    assert(csv_fold(init_csv_state(), rows, repl).rec.symbols =~= m.symbols) by {
        assert(m.symbols.take(m.symbols.len() as int) =~= m.symbols);
    }
}

/// The import state after the exported header and the first `j` exported
/// data rows.
proof fn lemma_round_fold(m: RecordsModel, j: int)
    requires
        m.run_names.len() >= 1,
        forall|i: int|
            0 <= i < m.symbols.len() ==> (#[trigger] m.symbols[i].irs).len()
                == m.run_names.len(),
        0 <= j <= m.symbols.len(),
    ensures
        ({
            let st = csv_fold(
                init_csv_state(),
                spec_to_csv_rows(m).take(1 + j),
                Seq::<ReplacementModel>::empty(),
            );
            &&& st.first == false
            &&& st.cols == m.run_names
            &&& st.rec.symbols == m.symbols.take(j)
            &&& (j == 0 ==> st.rec.run_names.len() == 0)
            &&& (j > 0 ==> st.rec.run_names == m.run_names)
            &&& st.rec.runs_total_irs.len() == (if j == 0 {
                0int
            } else {
                m.run_names.len() as int
            })
        }),
    decreases j,
{
    let rows = spec_to_csv_rows(m);
    let repl = Seq::<ReplacementModel>::empty();
    let n = m.run_names.len();
    if j == 0 {
        let header = rows[0];
        assert(rows.take(1).drop_last() =~= rows.take(0));
        assert(rows.take(0) =~= Seq::<Seq<Seq<char>>>::empty());
        assert(rows.take(1).last() == header);
        assert(csv_fold(init_csv_state(), rows.take(1), repl) == csv_step(
            init_csv_state(),
            header,
            repl,
        ));
        assert(header == seq!["name"@] + m.run_names);
        assert(header.len() == 1 + n);
        assert(header[0] == "name"@);
        assert(eq_ignore_ascii_case(header[0], "name"@));
        assert(header.drop_first() =~= m.run_names);
        assert(m.symbols.take(0) =~= Seq::<RecordsSymbolModel>::empty());
    } else {
        lemma_round_fold(m, j - 1);
        let st = csv_fold(init_csv_state(), rows.take(1 + j - 1), repl);
        let row = rows[j];
        assert(rows.take(1 + j).drop_last() =~= rows.take(1 + j - 1));
        assert(rows.take(1 + j).last() == rows[j]);
        assert(csv_fold(init_csv_state(), rows.take(1 + j), repl) == csv_step(st, row, repl));
        let sym = m.symbols[j - 1];
        assert(row == seq![sym.name] + sym.irs.map_values(|v: u64| dec_of(v as nat))) by {
            assert(rows[j] == m.symbols.map_values(
                |s: RecordsSymbolModel| seq![s.name] + s.irs.map_values(
                    |v: u64| dec_of(v as nat),
                ),
            )[j - 1]);
        }
        assert(sym.irs.len() == n);
        assert(row.len() == 1 + n);
        assert(!st.first);
        let next = csv_step(st, row, repl);
        let rec0 = if st.rec.run_names.len() == 0 {
            RecordsModel {
                run_names: st.cols,
                runs_total_irs: Seq::new(st.cols.len(), |q: int| 0u64),
                symbols: st.rec.symbols,
            }
        } else {
            st.rec
        };
        assert(rec0.run_names == m.run_names);
        assert(rec0.symbols == m.symbols.take(j - 1));
        let counts = row_counts(row, n);
        assert(counts =~= sym.irs) by {
            assert forall|c: int| 0 <= c < n implies counts[c] == sym.irs[c] by {
                assert(row[c + 1] == sym.irs.map_values(|v: u64| dec_of(v as nat))[c]);
                assert(row[c + 1] == dec_of(sym.irs[c] as nat));
                crate::num::lemma_count_round_trip(sym.irs[c]);
            }
        }
        assert(apply_replacements(row[0], repl) == row[0]);
        assert(row[0] == sym.name);
        assert(next.rec.symbols =~= m.symbols.take(j)) by {
            assert(m.symbols.take(j).drop_last() =~= m.symbols.take(j - 1));
            assert(m.symbols.take(j).last() == sym);
            assert(next.rec.symbols == rec0.symbols.push(
                RecordsSymbolModel { name: sym.name, irs: counts },
            ));
            assert(RecordsSymbolModel { name: sym.name, irs: counts } == sym);
        }
    }
}

/// The header cells one run contributes to the enhanced export.
pub open spec fn enh_header_cells(
    name: Seq<char>,
    i: int,
    pct: bool,
    diff: bool,
    all: bool,
    refc: int,
) -> Seq<Seq<char>> {
    if all {
        if i == refc {
            seq![name + "_ir"@]
        } else {
            seq![name + "_ir"@, name + "_diff"@, name + "_pct"@]
        }
    } else {
        seq![name + "_ir"@] + (if i != refc && diff {
            seq![name + "_diff"@]
        } else {
            Seq::empty()
        }) + (if i != refc && pct {
            seq![name + "_pct"@]
        } else {
            Seq::empty()
        })
    }
}

/// The header cells of all runs from `i` on.
pub open spec fn enh_header_from(
    names: Seq<Seq<char>>,
    i: int,
    pct: bool,
    diff: bool,
    all: bool,
    refc: int,
) -> Seq<Seq<char>>
    decreases names.len() - i,
{
    if i < 0 || i >= names.len() {
        Seq::empty()
    } else {
        enh_header_cells(names[i], i, pct, diff, all, refc) + enh_header_from(
            names,
            i + 1,
            pct,
            diff,
            all,
            refc,
        )
    }
}

/// The data cells one column of a symbol contributes: the count, and against
/// a different reference column the signed difference and the percentage.
pub open spec fn enh_sym_cells(
    ir: u64,
    refv: u64,
    i: int,
    pct: bool,
    diff: bool,
    all: bool,
    refc: int,
) -> Seq<Seq<char>> {
    if all {
        if i == refc {
            seq![dec_of(ir as nat)]
        } else {
            seq![dec_of(ir as nat), diff_str_seq(ir, refv), pct_str_seq(ir, refv)]
        }
    } else {
        seq![dec_of(ir as nat)] + (if i != refc && diff {
            seq![diff_str_seq(ir, refv)]
        } else {
            Seq::empty()
        }) + (if i != refc && pct {
            seq![pct_str_seq(ir, refv)]
        } else {
            Seq::empty()
        })
    }
}

/// The data cells of a symbol from column `i` on.
pub open spec fn enh_sym_from(
    irs: Seq<u64>,
    refv: u64,
    i: int,
    pct: bool,
    diff: bool,
    all: bool,
    refc: int,
) -> Seq<Seq<char>>
    decreases irs.len() - i,
{
    if i < 0 || i >= irs.len() {
        Seq::empty()
    } else {
        enh_sym_cells(irs[i], refv, i, pct, diff, all, refc) + enh_sym_from(
            irs,
            refv,
            i + 1,
            pct,
            diff,
            all,
            refc,
        )
    }
}

/// The reference count of a symbol: its count in the reference column, or
/// zero when that column is beyond its counts.
pub open spec fn ref_ir_of(sym: RecordsSymbolModel, refc: int) -> u64 {
    if 0 <= refc < sym.irs.len() {
        sym.irs[refc]
    } else {
        0u64
    }
}

/// The enhanced export: a `name` header with per-run `_ir`/`_diff`/`_pct`
/// columns, then one row per symbol with counts, signed differences and
/// three-decimal percentages against the reference column.
pub open spec fn spec_to_csv_rows_enhanced(
    m: RecordsModel,
    pct: bool,
    diff: bool,
    all: bool,
    refc: int,
) -> Seq<Seq<Seq<char>>> {
    seq![seq!["name"@] + enh_header_from(m.run_names, 0, pct, diff, all, refc)]
        + m.symbols.map_values(
        |s: RecordsSymbolModel| seq![s.name] + enh_sym_from(
            s.irs,
            ref_ir_of(s, refc),
            0,
            pct,
            diff,
            all,
            refc,
        ),
    )
}

/// A cell made of a run name and a suffix.
fn suffixed(name: &String, suffix: &str) -> (r: String)
    ensures
        r@ == name@ + suffix@,
{
    let mut v = crate::text::str_chars(name.as_str());
    let sv = crate::text::str_chars(suffix);
    crate::num::append_chars(&mut v, &sv);
    crate::text::string_of_chars(&v)
}

/// Renders the records with diff and percentage columns, exactly as
/// `spec_to_csv_rows_enhanced` says.
pub fn to_csv_rows_enhanced(
    records: &Records,
    include_percentages: bool,
    include_differences: bool,
    include_all_data: bool,
    reference_column: usize,
) -> (r: Vec<Vec<String>>)
    ensures
        r.deep_view() == spec_to_csv_rows_enhanced(
            records@,
            include_percentages,
            include_differences,
            include_all_data,
            reference_column as int,
        ),
{
    let ghost m = records@;
    let pct = include_percentages;
    let diff = include_differences;
    let all = include_all_data;
    let refc = reference_column;
    let mut rows: Vec<Vec<String>> = Vec::new();
    let mut header: Vec<String> = Vec::new();
    header.push("name".to_owned());
    let mut i: usize = 0;
    proof {
        assert(header.deep_view() =~~= seq!["name"@]);
        assert(header.deep_view() + enh_header_from(m.run_names, 0, pct, diff, all, refc as int)
            =~~= seq!["name"@] + enh_header_from(m.run_names, 0, pct, diff, all, refc as int));
    }
    while i < records.run_names.len()
        invariant
            m == records@,
            pct == include_percentages,
            diff == include_differences,
            all == include_all_data,
            refc == reference_column,
            i <= m.run_names.len(),
            m.run_names.len() == records.run_names@.len(),
            header.deep_view() + enh_header_from(m.run_names, i as int, pct, diff, all, refc as int)
                =~~= seq!["name"@] + enh_header_from(m.run_names, 0, pct, diff, all, refc as int),
        decreases m.run_names.len() - i,
    {
        let ghost pre = header.deep_view();
        let nm = &records.run_names[i];
        proof {
            assert(nm@ == m.run_names[i as int]);
        }
        if all {
            if i == refc {
                header.push(suffixed(nm, "_ir"));
            } else {
                header.push(suffixed(nm, "_ir"));
                header.push(suffixed(nm, "_diff"));
                header.push(suffixed(nm, "_pct"));
            }
        } else {
            header.push(suffixed(nm, "_ir"));
            if i != refc && diff {
                header.push(suffixed(nm, "_diff"));
            }
            if i != refc && pct {
                header.push(suffixed(nm, "_pct"));
            }
        }
        proof {
            let ghost cells = enh_header_cells(
                m.run_names[i as int],
                i as int,
                pct,
                diff,
                all,
                refc as int,
            );
            let ghost rest = enh_header_from(m.run_names, i + 1, pct, diff, all, refc as int);
            assert(header.deep_view() =~~= pre + cells);
            assert(enh_header_from(m.run_names, i as int, pct, diff, all, refc as int) == cells
                + rest);
            assert((pre + cells) + rest =~~= pre + (cells + rest));
        }
        i += 1;
    }
    proof {
        assert(enh_header_from(m.run_names, i as int, pct, diff, all, refc as int)
            =~~= Seq::<Seq<char>>::empty());
        assert(header.deep_view() + Seq::<Seq<char>>::empty() =~~= header.deep_view());
    }
    rows.push(header);
    proof {
        assert(rows.deep_view() =~~= spec_to_csv_rows_enhanced(
            m,
            pct,
            diff,
            all,
            refc as int,
        ).take(1));
    }
    let mut k: usize = 0;
    while k < records.symbols.len()
        invariant
            m == records@,
            pct == include_percentages,
            diff == include_differences,
            all == include_all_data,
            refc == reference_column,
            k <= m.symbols.len(),
            m.symbols.len() == records.symbols@.len(),
            rows.deep_view() =~~= spec_to_csv_rows_enhanced(m, pct, diff, all, refc as int).take(
                1 + k,
            ),
        decreases m.symbols.len() - k,
    {
        let ghost sym = m.symbols[k as int];
        let mut row: Vec<String> = Vec::new();
        row.push(records.symbols[k].name.clone());
        let refv: u64 = if refc < records.symbols[k].irs.len() {
            records.symbols[k].irs[refc]
        } else {
            0
        };
        proof {
            assert(refv == ref_ir_of(sym, refc as int));
        }
        let mut j: usize = 0;
        proof {
            assert(row.deep_view() =~~= seq![sym.name]);
            assert(row.deep_view() + enh_sym_from(sym.irs, refv, 0, pct, diff, all, refc as int)
                =~~= seq![sym.name] + enh_sym_from(sym.irs, refv, 0, pct, diff, all, refc as int));
        }
        while j < records.symbols[k].irs.len()
            invariant
                m == records@,
                pct == include_percentages,
                diff == include_differences,
                all == include_all_data,
                refc == reference_column,
                k < m.symbols.len(),
                m.symbols.len() == records.symbols@.len(),
                sym == m.symbols[k as int],
                j <= sym.irs.len(),
                sym.irs.len() == records.symbols@[k as int]@.irs.len(),
                refv == ref_ir_of(sym, refc as int),
                row.deep_view() + enh_sym_from(sym.irs, refv, j as int, pct, diff, all, refc as int)
                    =~~= seq![sym.name] + enh_sym_from(
                    sym.irs,
                    refv,
                    0,
                    pct,
                    diff,
                    all,
                    refc as int,
                ),
            decreases sym.irs.len() - j,
        {
            let ghost pre = row.deep_view();
            let ir = records.symbols[k].irs[j];
            proof {
                assert(ir == sym.irs[j as int]);
            }
            if all {
                if j == refc {
                    row.push(dec_string(ir));
                } else {
                    row.push(dec_string(ir));
                    row.push(diff_string(ir, refv));
                    row.push(pct_string(ir, refv));
                }
            } else {
                row.push(dec_string(ir));
                if j != refc && diff {
                    row.push(diff_string(ir, refv));
                }
                if j != refc && pct {
                    row.push(pct_string(ir, refv));
                }
            }
            proof {
                let ghost cells = enh_sym_cells(
                    sym.irs[j as int],
                    refv,
                    j as int,
                    pct,
                    diff,
                    all,
                    refc as int,
                );
                let ghost rest = enh_sym_from(sym.irs, refv, j + 1, pct, diff, all, refc as int);
                assert(row.deep_view() =~~= pre + cells);
                assert(enh_sym_from(sym.irs, refv, j as int, pct, diff, all, refc as int) == cells
                    + rest);
                assert((pre + cells) + rest =~~= pre + (cells + rest));
            }
            j += 1;
        }
        proof {
            assert(enh_sym_from(sym.irs, refv, j as int, pct, diff, all, refc as int)
                =~~= Seq::<Seq<char>>::empty());
            assert(row.deep_view() + Seq::<Seq<char>>::empty() =~~= row.deep_view());
        }
        let ghost pre_rows = rows.deep_view();
        rows.push(row);
        proof {
            assert(row.deep_view() =~~= seq![sym.name] + enh_sym_from(
                sym.irs,
                refv,
                0,
                pct,
                diff,
                all,
                refc as int,
            ));
            assert(spec_to_csv_rows_enhanced(m, pct, diff, all, refc as int)[1 + k]
                == seq![sym.name] + enh_sym_from(
                sym.irs,
                ref_ir_of(sym, refc as int),
                0,
                pct,
                diff,
                all,
                refc as int,
            ));
            assert(rows.deep_view() =~~= pre_rows.push(row.deep_view()));
            assert(rows.deep_view() =~~= spec_to_csv_rows_enhanced(
                m,
                pct,
                diff,
                all,
                refc as int,
            ).take(1 + k + 1));
        }
        k += 1;
    }
    proof {
        assert(spec_to_csv_rows_enhanced(m, pct, diff, all, refc as int).take(
            1 + m.symbols.len() as int,
        ) =~~= spec_to_csv_rows_enhanced(m, pct, diff, all, refc as int));
    }
    rows
}

/// The decimal text of a count.
fn dec_string(ir: u64) -> (r: String)
    ensures
        r@ == dec_of(ir as nat),
{
    let v = crate::num::dec_chars_u64(ir);
    crate::text::string_of_chars(&v)
}

/// The decimal text of a signed difference.
fn diff_string(ir: u64, refv: u64) -> (r: String)
    ensures
        r@ == diff_str_seq(ir, refv),
{
    let v = crate::num::diff_chars(ir, refv);
    crate::text::string_of_chars(&v)
}

/// The three-decimal percentage text.
fn pct_string(ir: u64, refv: u64) -> (r: String)
    ensures
        r@ == pct_str_seq(ir, refv),
{
    let v = crate::num::pct_chars(ir, refv);
    crate::text::string_of_chars(&v)
}

#[verifier::external_type_specification]
#[verifier::external_body]
pub struct ExCsvError(CsvLibError);

/// What the CSV library's reader yields on a text: its records, each a list
/// of fields, headers treated as an ordinary record.
pub uninterp spec fn csv_rows_of(text: Seq<char>) -> Seq<Seq<Seq<char>>>;

/// Whether the CSV library's reader accepts a text whole. Under the fixed
/// configuration — headers off, flexible off — acceptance is a function of
/// the text alone: it fails exactly on a record whose field count differs
/// from the first record's.
pub uninterp spec fn csv_ok(text: Seq<char>) -> bool;

/// What the CSV library's writer produces from records of fields: quoting
/// where a field needs it, `\n` after every record.
pub uninterp spec fn csv_text_of(rows: Seq<Seq<Seq<char>>>) -> Seq<char>;

/// Relies on `csv::Reader` (headers off): splits CSV text into its records
/// of fields. Reading a string slice does no I/O, so the call succeeds
/// exactly when the reader accepts the text, which `csv_ok` names.
#[verifier::external_body]
fn csv_split(text: &str) -> (r: Result<Vec<Vec<String>>, CsvLibError>)
    ensures
        r is Ok <==> csv_ok(text@),
        r matches Ok(rows) ==> rows.deep_view() == csv_rows_of(text@),
{
    let mut reader = csv::ReaderBuilder::new().has_headers(false).from_reader(text.as_bytes());
    let mut rows: Vec<Vec<String>> = Vec::new();
    for record in reader.records() {
        rows.push(record?.iter().map(|f| f.to_string()).collect());
    }
    Ok(rows)
}

/// Relies on `csv::Writer`: encodes records of fields as CSV text. With
/// every record the same width, no length error can arise, and an in-memory
/// buffer cannot fail to take bytes, so the results are unwrapped; the
/// buffer holds UTF-8 because only strings were written.
#[verifier::external_body]
fn csv_join(rows: &Vec<Vec<String>>) -> (r: String)
    requires
        forall|i: int| 0 <= i < rows@.len() ==> (#[trigger] rows@[i])@.len() == rows@[0]@.len(),
    ensures
        r@ == csv_text_of(rows.deep_view()),
{
    let mut writer = csv::Writer::from_writer(Vec::new());
    for row in rows {
        writer.write_record(row).expect("in-memory CSV writing cannot fail");
    }
    let bytes = writer.into_inner().expect("in-memory CSV flushing cannot fail");
    String::from_utf8(bytes).expect("CSV text written from strings is UTF-8")
}

/// Build records from CSV text.
///
/// The text is split into records by the CSV library; what the records mean
/// is `spec_from_csv_rows`: header auto-detection, per-cell tolerant count
/// parsing, accumulated totals. This succeeds exactly when the reader
/// accepts the text (`csv_ok`); a text it rejects — a record whose field
/// count differs from the first record's — is reported as a structural
/// error.
pub fn from_csv_str(text: &str, replacements: &Vec<StringReplacement>) -> (r: Result<
    Records,
    Error,
>)
    ensures
        r is Ok <==> csv_ok(text@),
        match r {
            Ok(rec) => rec@ == spec_from_csv_rows(csv_rows_of(text@), repl_models(replacements@))
                && rec.wf_lens(),
            Err(e) => e == Error::CsvStructure,
        },
{
    match csv_split(text) {
        Ok(rows) => Ok(from_csv_rows(&rows, replacements)),
        Err(_) => Err(Error::CsvStructure),
    }
}

/// Render the records as CSV text: the plain export encoded by the CSV
/// library.
pub fn to_csv_str(records: &Records) -> (r: String)
    requires
        records.wf_lens(),
    ensures
        r@ == csv_text_of(spec_to_csv_rows(records@)),
{
    let rows = to_csv_rows(records);
    proof {
        let rm = rows.deep_view();
        assert(rows@.len() == rm.len());
        assert forall|i: int| 0 <= i < rows@.len() implies (#[trigger] rows@[i])@.len() == rows@[0]@.len() by {
            assert(rows@[i].deep_view() == rm[i]);
            assert(rows@[0].deep_view() == rm[0]);
            assert(rm[0].len() == 1 + records@.run_names.len());
            if i > 0 {
                assert(rm[i] == spec_to_csv_rows(records@)[i]);
                assert(rm[i].len() == 1 + records@.symbols[i - 1].irs.len());
            }
        }
    }
    csv_join(&rows)
}

/// The width of every enhanced-export cell group of one symbol or run name.
proof fn lemma_enh_widths(
    names: Seq<Seq<char>>,
    irs: Seq<u64>,
    refv: u64,
    i: int,
    pct: bool,
    diff: bool,
    all: bool,
    refc: int,
)
    requires
        names.len() == irs.len(),
        0 <= i,
    ensures
        enh_header_from(names, i, pct, diff, all, refc).len() == enh_sym_from(
            irs,
            refv,
            i,
            pct,
            diff,
            all,
            refc,
        ).len(),
    decreases names.len() - i,
{
    if i < names.len() {
        lemma_enh_widths(names, irs, refv, i + 1, pct, diff, all, refc);
    }
}

/// Render the records as CSV text with difference and percentage columns
/// against the reference column, which must be one of the loaded columns.
pub fn to_csv_str_enhanced(
    records: &Records,
    include_percentages: bool,
    include_differences: bool,
    include_all_data: bool,
    reference_column: usize,
) -> (r: String)
    requires
        records.wf_lens(),
        reference_column < records@.run_names.len(),
    ensures
        r@ == csv_text_of(
            spec_to_csv_rows_enhanced(
                records@,
                include_percentages,
                include_differences,
                include_all_data,
                reference_column as int,
            ),
        ),
{
    let rows = to_csv_rows_enhanced(
        records,
        include_percentages,
        include_differences,
        include_all_data,
        reference_column,
    );
    proof {
        let m = records@;
        let pct = include_percentages;
        let diff = include_differences;
        let all = include_all_data;
        let refc = reference_column as int;
        let rm = rows.deep_view();
        assert(rows@.len() == rm.len());
        assert forall|i: int| 0 <= i < rows@.len() implies (#[trigger] rows@[i])@.len() == rows@[0]@.len() by {
            assert(rows@[i].deep_view() == rm[i]);
            assert(rows@[0].deep_view() == rm[0]);
            assert(rm[0] == seq!["name"@] + enh_header_from(m.run_names, 0, pct, diff, all, refc));
            if i > 0 {
                let sym = m.symbols[i - 1];
                assert(m.symbols[i - 1].irs.len() == m.run_names.len());
                assert(rm[i] == spec_to_csv_rows_enhanced(m, pct, diff, all, refc)[i]);
                assert(rm[i] == seq![sym.name] + enh_sym_from(
                    sym.irs,
                    ref_ir_of(sym, refc),
                    0,
                    pct,
                    diff,
                    all,
                    refc,
                ));
                lemma_enh_widths(
                    m.run_names,
                    sym.irs,
                    ref_ir_of(sym, refc),
                    0,
                    pct,
                    diff,
                    all,
                    refc,
                );
                assert(rows@[i]@.len() == rm[i].len());
                assert(rows@[0]@.len() == rm[0].len());
                assert(rm[0].len() == 1 + enh_header_from(
                    m.run_names,
                    0,
                    pct,
                    diff,
                    all,
                    refc,
                ).len());
                assert(rm[i].len() == 1 + enh_sym_from(
                    sym.irs,
                    ref_ir_of(sym, refc),
                    0,
                    pct,
                    diff,
                    all,
                    refc,
                ).len());
            }
        }
    }
    csv_join(&rows)
}

} // verus!
