//! Loading a batch of input files into one set of records.
//!
//! Each input is classified by its first line — CSV or annotation report —
//! parsed accordingly, and merged into the growing matrix, strictly in the
//! order given.

use vstd::prelude::*;

use crate::args::StringReplacement;
use crate::args::{after_last_slash, last_dot_pos, strip_trailing_slashes, ReplacementModel};
use crate::csv_io::{csv_rows_of, repl_models, spec_from_csv_rows, strings_view};
use crate::runs::{
    spec_add_ir, spec_add_run, Records, RecordsModel, RecordsSymbolModel, Run, RunModel,
    SymbolCountModel,
};
use crate::text::{
    contains_seq, line_break_pos, split_lines_seq, starts_with_seq, trim_seq,
};
use crate::Error;

verus! {

/// One input file, already read: where it came from, and its whole text.
#[derive(Debug)]
pub struct InputFile {
    /// The path the file was read from; used for naming and nothing else.
    pub path: String,
    /// The file's content.
    pub text: String,
}

/// Model of an input file.
pub struct InputModel {
    pub path: Seq<char>,
    pub text: Seq<char>,
}

impl View for InputFile {
    type V = InputModel;

    open spec fn view(&self) -> InputModel {
        InputModel { path: self.path@, text: self.text@ }
    }
}

/// Whether a first line marks its file as CSV: it holds a comma and none of
/// the markers an annotation report opens with.
pub open spec fn is_csv_first_line(text: Seq<char>) -> bool {
    let l = trim_seq(text.take(line_break_pos(text) as int));
    &&& text.len() > 0
    &&& contains_seq(l, ","@)
    &&& !contains_seq(l, "Profile data file"@)
    &&& !contains_seq(l, "Profiled target"@)
    &&& !contains_seq(l, "Events recorded"@)
    &&& !starts_with_seq(l, "Ir"@)
    &&& !starts_with_seq(l, "---"@)
}

/// Decides `is_csv_first_line` on a file's text.
pub fn is_csv_text(text: &str) -> (r: bool)
    ensures
        r == is_csv_first_line(text@),
{
    let v = crate::text::str_chars(text);
    if v.len() == 0 {
        return false;
    }
    let b = crate::text::first_pos_exec(&v, '\n');
    let ghost lbp = line_break_pos(v@);
    proof {
        lemma_first_pos_is_line_break(v@);
    }
    let first = crate::text::subrange_exec(&v, 0, b);
    proof {
        assert(first@ =~= v@.take(line_break_pos(v@) as int));
    }
    let l = crate::text::trim_exec(&first);
    let comma = crate::text::str_chars(",");
    let m1 = crate::text::str_chars("Profile data file");
    let m2 = crate::text::str_chars("Profiled target");
    let m3 = crate::text::str_chars("Events recorded");
    let m4 = crate::text::str_chars("Ir");
    let m5 = crate::text::str_chars("---");
    crate::text::contains_exec(&l, &comma) && !crate::text::contains_exec(&l, &m1)
        && !crate::text::contains_exec(&l, &m2) && !crate::text::contains_exec(&l, &m3)
        && !crate::text::starts_with_exec(&l, &m4) && !crate::text::starts_with_exec(&l, &m5)
}

/// The first `'\n'` is the first line break.
proof fn lemma_first_pos_is_line_break(s: Seq<char>)
    ensures
        crate::text::first_pos(s, '\n') == line_break_pos(s),
    decreases s.len(),
{
    if s.len() > 0 && s[0] != '\n' {
        lemma_first_pos_is_line_break(s.drop_first());
    }
}

/// The stem of a path: its final component without the extension, or the
/// whole path when there is no final component.
pub open spec fn file_stem_of(s: Seq<char>) -> Seq<char> {
    let comp = after_last_slash(strip_trailing_slashes(s));
    let p = last_dot_pos(comp);
    if comp.len() == 0 {
        s
    } else if p >= 1 {
        comp.take(p)
    } else {
        comp
    }
}

/// Computes `file_stem_of` on a path.
pub fn file_stem_exec(s: &String) -> (r: String)
    ensures
        r@ == file_stem_of(s@),
{
    let v = crate::text::str_chars(s.as_str());
    let mut hi: usize = v.len();
    proof {
        assert(v@.take(hi as int) =~= v@);
    }
    while hi > 0 && v[hi - 1] == '/'
        invariant
            hi <= v@.len(),
            strip_trailing_slashes(v@) == strip_trailing_slashes(v@.take(hi as int)),
        decreases hi,
    {
        proof {
            let cur = v@.take(hi as int);
            assert(cur.last() == v@[hi as int - 1]);
            assert(cur.drop_last() =~= v@.take(hi as int - 1));
        }
        hi -= 1;
    }
    proof {
        let cur = v@.take(hi as int);
        if hi > 0 {
            assert(cur.last() == v@[hi as int - 1]);
        }
        assert(strip_trailing_slashes(cur) == cur);
    }
    let mut lo: usize = hi;
    while lo > 0 && v[lo - 1] != '/'
        invariant
            lo <= hi <= v@.len(),
            after_last_slash(v@.take(hi as int)) == after_last_slash(v@.take(lo as int))
                + v@.subrange(lo as int, hi as int),
        decreases lo,
    {
        proof {
            let cur = v@.take(lo as int);
            assert(cur.last() == v@[lo as int - 1]);
            assert(cur.drop_last() =~= v@.take(lo as int - 1));
            assert(after_last_slash(cur) == after_last_slash(v@.take(lo as int - 1)).push(
                v@[lo as int - 1],
            ));
            assert(after_last_slash(v@.take(lo as int - 1)).push(v@[lo as int - 1]) + v@.subrange(
                lo as int,
                hi as int,
            ) =~= after_last_slash(v@.take(lo as int - 1)) + v@.subrange(lo as int - 1, hi as int));
        }
        lo -= 1;
    }
    proof {
        let cur = v@.take(lo as int);
        if lo > 0 {
            assert(cur.last() == v@[lo as int - 1]);
            assert(after_last_slash(cur) =~= Seq::<char>::empty());
        } else {
            assert(cur =~= Seq::<char>::empty());
            assert(after_last_slash(cur) =~= Seq::<char>::empty());
        }
        assert(after_last_slash(v@.take(hi as int)) =~= v@.subrange(lo as int, hi as int));
    }
    let comp = crate::text::subrange_exec(&v, lo, hi);
    let ghost compm = after_last_slash(strip_trailing_slashes(v@));
    proof {
        assert(comp@ == compm);
    }
    if comp.len() == 0 {
        return s.clone();
    }
    let mut d: usize = comp.len();
    proof {
        assert(comp@.take(d as int) =~= comp@);
    }
    while d > 0 && comp[d - 1] != '.'
        invariant
            d <= comp@.len(),
            last_dot_pos(comp@) == last_dot_pos(comp@.take(d as int)),
        decreases d,
    {
        proof {
            let cur = comp@.take(d as int);
            assert(cur.last() == comp@[d as int - 1]);
            assert(cur.drop_last() =~= comp@.take(d as int - 1));
        }
        d -= 1;
    }
    proof {
        let cur = comp@.take(d as int);
        if d > 0 {
            assert(cur.last() == comp@[d as int - 1]);
            assert(last_dot_pos(cur) == d - 1);
        } else {
            assert(cur =~= Seq::<char>::empty());
            assert(last_dot_pos(cur) == -1);
        }
    }
    if d >= 2 {
        let stem = crate::text::subrange_exec(&comp, 0, d - 1);
        proof {
            assert(stem@ =~= compm.take(last_dot_pos(compm)));
        }
        crate::text::string_of_chars(&stem)
    } else {
        crate::text::string_of_chars(&comp)
    }
}

/// The run one CSV column describes: that column's name and total, and every
/// symbol with a nonzero count there, counts of recurring names summed.
pub open spec fn column_syms(syms: Seq<RecordsSymbolModel>, i: int) -> Seq<SymbolCountModel>
    decreases syms.len(),
{
    if syms.len() == 0 {
        Seq::empty()
    } else {
        let pre = column_syms(syms.drop_last(), i);
        let s = syms.last();
        if 0 <= i < s.irs.len() && s.irs[i] > 0 {
            spec_add_ir(pre, s.name, s.irs[i])
        } else {
            pre
        }
    }
}

/// The run built from column `i` of a loaded CSV batch.
pub open spec fn run_from_column(rm: RecordsModel, i: int) -> RunModel {
    RunModel {
        name: rm.run_names[i],
        symbols: column_syms(rm.symbols, i),
        total_ir: rm.runs_total_irs[i],
    }
}

/// The records after merging the columns of a CSV batch from `i` on.
pub open spec fn add_columns(rec: RecordsModel, csv: RecordsModel, i: int) -> RecordsModel
    decreases csv.run_names.len() - i,
{
    if i < 0 || i >= csv.run_names.len() {
        rec
    } else {
        add_columns(spec_add_run(rec, run_from_column(csv, i)), csv, i + 1)
    }
}

/// The loader's running state: the records so far, and how many annotation
/// reports were taken, which indexes into the given column names.
pub struct LoadState {
    pub rec: RecordsModel,
    pub reports: int,
}

/// What loading one input does to the state.
pub open spec fn load_step(
    st: LoadState,
    input: InputModel,
    csv_names: Seq<Seq<char>>,
    repl: Seq<ReplacementModel>,
) -> LoadState {
    if is_csv_first_line(input.text) {
        LoadState {
            rec: add_columns(st.rec, spec_from_csv_rows(csv_rows_of(input.text), repl), 0),
            reports: st.reports,
        }
    } else {
        let parsed = crate::annotation::spec_parse_annotation(split_lines_seq(input.text), repl);
        let name = if st.reports < csv_names.len() {
            csv_names[st.reports]
        } else if parsed.name.len() == 0 {
            file_stem_of(input.path)
        } else {
            parsed.name
        };
        LoadState {
            rec: spec_add_run(
                st.rec,
                RunModel { name, symbols: parsed.symbols, total_ir: parsed.total_ir },
            ),
            reports: st.reports + 1,
        }
    }
}

/// The load folded over all inputs, in order.
pub open spec fn load_fold(
    st: LoadState,
    inputs: Seq<InputModel>,
    csv_names: Seq<Seq<char>>,
    repl: Seq<ReplacementModel>,
) -> LoadState
    decreases inputs.len(),
{
    if inputs.len() == 0 {
        st
    } else {
        load_step(load_fold(st, inputs.drop_last(), csv_names, repl), inputs.last(), csv_names, repl)
    }
}

/// What a whole batch of inputs means as records.
pub open spec fn spec_parse_records(
    inputs: Seq<InputModel>,
    csv_names: Seq<Seq<char>>,
    repl: Seq<ReplacementModel>,
) -> RecordsModel {
    load_fold(
        LoadState {
            rec: RecordsModel {
                run_names: Seq::empty(),
                runs_total_irs: Seq::empty(),
                symbols: Seq::empty(),
            },
            reports: 0,
        },
        inputs,
        csv_names,
        repl,
    ).rec
}

/// The views of the inputs.
pub open spec fn inputs_view(v: Seq<InputFile>) -> Seq<InputModel> {
    v.map_values(|f: InputFile| f@)
}

/// Parse all inputs into one set of records.
///
/// A file whose first line looks like CSV — a comma, none of an annotation
/// report's opening markers — is loaded as one run per column; any other
/// file is parsed as an annotation report and contributes one run, named by
/// the next given column name, its own declared name, or its file stem, in
/// that order of preference. Runs are merged strictly in input order. The
/// only error is a CSV-classified file whose text the CSV library's reader
/// rejects (`csv_ok`): loading fails exactly when the batch holds such a
/// file, so a batch with no CSV-classified input always loads.
pub fn parse_records(
    inputs: &Vec<InputFile>,
    csv_names: &Vec<String>,
    replacements: &Vec<StringReplacement>,
) -> (r: Result<Records, Error>)
    ensures
        match r {
            Ok(rec) => {
                &&& rec@ == spec_parse_records(
                    inputs_view(inputs@),
                    strings_view(csv_names@),
                    repl_models(replacements@),
                )
                &&& rec.wf()
                &&& forall|i: int|
                    0 <= i < inputs@.len() && is_csv_first_line(#[trigger] inputs@[i]@.text)
                        ==> crate::csv_io::csv_ok(inputs@[i]@.text)
            },
            Err(e) => e == Error::CsvStructure && exists|i: int|
                0 <= i < inputs@.len() && is_csv_first_line(#[trigger] inputs@[i]@.text)
                    && !crate::csv_io::csv_ok(inputs@[i]@.text),
        },
{
    let ghost inputsm = inputs_view(inputs@);
    let ghost namesm = strings_view(csv_names@);
    let ghost repl = repl_models(replacements@);
    let ghost init = LoadState {
        rec: RecordsModel {
            run_names: Seq::empty(),
            runs_total_irs: Seq::empty(),
            symbols: Seq::empty(),
        },
        reports: 0,
    };
    let mut records = Records::new();
    let mut reports: usize = 0;
    let mut k: usize = 0;
    proof {
        assert(inputsm.take(0) =~= Seq::<InputModel>::empty());
        assert(load_fold(init, inputsm.take(0), namesm, repl) == init);
        assert(records@ == init.rec);
    }
    while k < inputs.len()
        invariant
            inputsm == inputs_view(inputs@),
            inputsm.len() == inputs@.len(),
            namesm == strings_view(csv_names@),
            namesm.len() == csv_names@.len(),
            repl == repl_models(replacements@),
            k <= inputs@.len(),
            reports <= k,
            load_fold(init, inputsm.take(k as int), namesm, repl) == (LoadState {
                rec: records@,
                reports: reports as int,
            }),
            records.wf(),
            forall|i: int|
                0 <= i < k && is_csv_first_line(#[trigger] inputs@[i]@.text)
                    ==> crate::csv_io::csv_ok(inputs@[i]@.text),
        decreases inputs@.len() - k,
    {
        let ghost st = load_fold(init, inputsm.take(k as int), namesm, repl);
        proof {
            assert(inputsm.take(k + 1).drop_last() =~= inputsm.take(k as int));
            assert(inputsm.take(k + 1).last() == inputsm[k as int]);
            assert(inputsm[k as int] == inputs@[k as int]@);
        }
        if is_csv_text(inputs[k].text.as_str()) {
            let csv_records = match crate::csv_io::from_csv_str(
                inputs[k].text.as_str(),
                replacements,
            ) {
                Ok(c) => c,
                Err(_) => {
                    proof {
                        assert(is_csv_first_line(inputs@[k as int]@.text));
                        assert(!crate::csv_io::csv_ok(inputs@[k as int]@.text));
                    }
                    return Err(Error::CsvStructure);
                },
            };
            let ghost csvm = csv_records@;
            let n_cols = csv_records.n_runs();
            let mut i: usize = 0;
            proof {
                assert(add_columns(records@, csvm, n_cols as int) == records@);
            }
            let ghost target = add_columns(records@, csvm, 0);
            while i < n_cols
                invariant
                    0 <= i <= n_cols,
                    n_cols == csvm.run_names.len(),
                    csvm == csv_records@,
                    csv_records.wf_lens(),
                    target == add_columns(records@, csvm, i as int),
                    records.wf(),
                decreases n_cols - i,
            {
                let mut run = Run::new_named(csv_records.run_names[i].clone());
                run.total_ir = csv_records.runs_total_irs[i];
                let ghost runm = run_from_column(csvm, i as int);
                let mut q: usize = 0;
                proof {
                    assert(csvm.symbols.take(0) =~= Seq::<RecordsSymbolModel>::empty());
                    assert(run@.symbols =~= column_syms(csvm.symbols.take(0), i as int));
                }
                while q < csv_records.symbols.len()
                    invariant
                        0 <= i < csvm.run_names.len(),
                        csvm == csv_records@,
                        csv_records.wf_lens(),
                        q <= csvm.symbols.len(),
                        csvm.symbols.len() == csv_records.symbols@.len(),
                        run@.symbols == column_syms(csvm.symbols.take(q as int), i as int),
                        run@.name == csvm.run_names[i as int],
                        run@.total_ir == csvm.runs_total_irs[i as int],
                        run.wf(),
                    decreases csvm.symbols.len() - q,
                {
                    proof {
                        assert(csvm.symbols.take(q + 1).drop_last() =~= csvm.symbols.take(
                            q as int,
                        ));
                        assert(csvm.symbols.take(q + 1).last() == csvm.symbols[q as int]);
                    }
                    if i < csv_records.symbols[q].irs.len() && csv_records.symbols[q].irs[i] > 0 {
                        run.add_ir(
                            csv_records.symbols[q].name.as_str(),
                            csv_records.symbols[q].irs[i],
                        );
                    }
                    q += 1;
                }
                proof {
                    assert(csvm.symbols.take(q as int) =~= csvm.symbols);
                    assert(run@ == runm);
                }
                records.add_run(run);
                i += 1;
            }
        } else {
            let text_chars = crate::text::str_chars(inputs[k].text.as_str());
            let line_vecs = crate::text::split_lines_exec(&text_chars);
            let mut lines: Vec<String> = Vec::new();
            let mut w: usize = 0;
            proof {
                assert(strings_view(lines@) =~~= line_vecs.deep_view().take(0));
            }
            while w < line_vecs.len()
                invariant
                    w <= line_vecs@.len(),
                    line_vecs.deep_view().len() == line_vecs@.len(),
                    strings_view(lines@) =~~= line_vecs.deep_view().take(w as int),
                decreases line_vecs@.len() - w,
            {
                let ghost pre = lines@;
                proof {
                    assert(strings_view(pre).len() == pre.len());
                    assert(line_vecs.deep_view().take(w as int).len() == w);
                    assert(pre.len() == w);
                }
                lines.push(crate::text::string_of_chars(&line_vecs[w]));
                proof {
                    assert(lines@.len() == w + 1);
                    assert(line_vecs@[w as int].deep_view() =~= line_vecs@[w as int]@);
                    assert(line_vecs.deep_view()[w as int] == line_vecs@[w as int].deep_view());
                    assert(strings_view(lines@) =~~= line_vecs.deep_view().take(w + 1));
                }
                w += 1;
            }
            proof {
                assert(line_vecs.deep_view().take(w as int) =~~= line_vecs.deep_view());
                assert(line_vecs.deep_view() == split_lines_seq(inputs@[k as int]@.text));
                assert(strings_view(lines@) == split_lines_seq(inputs@[k as int]@.text));
            }
            let mut run = crate::annotation::parse_annotation(&lines, replacements);
            if reports < csv_names.len() {
                run.name = csv_names[reports].clone();
                proof {
                    assert(namesm[reports as int] == csv_names@[reports as int]@);
                }
            } else if run.name.as_str().is_empty() {
                run.name = file_stem_exec(&inputs[k].path);
            }
            records.add_run(run);
            reports += 1;
        }
        k += 1;
    }
    proof {
        assert(inputsm.take(k as int) =~= inputsm);
    }
    Ok(records)
}

} // verus!
