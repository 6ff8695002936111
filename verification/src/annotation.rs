//! The parser for free-text profiling annotation reports.
//!
//! A report line that carries data has the shape
//! `<count> [(<percentage>)] <name>`: an optional indent, a decimal count
//! with optional comma digit grouping, a space, an optional parenthesized
//! annotation that is skipped, and the symbol name. A line naming
//! `PROGRAM TOTALS` carries the report's declared grand total instead of a
//! symbol; every other line — rulers, headers, prose — is skipped.

use vstd::prelude::*;

use crate::args::{ReplacementModel, StringReplacement};
use crate::csv_io::{apply_replacements, repl_models};
use crate::num::{digits_val, is_digit};
use crate::runs::{spec_add_ir, Run, SymbolCountModel};
use crate::text::{trim_end_seq, trim_start_seq};

verus! {

/// A count character: a decimal digit or a comma used for grouping.
pub open spec fn is_count_char(c: char) -> bool {
    is_digit(c) || c == ','
}

/// Length of the longest prefix of `s` made of count characters.
pub open spec fn count_token_len(s: Seq<char>) -> nat
    decreases s.len(),
{
    if s.len() == 0 || !is_count_char(s[0]) {
        0
    } else {
        1 + count_token_len(s.drop_first())
    }
}

/// `s` with the grouping commas removed.
pub open spec fn strip_commas(s: Seq<char>) -> Seq<char>
    decreases s.len(),
{
    if s.len() == 0 {
        Seq::empty()
    } else if s[0] == ',' {
        strip_commas(s.drop_first())
    } else {
        seq![s[0]] + strip_commas(s.drop_first())
    }
}

/// Index of the first `')'` in `s`, or `s.len()` if there is none.
pub open spec fn rparen_pos(s: Seq<char>) -> nat
    decreases s.len(),
{
    if s.len() == 0 {
        0
    } else if s[0] == ')' {
        0
    } else {
        1 + rparen_pos(s.drop_first())
    }
}

/// What a report line carries: a count and a name, or nothing recognizable.
///
/// The count token must begin with a digit, be followed by a space, and its
/// digits must fit in `u64`; an optional `(...)` after it is skipped; the
/// rest, trimmed, is the name and must not be empty.
pub open spec fn classify_line(line: Seq<char>) -> Option<(u64, Seq<char>)> {
    let body = trim_start_seq(line);
    let tok = count_token_len(body) as int;
    if tok == 0 || !is_digit(body[0]) {
        None
    } else if digits_val(strip_commas(body.take(tok))) > u64::MAX {
        None
    } else {
        let after = body.skip(tok);
        if after.len() == 0 || after[0] != ' ' {
            None
        } else {
            let rest = trim_start_seq(after);
            let name_part = if rest.len() > 0 && rest[0] == '(' {
                if rparen_pos(rest) == rest.len() {
                    Seq::<char>::empty()
                } else {
                    trim_start_seq(rest.skip(rparen_pos(rest) as int + 1))
                }
            } else {
                rest
            };
            let name = trim_end_seq(name_part);
            if name.len() == 0 {
                None
            } else {
                Some((digits_val(strip_commas(body.take(tok))) as u64, name))
            }
        }
    }
}

/// The parser's running state: the symbols seen, and the declared total if
/// one was found yet.
pub struct AnnState {
    pub syms: Seq<SymbolCountModel>,
    pub total: Option<u64>,
}

/// One line of the parse: data lines accumulate into the symbol list (the
/// first `PROGRAM TOTALS` line sets the total instead), all others are
/// skipped.
pub open spec fn ann_step(st: AnnState, line: Seq<char>, repl: Seq<ReplacementModel>) -> AnnState {
    match classify_line(line) {
        None => st,
        Some((v, name)) => {
            if name == "PROGRAM TOTALS"@ {
                if st.total is None {
                    AnnState { syms: st.syms, total: Some(v) }
                } else {
                    st
                }
            } else {
                AnnState { syms: spec_add_ir(st.syms, apply_replacements(name, repl), v), total: st.total }
            }
        },
    }
}

/// The parse folded over all lines, in order.
pub open spec fn ann_fold(st: AnnState, lines: Seq<Seq<char>>, repl: Seq<ReplacementModel>) -> AnnState
    decreases lines.len(),
{
    if lines.len() == 0 {
        st
    } else {
        ann_step(ann_fold(st, lines.drop_last(), repl), lines.last(), repl)
    }
}

/// What a whole report means as a run: its accumulated symbols, and its
/// declared total, zero when the report declared none.
pub open spec fn spec_parse_annotation(lines: Seq<Seq<char>>, repl: Seq<ReplacementModel>) -> crate::runs::RunModel {
    let st = ann_fold(AnnState { syms: Seq::empty(), total: None }, lines, repl);
    crate::runs::RunModel {
        name: Seq::empty(),
        symbols: st.syms,
        total_ir: match st.total {
            Some(v) => v,
            None => 0u64,
        },
    }
}

/// Classifies one line, as `classify_line` describes.
fn classify_line_exec(line: &Vec<char>) -> (r: Option<(u64, Vec<char>)>)
    ensures
        match r {
            Some((v, name)) => classify_line(line@) == Some((v, name@)),
            None => classify_line(line@) is None,
        },
{
    let body = crate::text::trim_start_exec(line);
    let mut tok: usize = 0;
    while tok < body.len() && is_count_char_exec(body[tok])
        invariant
            tok <= body@.len(),
            count_token_len(body@) >= tok,
            forall|j: int| 0 <= j < tok ==> is_count_char(body@[j]),
        decreases body@.len() - tok,
    {
        proof {
            lemma_count_token_step(body@, tok as int);
        }
        tok += 1;
    }
    proof {
        lemma_count_token_stop(body@, tok as int);
    }
    if tok == 0 {
        return None;
    }
    let c0 = body[0] as u32;
    if !(48 <= c0 && c0 <= 57) {
        return None;
    }
    let mut digits: Vec<char> = Vec::new();
    let mut i: usize = 0;
    proof {
        assert(body@.take(tok as int).take(0) =~= Seq::<char>::empty());
        assert(strip_commas(Seq::<char>::empty()) =~= Seq::<char>::empty());
        assert(digits@ =~= strip_commas(body@.take(tok as int).take(0)));
    }
    while i < tok
        invariant
            i <= tok <= body@.len(),
            digits@ =~= strip_commas(body@.take(tok as int).take(i as int)),
        decreases tok - i,
    {
        proof {
            lemma_strip_commas_snoc(body@.take(tok as int), i as int);
            assert(body@.take(tok as int).take(i + 1).drop_last() =~= body@.take(tok as int).take(
                i as int,
            ));
        }
        if body[i] != ',' {
            digits.push(body[i]);
        }
        proof {
            assert(body@.take(tok as int)[i as int] == body@[i as int]);
            assert(digits@ =~= strip_commas(body@.take(tok as int).take(i + 1)));
        }
        i += 1;
    }
    proof {
        assert(body@.take(tok as int).take(tok as int) =~= body@.take(tok as int));
    }
    proof {
        assert forall|q: int| 0 <= q < body@.take(tok as int).len() implies is_count_char(
            body@.take(tok as int)[q],
        ) by {
            assert(body@.take(tok as int)[q] == body@[q]);
        }
    }
    let value = match crate::num::parse_u64_chars(&digits) {
        Some(v) => v,
        None => {
            proof {
                lemma_strip_commas_digits(body@.take(tok as int));
                assert(crate::num::parse_body(digits@) == digits@);
            }
            return None;
        },
    };
    proof {
        lemma_strip_commas_digits(body@.take(tok as int));
        assert(crate::num::parse_body(digits@) == digits@);
        assert(digits@.len() >= 1) by {
            assert(body@.take(tok as int)[0] == body@[0]);
            lemma_strip_commas_keeps_digits(body@.take(tok as int));
        }
    }
    if tok == body.len() {
        return None;
    }
    if body[tok] != ' ' {
        proof {
            assert(body@.skip(tok as int)[0] == body@[tok as int]);
        }
        return None;
    }
    proof {
        assert(body@.skip(tok as int)[0] == body@[tok as int]);
        assert(body@.skip(tok as int).len() > 0);
    }
    let ghost after = body@.skip(tok as int);
    let mut rest_v: Vec<char> = Vec::new();
    let mut p: usize = tok;
    while p < body.len()
        invariant
            tok <= p <= body@.len(),
            rest_v@ =~= body@.subrange(tok as int, p as int),
        decreases body@.len() - p,
    {
        rest_v.push(body[p]);
        assert(rest_v@ =~= body@.subrange(tok as int, p + 1));
        p += 1;
    }
    proof {
        assert(rest_v@ =~= after);
    }
    let rest = crate::text::trim_start_exec(&rest_v);
    let name_part: Vec<char> = if rest.len() > 0 && rest[0] == '(' {
        let mut q: usize = 0;
        while q < rest.len() && rest[q] != ')'
            invariant
                q <= rest@.len(),
                rparen_pos(rest@) >= q,
            decreases rest@.len() - q,
        {
            proof {
                lemma_rparen_step(rest@, q as int);
            }
            q += 1;
        }
        proof {
            lemma_rparen_stop(rest@, q as int);
        }
        if q == rest.len() {
            return None;
        }
        let mut tail: Vec<char> = Vec::new();
        let mut w: usize = q + 1;
        while w < rest.len()
            invariant
                q + 1 <= w <= rest@.len(),
                tail@ =~= rest@.subrange(q + 1, w as int),
            decreases rest@.len() - w,
        {
            tail.push(rest[w]);
            assert(tail@ =~= rest@.subrange(q + 1, w + 1));
            w += 1;
        }
        proof {
            assert(tail@ =~= rest@.skip(q + 1));
        }
        crate::text::trim_start_exec(&tail)
    } else {
        rest
    };
    let name = crate::text::trim_end_exec(&name_part);
    if name.len() == 0 {
        return None;
    }
    Some((value, name))
}

/// Whether `c` is a digit or a grouping comma.
fn is_count_char_exec(c: char) -> (r: bool)
    ensures
        r == is_count_char(c),
{
    let v = c as u32;
    (48 <= v && v <= 57) || c == ','
}

proof fn lemma_count_token_step(s: Seq<char>, k: int)
    requires
        0 <= k < s.len(),
        count_token_len(s) >= k,
        is_count_char(s[k]),
    ensures
        count_token_len(s) >= k + 1,
    decreases k,
{
    if k > 0 {
        assert(is_count_char(s[0]));
        assert(s.drop_first()[k - 1] == s[k]);
        lemma_count_token_step(s.drop_first(), k - 1);
    }
}

proof fn lemma_count_token_stop(s: Seq<char>, k: int)
    requires
        0 <= k <= s.len(),
        count_token_len(s) >= k,
        k == s.len() || !is_count_char(s[k]),
    ensures
        count_token_len(s) == k,
    decreases k,
{
    if k == 0 {
        if s.len() > 0 && is_count_char(s[0]) {
            assert(false);
        }
    } else {
        assert(is_count_char(s[0]));
        if k < s.len() {
            assert(s.drop_first()[k - 1] == s[k]);
        }
        lemma_count_token_stop(s.drop_first(), k - 1);
    }
}

proof fn lemma_rparen_step(s: Seq<char>, k: int)
    requires
        0 <= k < s.len(),
        rparen_pos(s) >= k,
        s[k] != ')',
    ensures
        rparen_pos(s) >= k + 1,
    decreases k,
{
    if k > 0 {
        assert(s[0] != ')');
        assert(s.drop_first()[k - 1] == s[k]);
        lemma_rparen_step(s.drop_first(), k - 1);
    } else {
        assert(s[0] != ')');
    }
}

proof fn lemma_rparen_stop(s: Seq<char>, k: int)
    requires
        0 <= k <= s.len(),
        rparen_pos(s) >= k,
        k == s.len() || s[k] == ')',
    ensures
        rparen_pos(s) == k,
    decreases k,
{
    if k == 0 {
        if s.len() > 0 && s[0] != ')' {
            assert(rparen_pos(s) >= 1 ==> s[0] != ')');
        }
    } else {
        assert(s[0] != ')');
        if k < s.len() {
            assert(s.drop_first()[k - 1] == s[k]);
        }
        lemma_rparen_stop(s.drop_first(), k - 1);
    }
}

/// Removing commas appends element-wise: the strip of a longer prefix.
proof fn lemma_strip_commas_snoc(s: Seq<char>, k: int)
    requires
        0 <= k < s.len(),
    ensures
        strip_commas(s.take(k + 1)) == strip_commas(s.take(k)) + (if s[k] == ',' {
            Seq::<char>::empty()
        } else {
            seq![s[k]]
        }),
    decreases k,
{
    if k == 0 {
        assert(s.take(1) =~= seq![s[0]]);
        assert(s.take(0) =~= Seq::<char>::empty());
        assert(strip_commas(Seq::<char>::empty()) =~= Seq::<char>::empty());
        assert(seq![s[0]].drop_first() =~= Seq::<char>::empty());
        assert(strip_commas(seq![s[0]].drop_first()) =~= Seq::<char>::empty());
        if s[0] == ',' {
            assert(strip_commas(seq![s[0]]) =~= Seq::<char>::empty());
            assert(strip_commas(s.take(0)) + Seq::<char>::empty() =~= strip_commas(s.take(1)));
        } else {
            assert(strip_commas(seq![s[0]]) =~= seq![s[0]] + strip_commas(
                seq![s[0]].drop_first(),
            ));
            assert(strip_commas(seq![s[0]]) =~= seq![s[0]]);
            assert(strip_commas(s.take(0)) + seq![s[0]] =~= strip_commas(s.take(1)));
        }
    } else {
        assert(s.take(k + 1)[0] == s[0]);
        assert(s.take(k)[0] == s[0]);
        assert(s.take(k + 1).drop_first() =~= s.drop_first().take(k));
        assert(s.take(k).drop_first() =~= s.drop_first().take(k - 1));
        assert(s.drop_first()[k - 1] == s[k]);
        lemma_strip_commas_snoc(s.drop_first(), k - 1);
        if s[0] == ',' {
        } else {
            assert(seq![s[0]] + (strip_commas(s.drop_first().take(k - 1)) + (if s[k] == ',' {
                Seq::<char>::empty()
            } else {
                seq![s[k]]
            })) =~= (seq![s[0]] + strip_commas(s.drop_first().take(k - 1))) + (if s[k] == ',' {
                Seq::<char>::empty()
            } else {
                seq![s[k]]
            }));
        }
    }
}

/// A token of count characters strips to digits only.
proof fn lemma_strip_commas_digits(s: Seq<char>)
    requires
        forall|i: int| 0 <= i < s.len() ==> is_count_char(s[i]),
    ensures
        forall|i: int|
            0 <= i < strip_commas(s).len() ==> is_digit(#[trigger] strip_commas(s)[i]),
        strip_commas(s)[0] != '+' || strip_commas(s).len() == 0,
    decreases s.len(),
{
    if s.len() > 0 {
        assert(forall|i: int| 0 <= i < s.drop_first().len() ==> is_count_char(
            #[trigger] s.drop_first()[i],
        ));
        lemma_strip_commas_digits(s.drop_first());
        if s[0] != ',' {
            assert(forall|i: int|
                1 <= i < strip_commas(s).len() ==> strip_commas(s)[i] == strip_commas(
                    s.drop_first(),
                )[i - 1]);
            assert(is_digit(s[0]));
            assert('+' as u32 == 43);
        }
    }
}

/// A token that begins with a digit keeps at least that digit.
proof fn lemma_strip_commas_keeps_digits(s: Seq<char>)
    requires
        s.len() > 0,
        is_digit(s[0]),
    ensures
        strip_commas(s).len() >= 1,
{
    assert(s[0] != ',') by {
        assert(',' as u32 == 44);
    }
}

/// Parse one annotation report, given as its lines, into a run.
///
/// Every recognizable data line contributes its count to its symbol — a
/// symbol named on several lines has its counts summed — and the first
/// `PROGRAM TOTALS` line declares the run's total. Unrecognizable lines are
/// skipped, so a report with no data lines yields an empty run.
pub fn parse_annotation(lines: &Vec<String>, replacements: &Vec<StringReplacement>) -> (r: Run)
    ensures
        r@ == spec_parse_annotation(
            crate::csv_io::strings_view(lines@),
            repl_models(replacements@),
        ),
        r.wf(),
{
    let ghost linesm = crate::csv_io::strings_view(lines@);
    let ghost repl = repl_models(replacements@);
    let mut run = Run::new();
    let mut total: Option<u64> = None;
    let mut k: usize = 0;
    proof {
        assert(linesm.take(0) =~= Seq::<Seq<char>>::empty());
        assert(ann_fold(AnnState { syms: Seq::empty(), total: None }, linesm.take(0), repl)
            == AnnState { syms: Seq::empty(), total: None });
        assert(run@.symbols =~= Seq::<SymbolCountModel>::empty());
    }
    while k < lines.len()
        invariant
            linesm == crate::csv_io::strings_view(lines@),
            linesm.len() == lines@.len(),
            repl == repl_models(replacements@),
            k <= lines@.len(),
            ann_fold(AnnState { syms: Seq::empty(), total: None }, linesm.take(k as int), repl)
                == (AnnState { syms: run@.symbols, total: total }),
            run@.name == Seq::<char>::empty(),
            run.wf(),
        decreases lines@.len() - k,
    {
        let ghost st = ann_fold(
            AnnState { syms: Seq::empty(), total: None },
            linesm.take(k as int),
            repl,
        );
        proof {
            assert(linesm.take(k + 1).drop_last() =~= linesm.take(k as int));
            assert(linesm.take(k + 1).last() == linesm[k as int]);
            assert(linesm[k as int] == lines@[k as int]@);
        }
        let line_chars = crate::text::str_chars(lines[k].as_str());
        match classify_line_exec(&line_chars) {
            None => {},
            Some((v, name)) => {
                let totals_tag = crate::text::str_chars("PROGRAM TOTALS");
                if crate::text::chars_eq_chars(&name, &totals_tag) {
                    if total.is_none() {
                        total = Some(v);
                    }
                } else {
                    let ghost pre = run@.symbols;
                    let replaced = crate::csv_io::apply_replacements_vec(&name, replacements);
                    let replaced_str = crate::text::string_of_chars(&replaced);
                    run.add_ir(replaced_str.as_str(), v);
                    proof {
                        assert(run@.symbols == spec_add_ir(
                            pre,
                            apply_replacements(name@, repl),
                            v,
                        ));
                    }
                }
            },
        }
        k += 1;
    }
    proof {
        assert(linesm.take(k as int) =~= linesm);
    }
    run.total_ir = match total {
        Some(v) => v,
        None => 0,
    };
    run
}

} // verus!
