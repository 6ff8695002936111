//! Character-level text utilities shared by the parsers and the exporter.
//!
//! All executable functions here are specified against `Seq<char>` views, so
//! the parsing and rendering logic built on top of them can be stated exactly.

use vstd::prelude::*;

verus! {

/// Lower-cases an ASCII letter, given as its scalar value; leaves every other
/// character alone.
pub open spec fn lower_scalar(c: char) -> u32 {
    if 65 <= c as u32 && c as u32 <= 90 {
        (c as u32 + 32) as u32
    } else {
        c as u32
    }
}

/// Two character sequences are equal up to ASCII case.
pub open spec fn eq_ignore_ascii_case(a: Seq<char>, b: Seq<char>) -> bool {
    &&& a.len() == b.len()
    &&& forall|i: int| 0 <= i < a.len() ==> lower_scalar(a[i]) == lower_scalar(b[i])
}

/// The pattern `pat` occurs in `s` at position `i`.
pub open spec fn matches_at(s: Seq<char>, pat: Seq<char>, i: int) -> bool {
    &&& 0 <= i
    &&& i + pat.len() <= s.len()
    &&& s.subrange(i, i + pat.len() as int) == pat
}

/// The pattern `pat` occurs somewhere in `s`.
pub open spec fn contains_seq(s: Seq<char>, pat: Seq<char>) -> bool {
    exists|i: int| matches_at(s, pat, i)
}

/// `s` starts with `pat`.
pub open spec fn starts_with_seq(s: Seq<char>, pat: Seq<char>) -> bool {
    pat.len() <= s.len() && s.subrange(0, pat.len() as int) == pat
}

/// `s` with every non-overlapping occurrence of `from` replaced by `to`,
/// scanning left to right. An empty pattern replaces nothing.
pub open spec fn replace_seq(s: Seq<char>, from: Seq<char>, to: Seq<char>) -> Seq<char>
    decreases s.len(),
{
    if from.len() == 0 {
        s
    } else if s.len() < from.len() {
        s
    } else if s.subrange(0, from.len() as int) == from {
        to + replace_seq(s.skip(from.len() as int), from, to)
    } else {
        seq![s[0]] + replace_seq(s.drop_first(), from, to)
    }
}

/// ASCII whitespace, the characters trimming removes.
pub open spec fn is_ascii_ws(c: char) -> bool {
    c == ' ' || c == '\t' || c == '\n' || c == '\r'
}

/// Length of the longest prefix of `s` made of ASCII whitespace.
pub open spec fn ws_prefix_len(s: Seq<char>) -> nat
    decreases s.len(),
{
    if s.len() == 0 || !is_ascii_ws(s[0]) {
        0
    } else {
        1 + ws_prefix_len(s.drop_first())
    }
}

/// `s` without leading ASCII whitespace.
pub open spec fn trim_start_seq(s: Seq<char>) -> Seq<char> {
    s.skip(ws_prefix_len(s) as int)
}

/// `s` without trailing ASCII whitespace.
pub open spec fn trim_end_seq(s: Seq<char>) -> Seq<char>
    decreases s.len(),
{
    if s.len() == 0 || !is_ascii_ws(s.last()) {
        s
    } else {
        trim_end_seq(s.drop_last())
    }
}

/// `s` without leading and trailing ASCII whitespace.
pub open spec fn trim_seq(s: Seq<char>) -> Seq<char> {
    trim_end_seq(trim_start_seq(s))
}

/// Index of the first `'\n'` in `s`, or `s.len()` if there is none.
pub open spec fn line_break_pos(s: Seq<char>) -> nat
    decreases s.len(),
{
    if s.len() == 0 {
        0
    } else if s[0] == '\n' {
        0
    } else {
        1 + line_break_pos(s.drop_first())
    }
}

/// `s` without a trailing `'\r'`, if it has one.
pub open spec fn strip_cr(s: Seq<char>) -> Seq<char> {
    if s.len() > 0 && s.last() == '\r' {
        s.drop_last()
    } else {
        s
    }
}

/// The first line break is within the text.
pub proof fn lemma_line_break_pos_le(s: Seq<char>)
    ensures
        line_break_pos(s) <= s.len(),
        line_break_pos(s) < s.len() ==> s[line_break_pos(s) as int] == '\n',
    decreases s.len(),
{
    if s.len() > 0 && s[0] != '\n' {
        lemma_line_break_pos_le(s.drop_first());
    }
}

/// The lines of `s`: split at `'\n'`, a trailing `'\r'` removed from each
/// line, with no final empty line when `s` ends in `'\n'`.
pub open spec fn split_lines_seq(s: Seq<char>) -> Seq<Seq<char>>
    decreases s.len(),
    when true
    via split_lines_seq_decreases
{
    if s.len() == 0 {
        Seq::empty()
    } else {
        let n = line_break_pos(s) as int;
        if n == s.len() {
            seq![strip_cr(s)]
        } else {
            seq![strip_cr(s.take(n))] + split_lines_seq(s.skip(n + 1))
        }
    }
}

#[via_fn]
proof fn split_lines_seq_decreases(s: Seq<char>) {
    lemma_line_break_pos_le(s);
}

/// The characters of `s`, in order.
pub fn str_chars(s: &str) -> (r: Vec<char>)
    ensures
        r@ == s@,
{
    let n = s.unicode_len();
    let mut r: Vec<char> = Vec::new();
    let mut i: usize = 0;
    while i < n
        invariant
            n == s@.len(),
            i <= n,
            r@ == s@.take(i as int),
        decreases n - i,
    {
        r.push(s.get_char(i));
        assert(r@ =~= s@.take(i + 1));
        i += 1;
    }
    assert(r@ =~= s@);
    r
}

/// Relies on `String::from_iter` over `char`: the collected string holds
/// exactly the characters of `v`, in order.
#[verifier::external_body]
pub fn string_of_chars(v: &Vec<char>) -> (r: String)
    ensures
        r@ == v@,
{
    v.iter().collect()
}

/// Lower-cases one ASCII letter, as `lower_scalar` describes.
pub fn lower_scalar_exec(c: char) -> (r: u32)
    ensures
        r == lower_scalar(c),
{
    let v = c as u32;
    if 65 <= v && v <= 90 {
        v + 32
    } else {
        v
    }
}

/// Case-insensitive (ASCII) comparison of two character vectors.
pub fn eq_ignore_case_exec(a: &Vec<char>, b: &Vec<char>) -> (r: bool)
    ensures
        r == eq_ignore_ascii_case(a@, b@),
{
    if a.len() != b.len() {
        return false;
    }
    let mut i: usize = 0;
    while i < a.len()
        invariant
            a@.len() == b@.len(),
            i <= a@.len(),
            forall|j: int| 0 <= j < i ==> lower_scalar(a@[j]) == lower_scalar(b@[j]),
        decreases a@.len() - i,
    {
        if lower_scalar_exec(a[i]) != lower_scalar_exec(b[i]) {
            return false;
        }
        i += 1;
    }
    true
}

/// Whether `pat` occurs in `s` at position `i`.
pub fn matches_at_exec(s: &Vec<char>, pat: &Vec<char>, i: usize) -> (r: bool)
    requires
        i + pat@.len() <= s@.len(),
    ensures
        r == matches_at(s@, pat@, i as int),
{
    let slen = s.len();
    let mut j: usize = 0;
    while j < pat.len()
        invariant
            slen == s@.len(),
            i + pat@.len() <= s@.len(),
            j <= pat@.len(),
            forall|k: int| 0 <= k < j ==> s@[i + k] == pat@[k],
        decreases pat@.len() - j,
    {
        if s[i + j] != pat[j] {
            assert(s@.subrange(i as int, i + pat@.len() as int)[j as int] != pat@[j as int]);
            return false;
        }
        j += 1;
    }
    assert(s@.subrange(i as int, i + pat@.len() as int) =~= pat@);
    true
}

/// Position of the first occurrence of `pat` in `s`, if any.
pub fn find_exec(s: &Vec<char>, pat: &Vec<char>) -> (r: Option<usize>)
    ensures
        match r {
            Some(i) => matches_at(s@, pat@, i as int) && forall|j: int|
                0 <= j < i ==> !matches_at(s@, pat@, j),
            None => !contains_seq(s@, pat@),
        },
{
    if pat.len() > s.len() {
        return None;
    }
    if pat.len() == 0 {
        assert(s@.subrange(0, 0) =~= pat@);
        return Some(0);
    }
    let mut i: usize = 0;
    while i <= s.len() - pat.len()
        invariant
            0 < pat@.len() <= s@.len(),
            i <= s@.len() - pat@.len() + 1,
            forall|j: int| 0 <= j < i ==> !matches_at(s@, pat@, j),
        decreases s@.len() - pat@.len() - i + 1,
    {
        if matches_at_exec(s, pat, i) {
            return Some(i);
        }
        i += 1;
    }
    assert(forall|j: int| matches_at(s@, pat@, j) ==> 0 <= j <= s@.len() - pat@.len());
    None
}

/// Whether `pat` occurs anywhere in `s`.
pub fn contains_exec(s: &Vec<char>, pat: &Vec<char>) -> (r: bool)
    ensures
        r == contains_seq(s@, pat@),
{
    find_exec(s, pat).is_some()
}

/// Whether `s` starts with `pat`.
pub fn starts_with_exec(s: &Vec<char>, pat: &Vec<char>) -> (r: bool)
    ensures
        r == starts_with_seq(s@, pat@),
{
    if pat.len() > s.len() {
        return false;
    }
    matches_at_exec(s, pat, 0)
}

/// Every non-overlapping occurrence of `from` in `s` replaced by `to`,
/// scanning left to right; an empty `from` replaces nothing.
pub fn replace_exec(s: &Vec<char>, from: &Vec<char>, to: &Vec<char>) -> (r: Vec<char>)
    ensures
        r@ == replace_seq(s@, from@, to@),
{
    if from.len() == 0 {
        return s.clone();
    }
    let mut out: Vec<char> = Vec::new();
    let mut i: usize = 0;
    proof {
        assert(s@.skip(0) =~= s@);
        assert(Seq::<char>::empty() + replace_seq(s@, from@, to@) =~= replace_seq(
            s@,
            from@,
            to@,
        ));
    }
    while i < s.len()
        invariant
            from@.len() > 0,
            i <= s@.len(),
            replace_seq(s@, from@, to@) == out@ + replace_seq(s@.skip(i as int), from@, to@),
        decreases s@.len() - i,
    {
        let ghost pre = out@;
        let ghost rest = s@.skip(i as int);
        if from.len() <= s.len() - i && matches_at_exec(s, from, i) {
            proof {
                assert(rest.subrange(0, from@.len() as int) =~= s@.subrange(
                    i as int,
                    i + from@.len() as int,
                ));
                assert(rest.skip(from@.len() as int) =~= s@.skip(i + from@.len() as int));
                assert(replace_seq(rest, from@, to@) == to@ + replace_seq(
                    s@.skip(i + from@.len() as int),
                    from@,
                    to@,
                ));
            }
            let mut k: usize = 0;
            while k < to.len()
                invariant
                    k <= to@.len(),
                    out@ == pre + to@.take(k as int),
                decreases to@.len() - k,
            {
                out.push(to[k]);
                assert(out@ =~= pre + to@.take(k + 1));
                k += 1;
            }
            assert(out@ =~= pre + to@);
            proof {
                assert((pre + to@) + replace_seq(s@.skip(i + from@.len() as int), from@, to@) =~= pre
                    + (to@ + replace_seq(s@.skip(i + from@.len() as int), from@, to@)));
            }
            i += from.len();
        } else {
            proof {
                if i + from@.len() <= s@.len() {
                    assert(rest.subrange(0, from@.len() as int) =~= s@.subrange(
                        i as int,
                        i + from@.len() as int,
                    ));
                    assert(rest.subrange(0, from@.len() as int) != from@);
                } else {
                    assert(rest.len() < from@.len());
                }
                assert(rest.drop_first() =~= s@.skip(i + 1));
                assert(replace_seq(rest, from@, to@) == seq![s@[i as int]] + replace_seq(
                    s@.skip(i + 1),
                    from@,
                    to@,
                ));
            }
            out.push(s[i]);
            proof {
                assert(out@ =~= pre + seq![s@[i as int]]);
                assert((pre + seq![s@[i as int]]) + replace_seq(s@.skip(i + 1), from@, to@) =~= pre
                    + (seq![s@[i as int]] + replace_seq(s@.skip(i + 1), from@, to@)));
            }
            i += 1;
        }
    }
    proof {
        assert(s@.skip(i as int) =~= Seq::<char>::empty());
        assert(replace_seq(Seq::<char>::empty(), from@, to@) =~= Seq::<char>::empty());
        assert(out@ + Seq::<char>::empty() =~= out@);
    }
    out
}

/// `v` without leading and trailing ASCII whitespace.
pub fn trim_exec(v: &Vec<char>) -> (r: Vec<char>)
    ensures
        r@ == trim_seq(v@),
{
    let mut lo: usize = 0;
    while lo < v.len() && is_ascii_ws_exec(v[lo])
        invariant
            lo <= v@.len(),
            ws_prefix_len(v@) >= lo,
        decreases v@.len() - lo,
    {
        proof {
            lemma_ws_prefix_step(v@, lo as int);
        }
        lo += 1;
    }
    proof {
        lemma_ws_prefix_stop(v@, lo as int);
    }
    let mut hi: usize = v.len();
    proof {
        assert(v@.skip(lo as int).take(hi as int - lo as int) =~= v@.skip(lo as int));
    }
    while hi > lo && is_ascii_ws_exec(v[hi - 1])
        invariant
            lo <= hi <= v@.len(),
            trim_end_seq(v@.skip(lo as int)) == trim_end_seq(
                v@.skip(lo as int).take(hi as int - lo as int),
            ),
        decreases hi,
    {
        proof {
            let cur = v@.skip(lo as int).take(hi as int - lo as int);
            assert(cur.last() == v@[hi as int - 1]);
            assert(cur.drop_last() =~= v@.skip(lo as int).take(hi as int - 1 - lo as int));
        }
        hi -= 1;
    }
    proof {
        let cur = v@.skip(lo as int).take(hi as int - lo as int);
        if hi > lo {
            assert(cur.last() == v@[hi as int - 1]);
        }
        assert(trim_end_seq(cur) == cur);
    }
    let mut r: Vec<char> = Vec::new();
    let mut i: usize = lo;
    while i < hi
        invariant
            lo <= i <= hi <= v@.len(),
            r@ =~= v@.subrange(lo as int, i as int),
        decreases hi - i,
    {
        r.push(v[i]);
        assert(r@ =~= v@.subrange(lo as int, i + 1));
        i += 1;
    }
    proof {
        assert(v@.subrange(lo as int, hi as int) =~= v@.skip(lo as int).take(
            hi as int - lo as int,
        ));
    }
    r
}

proof fn lemma_ws_prefix_step(s: Seq<char>, k: int)
    requires
        0 <= k < s.len(),
        ws_prefix_len(s) >= k,
        is_ascii_ws(s[k]),
    ensures
        ws_prefix_len(s) >= k + 1,
    decreases k,
{
    if k == 0 {
        assert(is_ascii_ws(s[0]));
    } else {
        assert(is_ascii_ws(s[0]));
        assert(s.drop_first()[k - 1] == s[k]);
        lemma_ws_prefix_step(s.drop_first(), k - 1);
    }
}

proof fn lemma_ws_prefix_stop(s: Seq<char>, k: int)
    requires
        0 <= k <= s.len(),
        ws_prefix_len(s) >= k,
        k == s.len() || !is_ascii_ws(s[k]),
    ensures
        ws_prefix_len(s) == k,
    decreases k,
{
    if k == 0 {
        if s.len() > 0 && is_ascii_ws(s[0]) {
            assert(false);
        }
    } else {
        assert(is_ascii_ws(s[0]));
        if k < s.len() {
            assert(s.drop_first()[k - 1] == s[k]);
        }
        lemma_ws_prefix_stop(s.drop_first(), k - 1);
    }
}

/// Whether `c` is ASCII whitespace.
pub fn is_ascii_ws_exec(c: char) -> (r: bool)
    ensures
        r == is_ascii_ws(c),
{
    c == ' ' || c == '\t' || c == '\n' || c == '\r'
}

/// Character-wise equality of a vector and a string slice.
pub fn chars_eq_str(a: &Vec<char>, b: &str) -> (r: bool)
    ensures
        r == (a@ == b@),
{
    let n = b.unicode_len();
    if a.len() != n {
        return false;
    }
    let mut i: usize = 0;
    while i < n
        invariant
            a@.len() == n == b@.len(),
            i <= n,
            forall|j: int| 0 <= j < i ==> a@[j] == b@[j],
        decreases n - i,
    {
        if a[i] != b.get_char(i) {
            return false;
        }
        i += 1;
    }
    proof {
        assert(a@ =~= b@);
    }
    true
}

/// Lexicographic order on character sequences, by scalar value. Agrees with
/// the byte order of the UTF-8 encodings, since UTF-8 preserves scalar order.
pub open spec fn lex_le(a: Seq<char>, b: Seq<char>) -> bool
    decreases a.len(),
{
    if a.len() == 0 {
        true
    } else if b.len() == 0 {
        false
    } else if (a[0] as u32) < (b[0] as u32) {
        true
    } else if (a[0] as u32) > (b[0] as u32) {
        false
    } else {
        lex_le(a.drop_first(), b.drop_first())
    }
}

/// Any two character sequences are ordered one way or the other.
pub proof fn lemma_lex_le_total(a: Seq<char>, b: Seq<char>)
    ensures
        lex_le(a, b) || lex_le(b, a),
    decreases a.len(),
{
    if a.len() > 0 && b.len() > 0 && a[0] as u32 == b[0] as u32 {
        lemma_lex_le_total(a.drop_first(), b.drop_first());
    }
}

/// Lexicographic order is transitive.
pub proof fn lemma_lex_le_trans(a: Seq<char>, b: Seq<char>, c: Seq<char>)
    requires
        lex_le(a, b),
        lex_le(b, c),
    ensures
        lex_le(a, c),
    decreases a.len(),
{
    if a.len() > 0 && b.len() > 0 && c.len() > 0 && a[0] as u32 == b[0] as u32 && b[0] as u32
        == c[0] as u32 {
        lemma_lex_le_trans(a.drop_first(), b.drop_first(), c.drop_first());
    }
}

/// Whether `a` sorts at or before `b` lexicographically.
pub fn lex_le_exec(a: &str, b: &str) -> (r: bool)
    ensures
        r == lex_le(a@, b@),
{
    let an = a.unicode_len();
    let bn = b.unicode_len();
    let mut i: usize = 0;
    proof {
        assert(a@.skip(0) =~= a@);
        assert(b@.skip(0) =~= b@);
    }
    while i < an && i < bn
        invariant
            an == a@.len(),
            bn == b@.len(),
            i <= an,
            i <= bn,
            lex_le(a@, b@) == lex_le(a@.skip(i as int), b@.skip(i as int)),
        decreases an - i,
    {
        let ca = a.get_char(i) as u32;
        let cb = b.get_char(i) as u32;
        proof {
            let sa = a@.skip(i as int);
            let sb = b@.skip(i as int);
            assert(sa[0] == a@[i as int] && sb[0] == b@[i as int]);
        }
        if ca < cb {
            return true;
        }
        if ca > cb {
            return false;
        }
        proof {
            assert(a@.skip(i as int).drop_first() =~= a@.skip(i + 1));
            assert(b@.skip(i as int).drop_first() =~= b@.skip(i + 1));
        }
        i += 1;
    }
    proof {
        if i >= an {
            assert(a@.skip(i as int).len() == 0);
        } else {
            assert(b@.skip(i as int).len() == 0);
            assert(a@.skip(i as int).len() > 0);
        }
    }
    i >= an
}

/// Scanning forward over non-break characters raises the break position.
proof fn lemma_lbp_step(s: Seq<char>, k: int)
    requires
        0 <= k < s.len(),
        line_break_pos(s) >= k,
        s[k] != '\n',
    ensures
        line_break_pos(s) >= k + 1,
    decreases k,
{
    if k == 0 {
        assert(s[0] != '\n');
    } else {
        assert(s[0] != '\n');
        assert(s.drop_first()[k - 1] == s[k]);
        lemma_lbp_step(s.drop_first(), k - 1);
    }
}

/// The scan stops exactly at the break position.
proof fn lemma_lbp_stop(s: Seq<char>, k: int)
    requires
        0 <= k <= s.len(),
        line_break_pos(s) >= k,
        k == s.len() || s[k] == '\n',
    ensures
        line_break_pos(s) == k,
    decreases k,
{
    if k == 0 {
        if s.len() > 0 && s[0] != '\n' {
            assert(line_break_pos(s) >= 1 ==> s[0] != '\n');
        }
    } else {
        assert(s[0] != '\n');
        if k < s.len() {
            assert(s.drop_first()[k - 1] == s[k]);
        }
        lemma_lbp_stop(s.drop_first(), k - 1);
    }
}

/// The lines of `v`, as `split_lines_seq` describes them.
pub fn split_lines_exec(v: &Vec<char>) -> (r: Vec<Vec<char>>)
    ensures
        r.deep_view() == split_lines_seq(v@),
{
    let mut out: Vec<Vec<char>> = Vec::new();
    let mut i: usize = 0;
    proof {
        assert(v@.skip(0) =~= v@);
        assert(out.deep_view() + split_lines_seq(v@) =~~= split_lines_seq(v@));
    }
    while i < v.len()
        invariant
            i <= v@.len(),
            out.deep_view() + split_lines_seq(v@.skip(i as int)) =~~= split_lines_seq(v@),
        decreases v@.len() - i,
    {
        let ghost rest = v@.skip(i as int);
        let mut b: usize = i;
        while b < v.len() && v[b] != '\n'
            invariant
                i <= b <= v@.len(),
                rest == v@.skip(i as int),
                line_break_pos(rest) >= b - i,
            decreases v@.len() - b,
        {
            proof {
                assert(rest[b - i] == v@[b as int]);
                lemma_lbp_step(rest, b - i);
            }
            b += 1;
        }
        proof {
            if b < v@.len() {
                assert(rest[b - i] == v@[b as int]);
            }
            lemma_lbp_stop(rest, b - i);
        }
        let mut line: Vec<char> = Vec::new();
        let mut j: usize = i;
        let hi: usize = if b > i && v[b - 1] == '\r' {
            b - 1
        } else {
            b
        };
        proof {
            if b > i {
                assert(rest.take(b - i as int).last() == v@[b - 1]);
            }
            if b - i < rest.len() {
                assert(strip_cr(rest.take(b - i as int)) =~= v@.subrange(i as int, hi as int));
                assert(rest.take(b - i as int) =~= v@.subrange(i as int, b as int));
            } else {
                assert(rest.take(b - i as int) =~= rest);
                assert(strip_cr(rest) =~= v@.subrange(i as int, hi as int));
            }
        }
        while j < hi
            invariant
                i <= j <= hi <= v@.len(),
                line@ =~= v@.subrange(i as int, j as int),
            decreases hi - j,
        {
            line.push(v[j]);
            assert(line@ =~= v@.subrange(i as int, j + 1));
            j += 1;
        }
        let ghost pre = out.deep_view();
        out.push(line);
        proof {
            assert(line@ =~= v@.subrange(i as int, hi as int));
            assert(out.deep_view() =~~= pre.push(v@.subrange(i as int, hi as int)));
            if b == v@.len() {
                assert(line_break_pos(rest) == rest.len());
                assert(split_lines_seq(rest) == seq![strip_cr(rest)]);
                assert(v@.skip(v@.len() as int) =~= Seq::<char>::empty());
                assert(split_lines_seq(Seq::<char>::empty()) =~= Seq::<Seq<char>>::empty());
                assert((pre + seq![strip_cr(rest)]) + Seq::<Seq<char>>::empty() =~~= pre + seq![
                    strip_cr(rest),
                ]);
            } else {
                assert(line_break_pos(rest) == b - i < rest.len());
                assert(split_lines_seq(rest) == seq![strip_cr(rest.take(b - i as int))]
                    + split_lines_seq(rest.skip(b - i + 1)));
                assert(rest.skip(b - i + 1) =~= v@.skip(b + 1));
                assert((pre + seq![strip_cr(rest.take(b - i as int))]) + split_lines_seq(
                    v@.skip(b + 1),
                ) =~~= pre + (seq![strip_cr(rest.take(b - i as int))] + split_lines_seq(
                    v@.skip(b + 1),
                )));
            }
        }
        if b == v.len() {
            i = v.len();
        } else {
            i = b + 1;
        }
    }
    proof {
        assert(v@.skip(i as int) =~= Seq::<char>::empty());
        assert(split_lines_seq(Seq::<char>::empty()) =~= Seq::<Seq<char>>::empty());
        assert(out.deep_view() + Seq::<Seq<char>>::empty() =~~= out.deep_view());
    }
    out
}

/// `v` without leading ASCII whitespace.
pub fn trim_start_exec(v: &Vec<char>) -> (r: Vec<char>)
    ensures
        r@ == trim_start_seq(v@),
{
    let mut lo: usize = 0;
    while lo < v.len() && is_ascii_ws_exec(v[lo])
        invariant
            lo <= v@.len(),
            ws_prefix_len(v@) >= lo,
        decreases v@.len() - lo,
    {
        proof {
            lemma_ws_prefix_step(v@, lo as int);
        }
        lo += 1;
    }
    proof {
        lemma_ws_prefix_stop(v@, lo as int);
    }
    let mut r: Vec<char> = Vec::new();
    let mut i: usize = lo;
    while i < v.len()
        invariant
            lo <= i <= v@.len(),
            r@ =~= v@.subrange(lo as int, i as int),
        decreases v@.len() - i,
    {
        r.push(v[i]);
        assert(r@ =~= v@.subrange(lo as int, i + 1));
        i += 1;
    }
    proof {
        assert(v@.subrange(lo as int, v@.len() as int) =~= v@.skip(lo as int));
    }
    r
}

/// `v` without trailing ASCII whitespace.
pub fn trim_end_exec(v: &Vec<char>) -> (r: Vec<char>)
    ensures
        r@ == trim_end_seq(v@),
{
    let mut hi: usize = v.len();
    proof {
        assert(v@.take(hi as int) =~= v@);
    }
    while hi > 0 && is_ascii_ws_exec(v[hi - 1])
        invariant
            hi <= v@.len(),
            trim_end_seq(v@) == trim_end_seq(v@.take(hi as int)),
        decreases hi,
    {
        proof {
            let cur = v@.take(hi as int);
            assert(cur.last() == v@[hi as int - 1]);
            assert(cur.drop_last() =~= v@.take(hi as int - 1));
        }
        hi -= 1;
    }
    proof {
        let cur = v@.take(hi as int);
        if hi > 0 {
            assert(cur.last() == v@[hi as int - 1]);
        }
        assert(trim_end_seq(cur) == cur);
    }
    let mut r: Vec<char> = Vec::new();
    let mut i: usize = 0;
    while i < hi
        invariant
            i <= hi <= v@.len(),
            r@ =~= v@.subrange(0, i as int),
        decreases hi - i,
    {
        r.push(v[i]);
        assert(r@ =~= v@.subrange(0, i + 1));
        i += 1;
    }
    proof {
        assert(v@.subrange(0, hi as int) =~= v@.take(hi as int));
    }
    r
}

/// Character-wise equality of two vectors.
pub fn chars_eq_chars(a: &Vec<char>, b: &Vec<char>) -> (r: bool)
    ensures
        r == (a@ == b@),
{
    if a.len() != b.len() {
        return false;
    }
    let mut i: usize = 0;
    while i < a.len()
        invariant
            a@.len() == b@.len(),
            i <= a@.len(),
            forall|j: int| 0 <= j < i ==> a@[j] == b@[j],
        decreases a@.len() - i,
    {
        if a[i] != b[i] {
            return false;
        }
        i += 1;
    }
    proof {
        assert(a@ =~= b@);
    }
    true
}

/// Index of the first occurrence of `c` in `s`, or `s.len()` if there is
/// none.
pub open spec fn first_pos(s: Seq<char>, c: char) -> nat
    decreases s.len(),
{
    if s.len() == 0 {
        0
    } else if s[0] == c {
        0
    } else {
        1 + first_pos(s.drop_first(), c)
    }
}

/// Scanning forward over other characters raises the first position.
pub proof fn lemma_first_pos_step(s: Seq<char>, c: char, k: int)
    requires
        0 <= k < s.len(),
        first_pos(s, c) >= k,
        s[k] != c,
    ensures
        first_pos(s, c) >= k + 1,
    decreases k,
{
    if k > 0 {
        assert(s[0] != c);
        assert(s.drop_first()[k - 1] == s[k]);
        lemma_first_pos_step(s.drop_first(), c, k - 1);
    } else {
        assert(s[0] != c);
    }
}

/// The scan stops exactly at the first position.
pub proof fn lemma_first_pos_stop(s: Seq<char>, c: char, k: int)
    requires
        0 <= k <= s.len(),
        first_pos(s, c) >= k,
        k == s.len() || s[k] == c,
    ensures
        first_pos(s, c) == k,
    decreases k,
{
    if k == 0 {
        if s.len() > 0 && s[0] != c {
            assert(first_pos(s, c) >= 1 ==> s[0] != c);
        }
    } else {
        assert(s[0] != c);
        if k < s.len() {
            assert(s.drop_first()[k - 1] == s[k]);
        }
        lemma_first_pos_stop(s.drop_first(), c, k - 1);
    }
}

/// The first position of `c` in `v`, or the length if `c` does not occur.
pub fn first_pos_exec(v: &Vec<char>, c: char) -> (r: usize)
    ensures
        r == first_pos(v@, c),
        r <= v@.len(),
{
    let mut i: usize = 0;
    while i < v.len() && v[i] != c
        invariant
            i <= v@.len(),
            first_pos(v@, c) >= i,
        decreases v@.len() - i,
    {
        proof {
            lemma_first_pos_step(v@, c, i as int);
        }
        i += 1;
    }
    proof {
        lemma_first_pos_stop(v@, c, i as int);
    }
    i
}

/// A copy of `v[lo..hi]`.
pub fn subrange_exec(v: &Vec<char>, lo: usize, hi: usize) -> (r: Vec<char>)
    requires
        lo <= hi <= v@.len(),
    ensures
        r@ == v@.subrange(lo as int, hi as int),
{
    let mut r: Vec<char> = Vec::new();
    let mut i: usize = lo;
    while i < hi
        invariant
            lo <= i <= hi <= v@.len(),
            r@ =~= v@.subrange(lo as int, i as int),
        decreases hi - i,
    {
        r.push(v[i]);
        assert(r@ =~= v@.subrange(lo as int, i + 1));
        i += 1;
    }
    r
}

} // verus!
