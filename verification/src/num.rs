//! Decimal text for counts, differences and percentages.
//!
//! Counts are written in plain base 10 and read back with the same
//! tolerant rule the CSV importer uses: a cell that is not a plain unsigned
//! decimal after trimming counts as zero.

use vstd::prelude::*;

use crate::text::{is_ascii_ws, trim_seq, trim_end_seq, ws_prefix_len};

verus! {

/// An ASCII decimal digit.
pub open spec fn is_digit(c: char) -> bool {
    48 <= c as u32 && c as u32 <= 57
}

/// The value of one decimal digit.
pub open spec fn digit_val(c: char) -> nat {
    (c as u32 - 48) as nat
}

/// The digit character for a value below ten.
pub open spec fn digit_char(d: nat) -> char {
    if d == 0 {
        '0'
    } else if d == 1 {
        '1'
    } else if d == 2 {
        '2'
    } else if d == 3 {
        '3'
    } else if d == 4 {
        '4'
    } else if d == 5 {
        '5'
    } else if d == 6 {
        '6'
    } else if d == 7 {
        '7'
    } else if d == 8 {
        '8'
    } else {
        '9'
    }
}

/// The digit character for a value below ten.
pub fn digit_char_exec(d: u8) -> (r: char)
    requires
        d < 10,
    ensures
        r == digit_char(d as nat),
{
    if d == 0 {
        '0'
    } else if d == 1 {
        '1'
    } else if d == 2 {
        '2'
    } else if d == 3 {
        '3'
    } else if d == 4 {
        '4'
    } else if d == 5 {
        '5'
    } else if d == 6 {
        '6'
    } else if d == 7 {
        '7'
    } else if d == 8 {
        '8'
    } else {
        '9'
    }
}

/// Every character of `s` is a decimal digit.
pub open spec fn all_digits(s: Seq<char>) -> bool {
    forall|i: int| 0 <= i < s.len() ==> is_digit(s[i])
}

/// The value of a digit string, most significant digit first.
pub open spec fn digits_val(s: Seq<char>) -> nat
    decreases s.len(),
{
    if s.len() == 0 {
        0
    } else {
        10 * digits_val(s.drop_last()) + digit_val(s.last())
    }
}

/// The decimal rendering of `n`, without sign or padding.
pub open spec fn dec_of(n: nat) -> Seq<char>
    decreases n,
{
    if n < 10 {
        seq![digit_char(n)]
    } else {
        dec_of(n / 10).push(digit_char(n % 10))
    }
}

/// `u64::from_str` on an already-trimmed string: an optional `'+'`, then at
/// least one digit, and a value that fits in `u64`.
pub open spec fn parse_u64_seq(s: Seq<char>) -> Option<u64> {
    if parse_body(s).len() > 0 && all_digits(parse_body(s)) && digits_val(parse_body(s))
        <= u64::MAX {
        Some(digits_val(parse_body(s)) as u64)
    } else {
        None
    }
}

/// How the CSV importer reads a count cell: trim it, parse it as `u64`, and
/// fall back to zero when that fails.
pub open spec fn parse_or_zero(s: Seq<char>) -> u64 {
    match parse_u64_seq(trim_seq(s)) {
        Some(v) => v,
        None => 0,
    }
}

/// Prefixes of a digit string never exceed its value.
proof fn lemma_digits_val_mono(s: Seq<char>, k: int)
    requires
        0 <= k <= s.len(),
    ensures
        digits_val(s.take(k)) <= digits_val(s),
    decreases s.len() - k,
{
    if k < s.len() {
        assert(s.take(k + 1).drop_last() =~= s.take(k));
        assert(s.take(k + 1).last() == s[k]);
        assert(digits_val(s.take(k + 1)) == 10 * digits_val(s.take(k)) + digit_val(s[k]));
        lemma_digits_val_mono(s, k + 1);
    } else {
        assert(s.take(k) =~= s);
    }
}

/// The digit-string part of `parse_u64_seq`'s view of `s`.
pub open spec fn parse_body(s: Seq<char>) -> Seq<char> {
    if s.len() > 0 && s[0] == '+' {
        s.drop_first()
    } else {
        s
    }
}

/// A non-digit anywhere in the body makes the parse fail.
proof fn lemma_parse_none_bad_digit(s: Seq<char>, k: int)
    requires
        0 <= k < parse_body(s).len(),
        !is_digit(parse_body(s)[k]),
    ensures
        parse_u64_seq(s) is None,
{
    assert(!all_digits(parse_body(s)));
}

/// A body whose prefix already exceeds `u64::MAX` makes the parse fail.
proof fn lemma_parse_none_overflow(s: Seq<char>, k: int)
    requires
        0 <= k <= parse_body(s).len(),
        digits_val(parse_body(s).take(k)) > u64::MAX,
    ensures
        parse_u64_seq(s) is None,
{
    lemma_digits_val_mono(parse_body(s), k);
}

/// Parses the characters of `v` as `u64::from_str` does.
#[verifier::rlimit(30)]
pub fn parse_u64_chars(v: &Vec<char>) -> (r: Option<u64>)
    ensures
        r == parse_u64_seq(v@),
{
    let start: usize = if v.len() > 0 && v[0] == '+' {
        1
    } else {
        0
    };
    let ghost body = parse_body(v@);
    proof {
        assert(body =~= v@.skip(start as int));
    }
    if v.len() == start {
        return None;
    }
    let mut val: u64 = 0;
    let mut i: usize = start;
    while i < v.len()
        invariant
            start <= i <= v@.len(),
            body == parse_body(v@),
            body == v@.skip(start as int),
            body.len() == v@.len() - start,
            all_digits(body.take(i - start as int)),
            val == digits_val(body.take(i - start as int)),
        decreases v@.len() - i,
    {
        let c = v[i] as u32;
        if !(48 <= c && c <= 57) {
            proof {
                assert(body[i - start as int] == v@[i as int]);
                lemma_parse_none_bad_digit(v@, i - start as int);
            }
            return None;
        }
        let d: u64 = (c - 48) as u64;
        proof {
            assert(body.take(i + 1 - start as int).drop_last() =~= body.take(i - start as int));
            assert(body.take(i + 1 - start as int).last() == body[i - start as int]);
            assert(body[i - start as int] == v@[i as int]);
            assert(digit_val(v@[i as int]) == d);
        }
        let next = match val.checked_mul(10) {
            Some(x) => x.checked_add(d),
            None => None,
        };
        match next {
            Some(x) => {
                val = x;
            },
            None => {
                proof {
                    assert(digits_val(body.take(i + 1 - start as int)) > u64::MAX);
                    lemma_parse_none_overflow(v@, i + 1 - start as int);
                }
                return None;
            },
        }
        i += 1;
    }
    proof {
        assert(body.take(i - start as int) =~= body);
    }
    Some(val)
}

/// The decimal digits of `n`, most significant first.
pub fn dec_chars_u128(n: u128) -> (r: Vec<char>)
    ensures
        r@ == dec_of(n as nat),
{
    let mut rev: Vec<char> = Vec::new();
    let mut m: u128 = n;
    while m >= 10
        invariant
            dec_of(n as nat) =~= dec_of(m as nat) + rev@.reverse(),
        decreases m,
    {
        let d = (m % 10) as u8;
        let ghost prev = rev@;
        rev.push(digit_char_exec(d));
        proof {
            assert(rev@.reverse() =~= seq![digit_char((m % 10) as nat)] + prev.reverse());
            assert(dec_of(m as nat) == dec_of((m as nat) / 10).push(digit_char((m as nat) % 10)));
            assert(dec_of((m as nat) / 10).push(digit_char((m as nat) % 10)) + prev.reverse()
                =~= dec_of((m as nat) / 10) + rev@.reverse());
        }
        m = m / 10;
    }
    let d = m as u8;
    let ghost prev = rev@;
    rev.push(digit_char_exec(d));
    proof {
        assert(rev@.reverse() =~= seq![digit_char(m as nat)] + prev.reverse());
        assert(dec_of(m as nat) =~= seq![digit_char(m as nat)]);
        assert(dec_of(n as nat) =~= rev@.reverse());
    }
    let mut out: Vec<char> = Vec::new();
    let mut i: usize = 0;
    while i < rev.len()
        invariant
            i <= rev@.len(),
            out@ =~= rev@.reverse().take(i as int),
        decreases rev@.len() - i,
    {
        out.push(rev[rev.len() - 1 - i]);
        assert(out@ =~= rev@.reverse().take(i + 1));
        i += 1;
    }
    proof {
        assert(out@ =~= rev@.reverse());
    }
    out
}

/// The decimal digits of a `u64` count.
pub fn dec_chars_u64(n: u64) -> (r: Vec<char>)
    ensures
        r@ == dec_of(n as nat),
{
    dec_chars_u128(n as u128)
}

/// The signed difference `ir - refv`, written in decimal.
pub open spec fn diff_str_seq(ir: u64, refv: u64) -> Seq<char> {
    if ir >= refv {
        dec_of((ir - refv) as nat)
    } else {
        seq!['-'] + dec_of((refv - ir) as nat)
    }
}

/// The magnitude of `(ir - refv) / refv * 100`, in thousandths of a percent,
/// rounded half away from zero. Meaningful only for `refv > 0`.
pub open spec fn pct_milli(ir: u64, refv: u64) -> nat {
    let d: nat = if ir >= refv {
        (ir - refv) as nat
    } else {
        (refv - ir) as nat
    };
    ((d * 100000 + refv / 2) / refv as int) as nat
}

/// The percentage magnitude in thousandths, with the zero-reference rule:
/// zero against zero is zero, anything else against zero is one hundred
/// percent.
pub open spec fn pct_value_milli(ir: u64, refv: u64) -> nat {
    if refv == 0 {
        if ir == 0 {
            0
        } else {
            100000
        }
    } else {
        pct_milli(ir, refv)
    }
}

/// A fraction below one thousand, zero-padded to three digits.
pub open spec fn pad3(f: nat) -> Seq<char> {
    if f < 10 {
        seq![digit_char(0), digit_char(0)] + dec_of(f)
    } else if f < 100 {
        seq![digit_char(0)] + dec_of(f)
    } else {
        dec_of(f)
    }
}

/// The percentage of change of `ir` against `refv`, to three decimal places,
/// with a leading minus sign when `ir` is below a nonzero `refv`.
pub open spec fn pct_str_seq(ir: u64, refv: u64) -> Seq<char> {
    let q = pct_value_milli(ir, refv);
    let sign: Seq<char> = if refv > 0 && ir < refv {
        seq!['-']
    } else {
        Seq::empty()
    };
    sign + dec_of(q / 1000) + seq!['.'] + pad3(q % 1000)
}

/// Renders the signed difference `ir - refv` in decimal.
pub fn diff_chars(ir: u64, refv: u64) -> (r: Vec<char>)
    ensures
        r@ == diff_str_seq(ir, refv),
{
    if ir >= refv {
        dec_chars_u64(ir - refv)
    } else {
        let mut out: Vec<char> = Vec::new();
        out.push('-');
        let digits = dec_chars_u64(refv - ir);
        let mut i: usize = 0;
        while i < digits.len()
            invariant
                i <= digits@.len(),
                out@ =~= seq!['-'] + digits@.take(i as int),
            decreases digits@.len() - i,
        {
            out.push(digits[i]);
            assert(out@ =~= seq!['-'] + digits@.take(i + 1));
            i += 1;
        }
        proof {
            assert(out@ =~= seq!['-'] + digits@);
        }
        out
    }
}

/// Appends `src` to `dst`.
pub fn append_chars(dst: &mut Vec<char>, src: &Vec<char>)
    ensures
        final(dst)@ == old(dst)@ + src@,
{
    let mut i: usize = 0;
    while i < src.len()
        invariant
            i <= src@.len(),
            dst@ =~= old(dst)@ + src@.take(i as int),
        decreases src@.len() - i,
    {
        dst.push(src[i]);
        assert(dst@ =~= old(dst)@ + src@.take(i + 1));
        i += 1;
    }
    proof {
        assert(dst@ =~= old(dst)@ + src@);
    }
}

/// Renders the percentage of change of `ir` against `refv` to three decimal
/// places.
pub fn pct_chars(ir: u64, refv: u64) -> (r: Vec<char>)
    ensures
        r@ == pct_str_seq(ir, refv),
{
    let q: u128 = if refv == 0 {
        if ir == 0 {
            0
        } else {
            100000
        }
    } else {
        let d: u64 = if ir >= refv {
            ir - refv
        } else {
            refv - ir
        };
        ((d as u128) * 100000 + (refv / 2) as u128) / (refv as u128)
    };
    assert(q == pct_value_milli(ir, refv));
    let mut out: Vec<char> = Vec::new();
    if refv > 0 && ir < refv {
        out.push('-');
    }
    let ghost sign = out@;
    let whole = dec_chars_u128(q / 1000);
    append_chars(&mut out, &whole);
    out.push('.');
    let ghost head = out@;
    proof {
        assert(head =~= sign + dec_of((q / 1000) as nat) + seq!['.']);
    }
    let f: u128 = q % 1000;
    if f < 10 {
        out.push('0');
        out.push('0');
    } else if f < 100 {
        out.push('0');
    }
    let ghost padded = out@;
    let frac = dec_chars_u128(f);
    append_chars(&mut out, &frac);
    proof {
        assert(digit_char(0) == '0');
        if f < 10 {
            assert(padded =~= head + seq![digit_char(0), digit_char(0)]);
            assert(out@ =~= head + (seq![digit_char(0), digit_char(0)] + dec_of(f as nat)));
        } else if f < 100 {
            assert(padded =~= head + seq![digit_char(0)]);
            assert(out@ =~= head + (seq![digit_char(0)] + dec_of(f as nat)));
        }
        assert(out@ =~= sign + dec_of((q / 1000) as nat) + seq!['.'] + pad3((q % 1000) as nat));
    }
    out
}

/// Decimal digits are not whitespace, not a sign, and carry their value.
proof fn lemma_digit_char_facts(d: nat)
    requires
        d < 10,
    ensures
        is_digit(digit_char(d)),
        digit_val(digit_char(d)) == d,
        !is_ascii_ws(digit_char(d)),
        digit_char(d) != '+',
{
    assert(digit_char(d) as u32 == 48 + d);
    assert(' ' as u32 == 32 && '\t' as u32 == 9 && '\n' as u32 == 10 && '\r' as u32 == 13);
    assert('+' as u32 == 43);
}

/// Every character a decimal rendering holds is a digit.
pub proof fn lemma_dec_of_digits(n: nat)
    ensures
        all_digits(dec_of(n)),
        dec_of(n).len() >= 1,
    decreases n,
{
    if n < 10 {
        lemma_digit_char_facts(n);
    } else {
        lemma_dec_of_digits(n / 10);
        lemma_digit_char_facts(n % 10);
        assert(forall|i: int| 0 <= i < dec_of(n).len() - 1 ==> dec_of(n)[i] == dec_of(n / 10)[i]);
    }
}

/// Reading back a decimal rendering gives the value that was written.
pub proof fn lemma_digits_val_dec_of(n: nat)
    ensures
        digits_val(dec_of(n)) == n,
    decreases n,
{
    if n < 10 {
        lemma_digit_char_facts(n);
        assert(dec_of(n).drop_last() =~= Seq::<char>::empty());
        assert(digits_val(dec_of(n).drop_last()) == 0);
        assert(digits_val(dec_of(n)) == 10 * digits_val(dec_of(n).drop_last()) + digit_val(
            dec_of(n).last(),
        ));
    } else {
        lemma_digits_val_dec_of(n / 10);
        lemma_digit_char_facts(n % 10);
        assert(dec_of(n).drop_last() =~= dec_of(n / 10));
    }
}

/// A string of digits is unchanged by trimming.
proof fn lemma_trim_digits(s: Seq<char>)
    requires
        all_digits(s),
        s.len() >= 1,
    ensures
        trim_seq(s) == s,
{
    lemma_digit_char_is_not_ws(s);
    assert(ws_prefix_len(s) == 0);
    assert(trim_end_seq(s) == s);
}

proof fn lemma_digit_char_is_not_ws(s: Seq<char>)
    requires
        all_digits(s),
    ensures
        forall|i: int| 0 <= i < s.len() ==> !is_ascii_ws(s[i]),
{
    assert forall|i: int| 0 <= i < s.len() implies !is_ascii_ws(s[i]) by {
        assert(is_digit(s[i]));
        assert(s[i] as u32 != 32 && s[i] as u32 != 9 && s[i] as u32 != 10 && s[i] as u32 != 13);
        assert(' ' as u32 == 32 && '\t' as u32 == 9 && '\n' as u32 == 10 && '\r' as u32 == 13);
    }
}

/// A count written by the exporter is read back unchanged by the importer's
/// tolerant cell rule.
pub proof fn lemma_count_round_trip(n: u64)
    ensures
        parse_or_zero(dec_of(n as nat)) == n,
{
    lemma_dec_of_digits(n as nat);
    lemma_digits_val_dec_of(n as nat);
    lemma_trim_digits(dec_of(n as nat));
    let s = dec_of(n as nat);
    assert(is_digit(s[0]));
    assert('+' as u32 == 43);
    assert(s[0] != '+');
}

} // verus!
