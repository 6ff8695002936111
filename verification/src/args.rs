//! Configuration types: sort selection, reference-column policy, display
//! choices, symbol-name rewrites, and the validated argument set.

use vstd::prelude::*;

use crate::text::{
    eq_ignore_ascii_case, eq_ignore_case_exec, replace_exec, replace_seq, starts_with_exec,
    starts_with_seq, str_chars, string_of_chars,
};
use crate::Error;

verus! {

/// The field on which to sort the output.
#[derive(Debug, Clone, Copy, PartialEq, Eq, Structural)]
pub enum SortByField {
    /// Sort by the name of the symbol in lexicographic order.
    Symbol,
    /// Sort by the instruction count of the first column.
    FirstIR,
    /// Sort by the instruction count of the last column.
    LastIR,
    /// Sort by the instruction count of the given column (0-indexed).
    ColumnIR(u32),
}

/// The order in which to sort.
#[derive(Debug, Clone, Copy, PartialEq, Eq, Structural)]
pub enum SortByOrder {
    /// Ascending order: lowest value at the top.
    Ascending,
    /// Descending order: lowest value at the bottom.
    Descending,
}

/// How to sort the output. The default is by ascending symbol name.
#[derive(Debug, Clone, Copy, PartialEq, Eq, Structural)]
pub struct SortBy {
    /// The field on which to sort.
    pub field: SortByField,
    /// The order in which to sort.
    pub order: SortByOrder,
}

impl Default for SortBy {
    /// The default sort: ascending symbol name.
    fn default() -> (r: Self)
        ensures
            r == (SortBy { field: SortByField::Symbol, order: SortByOrder::Ascending }),
    {
        SortBy { field: SortByField::Symbol, order: SortByOrder::Ascending }
    }
}

/// Which column the other columns are compared to.
#[derive(Debug, Clone, Copy, PartialEq, Eq, Structural)]
pub enum RelativeTo {
    /// Every column is compared to the first column.
    First,
    /// Every column is compared to the last column.
    Last,
    /// Every column is compared to the column preceding it.
    Previous,
    /// Every column is compared to the n-th column (0-indexed).
    Column(u32),
}

impl Default for RelativeTo {
    /// The default comparison basis: the first column.
    fn default() -> (r: Self)
        ensures
            r == RelativeTo::First,
    {
        RelativeTo::First
    }
}

/// What to show for each data column.
#[derive(Debug, Clone, Copy, PartialEq, Eq, Structural)]
pub enum Show {
    /// Count difference, percentage and count.
    All,
    /// The instruction count.
    IRCount,
    /// The percentage of increase or decrease against the reference column.
    PercentageDiff,
    /// The count difference against the reference column.
    IRCountDiff,
}

impl Default for Show {
    /// The default display: everything.
    fn default() -> (r: Self)
        ensures
            r == Show::All,
    {
        Show::All
    }
}

/// Whether to color the output.
#[derive(Debug, Clone, Copy, PartialEq, Eq, Structural)]
pub enum Color {
    /// Always color the output.
    Always,
    /// Color only when the output is a terminal.
    Default,
    /// Never color.
    Never,
}

impl Default for Color {
    /// The default coloring: only on a terminal.
    fn default() -> (r: Self)
        ensures
            r == Color::Default,
    {
        Color::Default
    }
}

impl Color {
    /// Whether output should be colored, given whether standard output is a
    /// terminal; the caller supplies that observation.
    pub fn should_color_when(self, stdout_is_terminal: bool) -> (r: bool)
        ensures
            r == match self {
                Color::Always => true,
                Color::Default => stdout_is_terminal,
                Color::Never => false,
            },
    {
        match self {
            Color::Always => true,
            Color::Default => stdout_is_terminal,
            Color::Never => false,
        }
    }
}

/// Model of a `StringReplacement`: the pattern looked for and its substitute.
pub struct ReplacementModel {
    pub from: Seq<char>,
    pub to: Seq<char>,
}

/// A literal substring replacement to perform on symbol names.
#[derive(Debug, Clone)]
pub struct StringReplacement {
    /// The string to look for.
    from: String,
    /// What it will be replaced with.
    to: String,
}

impl View for StringReplacement {
    type V = ReplacementModel;

    closed spec fn view(&self) -> ReplacementModel {
        ReplacementModel { from: self.from@, to: self.to@ }
    }
}

impl StringReplacement {
    /// A replacement of `from` by `to`.
    pub fn new(from: String, to: String) -> (r: Self)
        ensures
            r@.from == from@,
            r@.to == to@,
    {
        StringReplacement { from, to }
    }

    /// The pattern looked for.
    pub fn pattern_str(&self) -> (r: &String)
        ensures
            r@ == self@.from,
    {
        &self.from
    }

    /// What the pattern is replaced with.
    pub fn substitute_str(&self) -> (r: &String)
        ensures
            r@ == self@.to,
    {
        &self.to
    }

    /// Perform the replacement on the given string: every non-overlapping
    /// occurrence, left to right. An empty pattern replaces nothing.
    pub fn perform(&self, s: &str) -> (r: String)
        ensures
            r@ == replace_seq(s@, self@.from, self@.to),
    {
        let sv = str_chars(s);
        let fv = str_chars(self.from.as_str());
        let tv = str_chars(self.to.as_str());
        let out = replace_exec(&sv, &fv, &tv);
        string_of_chars(&out)
    }
}

/// The full, mostly-parsed configuration of one comparison.
#[derive(Debug)]
pub struct Args {
    /// Show all lines, even those without a change.
    pub all: bool,
    /// Whether the output should be colored.
    pub color: Color,
    /// By which field to sort.
    pub sort_by: SortBy,
    /// Path of a CSV export to write, or empty for none.
    pub csv_export: String,
    /// Include percentage differences in the CSV export.
    pub csv_percentages: bool,
    /// Include count differences in the CSV export.
    pub csv_differences: bool,
    /// Include counts, differences and percentages in the CSV export.
    pub csv_all_data: bool,
    /// Column names for the annotation-report inputs.
    pub csv_names: Vec<String>,
    /// The replacements to perform in symbol names, in order.
    pub string_replace: Vec<StringReplacement>,
    /// Path of a graph export to write; currently unsupported.
    pub export_graph: String,
    /// The column which is the reference for counts.
    pub relative_to: RelativeTo,
    /// What to show for each column of data.
    pub show: Vec<Show>,
    /// The input files, in column order.
    pub inputs: Vec<String>,
}

/// `u32::from_str` semantics over characters.
pub open spec fn spec_parse_u32(s: Seq<char>) -> Option<u32> {
    match crate::num::parse_u64_seq(s) {
        Some(v) => if v <= u32::MAX {
            Some(v as u32)
        } else {
            None
        },
        None => None,
    }
}

/// Parses a `u32` from characters.
fn parse_u32_chars(v: &Vec<char>) -> (r: Option<u32>)
    ensures
        r == spec_parse_u32(v@),
{
    match crate::num::parse_u64_chars(v) {
        Some(x) => if x <= 0xffff_ffffu64 {
            Some(x as u32)
        } else {
            None
        },
        None => None,
    }
}

/// What a sort-by argument means: an optional `+` or `-` order prefix, then
/// `symbol`, `first-ir`, `last-ir` or `columnN`.
pub open spec fn spec_parse_sort_by(s: Seq<char>) -> Result<SortBy, Error> {
    if s.len() == 0 {
        Err(Error::EmptySortBy)
    } else {
        let order = if s[0] == '-' {
            SortByOrder::Descending
        } else {
            SortByOrder::Ascending
        };
        let rest = if s[0] == '+' || s[0] == '-' {
            s.drop_first()
        } else {
            s
        };
        if rest == "symbol"@ {
            Ok(SortBy { field: SortByField::Symbol, order })
        } else if rest == "last-ir"@ {
            Ok(SortBy { field: SortByField::LastIR, order })
        } else if rest == "first-ir"@ {
            Ok(SortBy { field: SortByField::FirstIR, order })
        } else if starts_with_seq(rest, "column"@) {
            let num = rest.skip(6);
            if num.len() == 0 {
                Err(Error::MissingSortColumn)
            } else {
                match spec_parse_u32(num) {
                    Some(x) => Ok(SortBy { field: SortByField::ColumnIR(x), order }),
                    None => Err(Error::InvalidSortColumn),
                }
            }
        } else {
            Err(Error::InvalidSortBy)
        }
    }
}

impl SortBy {
    /// Parse a sort-by argument, as `spec_parse_sort_by` describes.
    pub fn parse(s: &str) -> (r: Result<SortBy, Error>)
        ensures
            r == spec_parse_sort_by(s@),
    {
        let v = str_chars(s);
        if v.len() == 0 {
            return Err(Error::EmptySortBy);
        }
        let signed = v[0] == '+' || v[0] == '-';
        let order = if v[0] == '-' {
            SortByOrder::Descending
        } else {
            SortByOrder::Ascending
        };
        let rest = if signed {
            crate::text::subrange_exec(&v, 1, v.len())
        } else {
            crate::text::subrange_exec(&v, 0, v.len())
        };
        proof {
            if signed {
                assert(rest@ =~= v@.drop_first());
            } else {
                assert(rest@ =~= v@);
            }
        }
        if crate::text::chars_eq_str(&rest, "symbol") {
            Ok(SortBy { field: SortByField::Symbol, order })
        } else if crate::text::chars_eq_str(&rest, "last-ir") {
            Ok(SortBy { field: SortByField::LastIR, order })
        } else if crate::text::chars_eq_str(&rest, "first-ir") {
            Ok(SortBy { field: SortByField::FirstIR, order })
        } else {
            let colv = str_chars("column");
            proof {
                reveal_strlit("column");
            }
            if starts_with_exec(&rest, &colv) {
                let num = crate::text::subrange_exec(&rest, 6, rest.len());
                proof {
                    assert(num@ =~= rest@.skip(6));
                }
                if num.len() == 0 {
                    Err(Error::MissingSortColumn)
                } else {
                    match parse_u32_chars(&num) {
                        Some(x) => Ok(SortBy { field: SortByField::ColumnIR(x), order }),
                        None => Err(Error::InvalidSortColumn),
                    }
                }
            } else {
                Err(Error::InvalidSortBy)
            }
        }
    }
}

/// What a relative-to argument means: `first`, `last`, `previous` or
/// `columnN`.
pub open spec fn spec_parse_relative_to(s: Seq<char>) -> Result<RelativeTo, Error> {
    if s == "first"@ {
        Ok(RelativeTo::First)
    } else if s == "last"@ {
        Ok(RelativeTo::Last)
    } else if s == "previous"@ {
        Ok(RelativeTo::Previous)
    } else if starts_with_seq(s, "column"@) {
        match spec_parse_u32(s.skip(6)) {
            Some(x) => Ok(RelativeTo::Column(x)),
            None => Err(Error::InvalidRelativeToColumn),
        }
    } else {
        Err(Error::InvalidRelativeTo)
    }
}

impl RelativeTo {
    /// Parse a relative-to argument, as `spec_parse_relative_to` describes.
    pub fn parse(s: &str) -> (r: Result<RelativeTo, Error>)
        ensures
            r == spec_parse_relative_to(s@),
    {
        let v = str_chars(s);
        if crate::text::chars_eq_str(&v, "first") {
            Ok(RelativeTo::First)
        } else if crate::text::chars_eq_str(&v, "last") {
            Ok(RelativeTo::Last)
        } else if crate::text::chars_eq_str(&v, "previous") {
            Ok(RelativeTo::Previous)
        } else {
            let colv = str_chars("column");
            proof {
                reveal_strlit("column");
            }
            if starts_with_exec(&v, &colv) {
                let num = crate::text::subrange_exec(&v, 6, v.len());
                proof {
                    assert(num@ =~= v@.skip(6));
                }
                match parse_u32_chars(&num) {
                    Some(x) => Ok(RelativeTo::Column(x)),
                    None => Err(Error::InvalidRelativeToColumn),
                }
            } else {
                Err(Error::InvalidRelativeTo)
            }
        }
    }

    /// The concrete reference column this policy picks for the CSV export:
    /// `last` is the last loaded column, `previous` collapses to the first
    /// for export purposes, and an explicit column is clamped to the loaded
    /// range.
    pub fn reference_column(self, n_runs: usize) -> (r: usize)
        requires
            n_runs >= 1,
        ensures
            r == match self {
                RelativeTo::Last => n_runs - 1,
                RelativeTo::First => 0,
                RelativeTo::Previous => 0,
                RelativeTo::Column(x) => if (x as int) < n_runs {
                    x as int
                } else {
                    n_runs - 1
                },
            },
            r < n_runs,
    {
        match self {
            RelativeTo::Last => n_runs - 1,
            RelativeTo::First => 0,
            RelativeTo::Previous => 0,
            RelativeTo::Column(x) => {
                if (x as usize) < n_runs {
                    x as usize
                } else {
                    n_runs - 1
                }
            },
        }
    }
}

/// What a show argument means: `all`, `ircount`, `percentagediff` or
/// `ircountdiff`.
pub open spec fn spec_parse_show(s: Seq<char>) -> Result<Show, Error> {
    if s == "all"@ {
        Ok(Show::All)
    } else if s == "ircount"@ {
        Ok(Show::IRCount)
    } else if s == "percentagediff"@ {
        Ok(Show::PercentageDiff)
    } else if s == "ircountdiff"@ {
        Ok(Show::IRCountDiff)
    } else {
        Err(Error::InvalidShow)
    }
}

impl Show {
    /// Parse a show argument, as `spec_parse_show` describes.
    pub fn parse(s: &str) -> (r: Result<Show, Error>)
        ensures
            r == spec_parse_show(s@),
    {
        let v = str_chars(s);
        if crate::text::chars_eq_str(&v, "all") {
            Ok(Show::All)
        } else if crate::text::chars_eq_str(&v, "ircount") {
            Ok(Show::IRCount)
        } else if crate::text::chars_eq_str(&v, "percentagediff") {
            Ok(Show::PercentageDiff)
        } else if crate::text::chars_eq_str(&v, "ircountdiff") {
            Ok(Show::IRCountDiff)
        } else {
            Err(Error::InvalidShow)
        }
    }
}

/// What a color argument means: `always`, `default` or `never`.
pub open spec fn spec_parse_color(s: Seq<char>) -> Result<Color, Error> {
    if s == "always"@ {
        Ok(Color::Always)
    } else if s == "default"@ {
        Ok(Color::Default)
    } else if s == "never"@ {
        Ok(Color::Never)
    } else {
        Err(Error::InvalidColor)
    }
}

impl Color {
    /// Parse a color argument, as `spec_parse_color` describes.
    pub fn parse(s: &str) -> (r: Result<Color, Error>)
        ensures
            r == spec_parse_color(s@),
    {
        let v = str_chars(s);
        if crate::text::chars_eq_str(&v, "always") {
            Ok(Color::Always)
        } else if crate::text::chars_eq_str(&v, "default") {
            Ok(Color::Default)
        } else if crate::text::chars_eq_str(&v, "never") {
            Ok(Color::Never)
        } else {
            Err(Error::InvalidColor)
        }
    }
}

/// What a replacement argument means: the text before the first `/` is the
/// pattern, everything after it the substitute.
pub open spec fn spec_parse_replacement(s: Seq<char>) -> Result<ReplacementModel, Error> {
    if crate::text::first_pos(s, '/') == s.len() {
        Err(Error::MissingReplacementSeparator)
    } else {
        Ok(
            ReplacementModel {
                from: s.take(crate::text::first_pos(s, '/') as int),
                to: s.skip(crate::text::first_pos(s, '/') as int + 1),
            },
        )
    }
}

impl StringReplacement {
    /// Parse a replacement argument, as `spec_parse_replacement` describes.
    pub fn parse(s: &str) -> (r: Result<StringReplacement, Error>)
        ensures
            match r {
                Ok(rep) => spec_parse_replacement(s@) == Ok::<ReplacementModel, Error>(rep@),
                Err(e) => spec_parse_replacement(s@) == Err::<ReplacementModel, Error>(e),
            },
    {
        let v = str_chars(s);
        let p = crate::text::first_pos_exec(&v, '/');
        if p == v.len() {
            return Err(Error::MissingReplacementSeparator);
        }
        let fromv = crate::text::subrange_exec(&v, 0, p);
        let tov = crate::text::subrange_exec(&v, p + 1, v.len());
        proof {
            assert(fromv@ =~= v@.take(p as int));
            assert(tov@ =~= v@.skip(p as int + 1));
        }
        Ok(
            StringReplacement::new(
                string_of_chars(&fromv),
                string_of_chars(&tov),
            ),
        )
    }
}

/// `s` without trailing `/` separators.
pub open spec fn strip_trailing_slashes(s: Seq<char>) -> Seq<char>
    decreases s.len(),
{
    if s.len() > 0 && s.last() == '/' {
        strip_trailing_slashes(s.drop_last())
    } else {
        s
    }
}

/// The characters after the last `/` of `s`.
pub open spec fn after_last_slash(s: Seq<char>) -> Seq<char>
    decreases s.len(),
{
    if s.len() == 0 {
        s
    } else if s.last() == '/' {
        Seq::empty()
    } else {
        after_last_slash(s.drop_last()).push(s.last())
    }
}

/// Index of the last `.` in `s`, or `-1` if there is none.
pub open spec fn last_dot_pos(s: Seq<char>) -> int
    decreases s.len(),
{
    if s.len() == 0 {
        -1
    } else if s.last() == '.' {
        s.len() - 1
    } else {
        last_dot_pos(s.drop_last())
    }
}

/// Whether a path names a CSV file: its final component — trailing path
/// separators aside — has an extension, a last dot after its first
/// character, that is `csv` up to ASCII case.
pub open spec fn is_csv_path(s: Seq<char>) -> bool {
    let comp = after_last_slash(strip_trailing_slashes(s));
    let p = last_dot_pos(comp);
    p >= 1 && eq_ignore_ascii_case(comp.skip(p + 1), "csv"@)
}

/// How many of the inputs are not CSV files, and will be read as annotation
/// reports.
pub open spec fn count_non_csv(inputs: Seq<Seq<char>>) -> nat
    decreases inputs.len(),
{
    if inputs.len() == 0 {
        0
    } else {
        count_non_csv(inputs.drop_last()) + (if is_csv_path(inputs.last()) {
            0nat
        } else {
            1nat
        })
    }
}

/// Decides `is_csv_path` on a path.
pub fn is_csv_path_exec(s: &String) -> (r: bool)
    ensures
        r == is_csv_path(s@),
{
    let v = str_chars(s.as_str());
    let mut hi: usize = v.len();
    proof {
        assert(v@.take(hi as int) =~= v@);
    }
    while hi > 0 && v[hi - 1] == '/'
        invariant
            hi <= v@.len(),
            strip_trailing_slashes(v@) == strip_trailing_slashes(v@.take(hi as int)),
        decreases hi,
    {
        proof {
            let cur = v@.take(hi as int);
            assert(cur.last() == v@[hi as int - 1]);
            assert(cur.drop_last() =~= v@.take(hi as int - 1));
        }
        hi -= 1;
    }
    proof {
        let cur = v@.take(hi as int);
        if hi > 0 {
            assert(cur.last() == v@[hi as int - 1]);
        }
        assert(strip_trailing_slashes(cur) == cur);
    }
    let mut lo: usize = hi;
    while lo > 0 && v[lo - 1] != '/'
        invariant
            lo <= hi <= v@.len(),
            after_last_slash(v@.take(hi as int)) == after_last_slash(v@.take(lo as int)) + v@.subrange(
                lo as int,
                hi as int,
            ),
        decreases lo,
    {
        proof {
            let cur = v@.take(lo as int);
            assert(cur.last() == v@[lo as int - 1]);
            assert(cur.drop_last() =~= v@.take(lo as int - 1));
            assert(after_last_slash(cur) == after_last_slash(v@.take(lo as int - 1)).push(
                v@[lo as int - 1],
            ));
            assert(after_last_slash(v@.take(lo as int - 1)).push(v@[lo as int - 1]) + v@.subrange(
                lo as int,
                hi as int,
            ) =~= after_last_slash(v@.take(lo as int - 1)) + v@.subrange(lo as int - 1, hi as int));
        }
        lo -= 1;
    }
    proof {
        let cur = v@.take(lo as int);
        if lo > 0 {
            assert(cur.last() == v@[lo as int - 1]);
            assert(after_last_slash(cur) =~= Seq::<char>::empty());
        } else {
            assert(cur =~= Seq::<char>::empty());
            assert(after_last_slash(cur) =~= Seq::<char>::empty());
        }
        assert(after_last_slash(v@.take(hi as int)) =~= v@.subrange(lo as int, hi as int));
    }
    let comp = crate::text::subrange_exec(&v, lo, hi);
    let ghost compm = after_last_slash(strip_trailing_slashes(v@));
    proof {
        assert(comp@ == compm);
    }
    let mut d: usize = comp.len();
    proof {
        assert(comp@.take(d as int) =~= comp@);
    }
    while d > 0 && comp[d - 1] != '.'
        invariant
            d <= comp@.len(),
            last_dot_pos(comp@) == last_dot_pos(comp@.take(d as int)),
        decreases d,
    {
        proof {
            let cur = comp@.take(d as int);
            assert(cur.last() == comp@[d as int - 1]);
            assert(cur.drop_last() =~= comp@.take(d as int - 1));
        }
        d -= 1;
    }
    proof {
        let cur = comp@.take(d as int);
        if d > 0 {
            assert(cur.last() == comp@[d as int - 1]);
            assert(last_dot_pos(cur) == d - 1);
        } else {
            assert(cur =~= Seq::<char>::empty());
            assert(last_dot_pos(cur) == -1);
        }
    }
    if d < 2 {
        return false;
    }
    let ext = crate::text::subrange_exec(&comp, d, comp.len());
    proof {
        assert(ext@ =~= compm.skip(last_dot_pos(compm) + 1));
    }
    let csvv = str_chars("csv");
    eq_ignore_case_exec(&ext, &csvv)
}

/// Duplicates removed, keeping the first occurrence of each value.
pub open spec fn dedup_show(s: Seq<Show>) -> Seq<Show>
    decreases s.len(),
{
    if s.len() == 0 {
        Seq::empty()
    } else {
        let pre = dedup_show(s.drop_last());
        if pre.contains(s.last()) {
            pre
        } else {
            pre.push(s.last())
        }
    }
}

/// What sanitizing the show list does: an empty list or one naming `all`
/// becomes difference, percentage and count; otherwise duplicates are
/// dropped, keeping first occurrences.
pub open spec fn spec_sanitize_show(s: Seq<Show>) -> Seq<Show> {
    if s.len() == 0 || s.contains(Show::All) {
        seq![Show::IRCountDiff, Show::PercentageDiff, Show::IRCount]
    } else {
        dedup_show(s)
    }
}

/// Whether `v` holds `x`.
fn show_contains(v: &Vec<Show>, x: Show) -> (r: bool)
    ensures
        r == v@.contains(x),
{
    let mut i: usize = 0;
    while i < v.len()
        invariant
            i <= v@.len(),
            forall|j: int| 0 <= j < i ==> v@[j] != x,
        decreases v@.len() - i,
    {
        if v[i] == x {
            return true;
        }
        i += 1;
    }
    false
}

impl Args {
    /// Perform the final checks on the arguments.
    ///
    /// When one column name was given per annotation-report input — or none
    /// at all — and at least one input exists, the arguments come back with
    /// the show list sanitized; otherwise the matching error is returned and
    /// nothing else changes hands.
    pub fn validated(self) -> (r: Result<Args, Error>)
        ensures
            match r {
                Ok(a) => {
                    &&& self.csv_names@.len() == 0 || count_non_csv(
                        crate::csv_io::strings_view(self.inputs@),
                    ) == self.csv_names@.len()
                    &&& self.inputs@.len() > 0
                    &&& a.show@ == spec_sanitize_show(self.show@)
                    &&& a.all == self.all
                    &&& a.color == self.color
                    &&& a.sort_by == self.sort_by
                    &&& a.csv_export == self.csv_export
                    &&& a.csv_percentages == self.csv_percentages
                    &&& a.csv_differences == self.csv_differences
                    &&& a.csv_all_data == self.csv_all_data
                    &&& a.csv_names == self.csv_names
                    &&& a.string_replace == self.string_replace
                    &&& a.export_graph == self.export_graph
                    &&& a.relative_to == self.relative_to
                    &&& a.inputs == self.inputs
                },
                Err(e) => {
                    if self.csv_names@.len() != 0 && count_non_csv(
                        crate::csv_io::strings_view(self.inputs@),
                    ) != self.csv_names@.len() {
                        e == (Error::CsvNamesCountMismatch {
                            names: self.csv_names@.len() as usize,
                            runs: count_non_csv(
                                crate::csv_io::strings_view(self.inputs@),
                            ) as usize,
                        })
                    } else {
                        self.inputs@.len() == 0 && e == Error::NoInputFile
                    }
                },
            },
    {
        let mut this = self;
        match this.check_csv_names_count() {
            Ok(_) => {},
            Err(e) => {
                return Err(e);
            },
        }
        match this.check_input_length() {
            Ok(_) => {},
            Err(e) => {
                return Err(e);
            },
        }
        this.sanitize_show();
        Ok(this)
    }

    /// Check that the number of given column names matches the number of
    /// annotation-report inputs, when any names were given at all.
    fn check_csv_names_count(&self) -> (r: Result<(), Error>)
        ensures
            match r {
                Ok(_) => self.csv_names@.len() == 0 || count_non_csv(
                    crate::csv_io::strings_view(self.inputs@),
                ) == self.csv_names@.len(),
                Err(e) => self.csv_names@.len() != 0 && count_non_csv(
                    crate::csv_io::strings_view(self.inputs@),
                ) != self.csv_names@.len() && e == (Error::CsvNamesCountMismatch {
                    names: self.csv_names@.len() as usize,
                    runs: count_non_csv(crate::csv_io::strings_view(self.inputs@)) as usize,
                }),
            },
    {
        if self.csv_names.len() == 0 {
            return Ok(());
        }
        let ghost inputsm = crate::csv_io::strings_view(self.inputs@);
        let mut runs_count: usize = 0;
        let mut i: usize = 0;
        proof {
            assert(inputsm.take(0) =~= Seq::<Seq<char>>::empty());
        }
        while i < self.inputs.len()
            invariant
                inputsm == crate::csv_io::strings_view(self.inputs@),
                inputsm.len() == self.inputs@.len(),
                i <= self.inputs@.len(),
                runs_count == count_non_csv(inputsm.take(i as int)),
                runs_count <= i,
            decreases self.inputs@.len() - i,
        {
            proof {
                assert(inputsm.take(i + 1).drop_last() =~= inputsm.take(i as int));
                assert(inputsm.take(i + 1).last() == inputsm[i as int]);
                assert(inputsm[i as int] == self.inputs@[i as int]@);
            }
            if !is_csv_path_exec(&self.inputs[i]) {
                runs_count += 1;
            }
            i += 1;
        }
        proof {
            assert(inputsm.take(i as int) =~= inputsm);
        }
        if runs_count != self.csv_names.len() {
            return Err(
                Error::CsvNamesCountMismatch { names: self.csv_names.len(), runs: runs_count },
            );
        }
        Ok(())
    }

    /// Make sure at least one input file was given.
    fn check_input_length(&self) -> (r: Result<(), Error>)
        ensures
            match r {
                Ok(_) => self.inputs@.len() > 0,
                Err(e) => self.inputs@.len() == 0 && e == Error::NoInputFile,
            },
    {
        if self.inputs.len() == 0 {
            return Err(Error::NoInputFile);
        }
        Ok(())
    }

    /// Sanitize the show list, as `spec_sanitize_show` describes.
    fn sanitize_show(&mut self)
        ensures
            final(self).show@ == spec_sanitize_show(old(self).show@),
            final(self).all == old(self).all,
            final(self).color == old(self).color,
            final(self).sort_by == old(self).sort_by,
            final(self).csv_export == old(self).csv_export,
            final(self).csv_percentages == old(self).csv_percentages,
            final(self).csv_differences == old(self).csv_differences,
            final(self).csv_all_data == old(self).csv_all_data,
            final(self).csv_names == old(self).csv_names,
            final(self).string_replace == old(self).string_replace,
            final(self).export_graph == old(self).export_graph,
            final(self).relative_to == old(self).relative_to,
            final(self).inputs == old(self).inputs,
    {
        if self.show.len() == 0 || show_contains(&self.show, Show::All) {
            let mut defaults: Vec<Show> = Vec::new();
            defaults.push(Show::IRCountDiff);
            defaults.push(Show::PercentageDiff);
            defaults.push(Show::IRCount);
            proof {
                assert(defaults@ =~= seq![Show::IRCountDiff, Show::PercentageDiff, Show::IRCount]);
            }
            self.show = defaults;
        } else {
            let mut new_show: Vec<Show> = Vec::new();
            let mut i: usize = 0;
            proof {
                assert(old(self).show@.take(0) =~= Seq::<Show>::empty());
                assert(new_show@ =~= dedup_show(old(self).show@.take(0)));
            }
            while i < self.show.len()
                invariant
                    self.show == old(self).show,
                    self == old(self),
                    i <= self.show@.len(),
                    new_show@ == dedup_show(self.show@.take(i as int)),
                decreases self.show@.len() - i,
            {
                proof {
                    assert(self.show@.take(i + 1).drop_last() =~= self.show@.take(i as int));
                    assert(self.show@.take(i + 1).last() == self.show@[i as int]);
                }
                if !show_contains(&new_show, self.show[i]) {
                    new_show.push(self.show[i]);
                }
                i += 1;
            }
            proof {
                assert(self.show@.take(i as int) =~= self.show@);
            }
            self.show = new_show;
        }
    }

    /// Check the column selections against the number of loaded runs: at
    /// least one run, and any explicit reference or sort column within
    /// range.
    pub fn check_column_bounds(&self, n_runs: usize) -> (r: Result<(), Error>)
        ensures
            match r {
                Ok(_) => {
                    &&& n_runs > 0
                    &&& (self.relative_to matches RelativeTo::Column(x) ==> (x as int) < n_runs)
                    &&& (self.sort_by.field matches SortByField::ColumnIR(x) ==> (x as int)
                        < n_runs)
                },
                Err(e) => {
                    if n_runs == 0 {
                        e == Error::NoInputRun
                    } else if self.relative_to matches RelativeTo::Column(x) && (x as int)
                        >= n_runs {
                        self.relative_to matches RelativeTo::Column(x) && e
                            == (Error::RelativeToOutOfRange { column: x, runs: n_runs })
                    } else {
                        self.sort_by.field matches SortByField::ColumnIR(x) && (x as int) >= n_runs
                            && e == (Error::SortColumnOutOfRange { column: x, runs: n_runs })
                    }
                },
            },
    {
        if n_runs == 0 {
            return Err(Error::NoInputRun);
        }
        if let RelativeTo::Column(x) = self.relative_to {
            if !((x as usize) < n_runs) {
                return Err(Error::RelativeToOutOfRange { column: x, runs: n_runs });
            }
        }
        if let SortByField::ColumnIR(x) = self.sort_by.field {
            if !((x as usize) < n_runs) {
                return Err(Error::SortColumnOutOfRange { column: x, runs: n_runs });
            }
        }
        Ok(())
    }
}

} // verus!
