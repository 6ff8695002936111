use callgrind_differ::args::{
    Args, Color, RelativeTo, Show, SortBy, SortByField, SortByOrder, StringReplacement,
};
use callgrind_differ::Error;

fn base_args() -> Args {
    Args {
        all: false,
        color: Color::Default,
        sort_by: SortBy { field: SortByField::Symbol, order: SortByOrder::Ascending },
        csv_export: String::new(),
        csv_percentages: false,
        csv_differences: false,
        csv_all_data: false,
        csv_names: Vec::new(),
        string_replace: Vec::new(),
        export_graph: String::new(),
        relative_to: RelativeTo::First,
        show: Vec::new(),
        inputs: Vec::new(),
    }
}

#[test]
fn replacement_rewrites_prefix() {
    let rep = StringReplacement::new("std::".to_string(), String::new());
    assert_eq!(rep.perform("std::vector<int>::push_back"), "vector<int>::push_back");
}

#[test]
fn replacement_rewrites_every_occurrence() {
    let rep = StringReplacement::new("aa".to_string(), "b".to_string());
    assert_eq!(rep.perform("aaaa"), "bb");
    assert_eq!(rep.perform("xyz"), "xyz");
}

#[test]
fn replacement_parse_splits_at_first_slash() {
    let rep = StringReplacement::parse("foo/bar/baz").unwrap();
    assert_eq!(rep.perform("foo"), "bar/baz");
    assert_eq!(
        StringReplacement::parse("no separator").unwrap_err(),
        Error::MissingReplacementSeparator,
    );
}

#[test]
fn sort_by_parsing() {
    assert_eq!(
        SortBy::parse("symbol").unwrap(),
        SortBy { field: SortByField::Symbol, order: SortByOrder::Ascending },
    );
    assert_eq!(
        SortBy::parse("-first-ir").unwrap(),
        SortBy { field: SortByField::FirstIR, order: SortByOrder::Descending },
    );
    assert_eq!(
        SortBy::parse("+last-ir").unwrap(),
        SortBy { field: SortByField::LastIR, order: SortByOrder::Ascending },
    );
    assert_eq!(
        SortBy::parse("-column3").unwrap(),
        SortBy { field: SortByField::ColumnIR(3), order: SortByOrder::Descending },
    );
    assert_eq!(SortBy::parse("").unwrap_err(), Error::EmptySortBy);
    assert_eq!(SortBy::parse("column").unwrap_err(), Error::MissingSortColumn);
    assert_eq!(SortBy::parse("columnx").unwrap_err(), Error::InvalidSortColumn);
    assert_eq!(SortBy::parse("bogus").unwrap_err(), Error::InvalidSortBy);
}

#[test]
fn relative_to_parsing() {
    assert_eq!(RelativeTo::parse("first").unwrap(), RelativeTo::First);
    assert_eq!(RelativeTo::parse("last").unwrap(), RelativeTo::Last);
    assert_eq!(RelativeTo::parse("previous").unwrap(), RelativeTo::Previous);
    assert_eq!(RelativeTo::parse("column2").unwrap(), RelativeTo::Column(2));
    assert_eq!(RelativeTo::parse("columnz").unwrap_err(), Error::InvalidRelativeToColumn);
    assert_eq!(RelativeTo::parse("middle").unwrap_err(), Error::InvalidRelativeTo);
}

#[test]
fn show_and_color_parsing() {
    assert_eq!(Show::parse("all").unwrap(), Show::All);
    assert_eq!(Show::parse("ircount").unwrap(), Show::IRCount);
    assert_eq!(Show::parse("percentagediff").unwrap(), Show::PercentageDiff);
    assert_eq!(Show::parse("ircountdiff").unwrap(), Show::IRCountDiff);
    assert_eq!(Show::parse("everything").unwrap_err(), Error::InvalidShow);
    assert_eq!(Color::parse("always").unwrap(), Color::Always);
    assert_eq!(Color::parse("default").unwrap(), Color::Default);
    assert_eq!(Color::parse("never").unwrap(), Color::Never);
    assert_eq!(Color::parse("auto").unwrap_err(), Error::InvalidColor);
}

#[test]
fn color_resolution() {
    assert!(Color::Always.should_color_when(false));
    assert!(!Color::Never.should_color_when(true));
    assert!(Color::Default.should_color_when(true));
    assert!(!Color::Default.should_color_when(false));
}

#[test]
fn reference_column_resolution() {
    assert_eq!(RelativeTo::First.reference_column(3), 0);
    assert_eq!(RelativeTo::Previous.reference_column(3), 0);
    assert_eq!(RelativeTo::Last.reference_column(3), 2);
    assert_eq!(RelativeTo::Column(1).reference_column(3), 1);
    assert_eq!(RelativeTo::Column(9).reference_column(3), 2);
}

#[test]
fn validated_requires_an_input() {
    let args = base_args();
    assert_eq!(args.validated().unwrap_err(), Error::NoInputFile);
}

#[test]
fn validated_checks_name_count_against_report_inputs() {
    let mut args = base_args();
    args.inputs = vec!["a.csv".to_string(), "b.txt".to_string(), "c".to_string()];
    args.csv_names = vec!["one".to_string()];
    assert_eq!(
        args.validated().unwrap_err(),
        Error::CsvNamesCountMismatch { names: 1, runs: 2 },
    );
}

#[test]
fn validated_accepts_matching_names() {
    let mut args = base_args();
    args.inputs = vec!["a.CSV".to_string(), "b.txt".to_string()];
    args.csv_names = vec!["one".to_string()];
    let out = args.validated().unwrap();
    assert_eq!(out.csv_names, vec!["one".to_string()]);
}

#[test]
fn sanitize_show_expands_all_and_dedups() {
    let mut args = base_args();
    args.inputs = vec!["x".to_string()];
    args.show = vec![Show::IRCount, Show::All];
    let out = args.validated().unwrap();
    assert_eq!(out.show, vec![Show::IRCountDiff, Show::PercentageDiff, Show::IRCount]);

    let mut args = base_args();
    args.inputs = vec!["x".to_string()];
    args.show = vec![Show::IRCount, Show::PercentageDiff, Show::IRCount];
    let out = args.validated().unwrap();
    assert_eq!(out.show, vec![Show::IRCount, Show::PercentageDiff]);
}

#[test]
fn column_bounds_checks() {
    let mut args = base_args();
    args.inputs = vec!["x".to_string()];
    assert_eq!(args.check_column_bounds(0).unwrap_err(), Error::NoInputRun);
    args.relative_to = RelativeTo::Column(4);
    assert_eq!(
        args.check_column_bounds(2).unwrap_err(),
        Error::RelativeToOutOfRange { column: 4, runs: 2 },
    );
    args.relative_to = RelativeTo::First;
    args.sort_by = SortBy { field: SortByField::ColumnIR(5), order: SortByOrder::Ascending };
    assert_eq!(
        args.check_column_bounds(2).unwrap_err(),
        Error::SortColumnOutOfRange { column: 5, runs: 2 },
    );
    args.sort_by = SortBy { field: SortByField::Symbol, order: SortByOrder::Ascending };
    assert!(args.check_column_bounds(2).is_ok());
}
