use callgrind_differ::csv_io::{from_csv_str, to_csv_rows, to_csv_rows_enhanced, to_csv_str, to_csv_str_enhanced};
use callgrind_differ::runs::{Records, Run};
use callgrind_differ::Error;

fn records_of(runs: &[(&str, &[(&str, u64)])]) -> Records {
    let mut records = Records::new();
    for (name, symbols) in runs {
        let mut run = Run::new_named(name.to_string());
        for (sym, ir) in *symbols {
            run.add_ir(sym, *ir);
        }
        records.add_run(run);
    }
    records
}

#[test]
fn header_row_is_detected() {
    let records = from_csv_str("name,RunA,RunB\nfoo,1,2\n", &Vec::new()).unwrap();
    assert_eq!(records.run_names, vec!["RunA".to_string(), "RunB".to_string()]);
    assert_eq!(records.symbols.len(), 1);
    assert_eq!(records.symbols[0].name, "foo");
    assert_eq!(records.symbols[0].irs, vec![1, 2]);
}

#[test]
fn headerless_rows_get_synthetic_names() {
    let records = from_csv_str("foo,1,2\nbar,3,4\n", &Vec::new()).unwrap();
    assert_eq!(records.run_names, vec!["Run 1".to_string(), "Run 2".to_string()]);
    assert_eq!(records.symbols.len(), 2);
    assert_eq!(records.symbols[0].name, "foo");
    assert_eq!(records.symbols[0].irs, vec![1, 2]);
    assert_eq!(records.symbols[1].name, "bar");
    assert_eq!(records.symbols[1].irs, vec![3, 4]);
}

#[test]
fn unparsable_cells_count_as_zero() {
    let records = from_csv_str("name,A\nfoo,oops\nbar, 7 \n", &Vec::new()).unwrap();
    assert_eq!(records.symbols[0].irs, vec![0]);
    assert_eq!(records.symbols[1].irs, vec![7]);
    assert_eq!(records.runs_total_irs, vec![7]);
}

#[test]
fn totals_accumulate_per_column() {
    let records = from_csv_str("name,A,B\nx,1,10\ny,2,20\n", &Vec::new()).unwrap();
    assert_eq!(records.runs_total_irs, vec![3, 30]);
}

#[test]
fn ragged_rows_are_a_structural_error() {
    let err = from_csv_str("a,1,2\nb,3\n", &Vec::new()).unwrap_err();
    assert_eq!(err, Error::CsvStructure);
}

#[test]
fn plain_export_text_is_exact() {
    let records = records_of(&[("RunA", &[("foo", 5)])]);
    let text = to_csv_str(&records);
    assert_eq!(text, "name,RunA\nfoo,5\n");
}

#[test]
fn export_reimport_round_trip() {
    let records = records_of(&[
        ("RunA", &[("alpha", 5), ("beta", 3)]),
        ("RunB", &[("beta", 2), ("gamma", 7)]),
    ]);
    let text = to_csv_str(&records);
    let back = from_csv_str(&text, &Vec::new()).unwrap();
    assert_eq!(back.run_names, records.run_names);
    assert_eq!(back.symbols.len(), records.symbols.len());
    for (a, b) in records.symbols.iter().zip(back.symbols.iter()) {
        assert_eq!(a.name, b.name);
        assert_eq!(a.irs, b.irs);
    }
}

#[test]
fn plain_rows_hold_names_and_counts() {
    let records = records_of(&[("A", &[("s", 3)]), ("B", &[("s", 4)])]);
    let rows = to_csv_rows(&records);
    assert_eq!(rows[0], vec!["name".to_string(), "A".to_string(), "B".to_string()]);
    assert_eq!(rows[1], vec!["s".to_string(), "3".to_string(), "4".to_string()]);
}

#[test]
fn diff_and_pct_math() {
    let records = records_of(&[
        ("Ref", &[("zero", 0), ("fresh", 0), ("down", 200)]),
        ("New", &[("fresh", 10), ("down", 150)]),
    ]);
    // Column 0 is the reference; all data requested.
    let rows = to_csv_rows_enhanced(&records, false, false, true, 0);
    assert_eq!(
        rows[0],
        vec![
            "name".to_string(),
            "Ref_ir".to_string(),
            "New_ir".to_string(),
            "New_diff".to_string(),
            "New_pct".to_string(),
        ],
    );
    // zero: 0 against 0 -> diff 0, pct 0.000
    assert_eq!(rows[1], vec!["zero".into(), "0".to_string(), "0".into(), "0".into(), "0.000".into()]);
    // fresh: 10 against 0 -> diff 10, pct 100.000
    assert_eq!(rows[2], vec!["fresh".into(), "0".to_string(), "10".into(), "10".into(), "100.000".into()]);
    // down: 150 against 200 -> diff -50, pct -25.000
    assert_eq!(rows[3], vec!["down".into(), "200".to_string(), "150".into(), "-50".into(), "-25.000".into()]);
}

#[test]
fn selective_columns_follow_flags() {
    let records = records_of(&[("A", &[("s", 4)]), ("B", &[("s", 6)])]);
    let rows = to_csv_rows_enhanced(&records, true, false, false, 0);
    assert_eq!(
        rows[0],
        vec!["name".to_string(), "A_ir".to_string(), "B_ir".to_string(), "B_pct".to_string()],
    );
    assert_eq!(rows[1], vec!["s".to_string(), "4".into(), "6".into(), "50.000".into()]);
}

#[test]
fn enhanced_export_text_parses_back() {
    let records = records_of(&[("A", &[("s", 4)]), ("B", &[("s", 6)])]);
    let text = to_csv_str_enhanced(&records, true, true, false, 0);
    assert_eq!(text, "name,A_ir,B_ir,B_diff,B_pct\ns,4,6,2,50.000\n");
}

#[test]
fn oversized_cells_count_as_zero() {
    let records = from_csv_str("name,A\nbig,99999999999999999999999\n", &Vec::new()).unwrap();
    assert_eq!(records.symbols[0].irs, vec![0]);
}

#[test]
fn export_of_empty_matrix_keeps_only_the_header() {
    let records = records_of(&[("A", &[])]);
    let text = to_csv_str(&records);
    assert_eq!(text, "name,A\n");
    // With no data row, re-importing finds no column either: run names ride
    // on the first data row.
    let back = from_csv_str(&text, &Vec::new()).unwrap();
    assert_eq!(back.run_names.len(), 0);
    assert_eq!(back.symbols.len(), 0);
}

#[test]
fn replacements_apply_to_imported_names() {
    let reps = vec![callgrind_differ::args::StringReplacement::new(
        "std::".to_string(),
        String::new(),
    )];
    let records = from_csv_str("name,A\nstd::sort,3\n", &reps).unwrap();
    assert_eq!(records.symbols[0].name, "sort");
}
