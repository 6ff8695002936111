use callgrind_differ::annotation::parse_annotation;
use callgrind_differ::args::StringReplacement;
use callgrind_differ::load::{parse_records, InputFile};
use callgrind_differ::Error;

fn lines_of(text: &str) -> Vec<String> {
    text.lines().map(|l| l.to_string()).collect()
}

const REPORT: &str = "\
--------------------------------------------------------------------------------
Profile data file 'profile.out' (creator: profiler)
--------------------------------------------------------------------------------
Ir
--------------------------------------------------------------------------------
11,486,151 (100.0%)  PROGRAM TOTALS

--------------------------------------------------------------------------------
Ir                  file:function
--------------------------------------------------------------------------------
8,624,207 (75.08%)  lib.c:busy_loop
1,000,000 ( 8.70%)  lib.c:helper
   24,207 ( 0.21%)  lib.c:busy_loop
";

#[test]
fn report_parses_counts_and_total() {
    let run = parse_annotation(&lines_of(REPORT), &Vec::new());
    assert_eq!(run.total_ir, 11_486_151);
    assert_eq!(run.symbols.len(), 2);
    assert_eq!(run.symbols[0].name, "lib.c:busy_loop");
    assert_eq!(run.symbols[0].ir, 8_624_207 + 24_207);
    assert_eq!(run.symbols[1].name, "lib.c:helper");
    assert_eq!(run.symbols[1].ir, 1_000_000);
}

#[test]
fn report_duplicate_symbol_lines_are_summed() {
    let run = parse_annotation(
        &lines_of("100  PROGRAM TOTALS\n12  a.c:foo\n24  a.c:foo\n"),
        &Vec::new(),
    );
    assert_eq!(run.symbols.len(), 1);
    assert_eq!(run.symbols[0].name, "a.c:foo");
    assert_eq!(run.symbols[0].ir, 36);
}

#[test]
fn report_applies_replacements() {
    let reps = vec![StringReplacement::new("std::".to_string(), String::new())];
    let run = parse_annotation(&lines_of("5  std::vector<int>::push_back\n"), &reps);
    assert_eq!(run.symbols[0].name, "vector<int>::push_back");
}

#[test]
fn report_without_data_is_an_empty_run() {
    let run = parse_annotation(&lines_of("just prose\n---\nIr\n"), &Vec::new());
    assert_eq!(run.symbols.len(), 0);
    assert_eq!(run.total_ir, 0);
}

#[test]
fn load_mixes_reports_and_csv() {
    let inputs = vec![
        InputFile { path: "runs/base.txt".to_string(), text: REPORT.to_string() },
        InputFile {
            path: "runs/history.csv".to_string(),
            text: "name,Old\nlib.c:busy_loop,7000\nlib.c:gone,3\n".to_string(),
        },
    ];
    let records = parse_records(&inputs, &Vec::new(), &Vec::new()).unwrap();
    assert_eq!(records.n_runs(), 2);
    // The report run gets its file stem as name, the CSV column its header.
    assert_eq!(records.run_names, vec!["base".to_string(), "Old".to_string()]);
    assert!(records.invariants_hold());
    assert_eq!(records.symbols[0].name, "lib.c:busy_loop");
    assert_eq!(records.symbols[0].irs, vec![8_648_414, 7000]);
    assert_eq!(records.symbols[1].name, "lib.c:helper");
    assert_eq!(records.symbols[1].irs, vec![1_000_000, 0]);
    assert_eq!(records.symbols[2].name, "lib.c:gone");
    assert_eq!(records.symbols[2].irs, vec![0, 3]);
}

#[test]
fn load_prefers_given_names_for_reports() {
    let inputs = vec![InputFile { path: "x.txt".to_string(), text: "7  f\n".to_string() }];
    let records = parse_records(&inputs, &vec!["Given".to_string()], &Vec::new()).unwrap();
    assert_eq!(records.run_names, vec!["Given".to_string()]);
}

#[test]
fn load_reports_broken_csv() {
    let inputs = vec![InputFile {
        path: "bad.csv".to_string(),
        text: "a,1,2\nb,3\n".to_string(),
    }];
    assert_eq!(
        parse_records(&inputs, &Vec::new(), &Vec::new()).unwrap_err(),
        Error::CsvStructure,
    );
}

#[test]
fn csv_columns_skip_zero_counts() {
    let inputs = vec![InputFile {
        path: "h.csv".to_string(),
        text: "name,A,B\nonly_b,0,4\n".to_string(),
    }];
    let records = parse_records(&inputs, &Vec::new(), &Vec::new()).unwrap();
    assert_eq!(records.n_runs(), 2);
    assert_eq!(records.symbols.len(), 1);
    assert_eq!(records.symbols[0].irs, vec![0, 4]);
}

#[test]
fn report_first_totals_line_wins() {
    let run = parse_annotation(
        &lines_of("50  PROGRAM TOTALS\n70  PROGRAM TOTALS\n1  f\n"),
        &Vec::new(),
    );
    assert_eq!(run.total_ir, 50);
    assert_eq!(run.symbols.len(), 1);
}

#[test]
fn report_line_needs_a_name() {
    let run = parse_annotation(&lines_of("123\n456 (1.0%)\n789 (2.0%)  f\n"), &Vec::new());
    assert_eq!(run.symbols.len(), 1);
    assert_eq!(run.symbols[0].name, "f");
    assert_eq!(run.symbols[0].ir, 789);
}

#[test]
fn report_counts_too_large_are_skipped() {
    let run = parse_annotation(&lines_of("99999999999999999999999  f\n12  f\n"), &Vec::new());
    assert_eq!(run.symbols.len(), 1);
    assert_eq!(run.symbols[0].ir, 12);
}
