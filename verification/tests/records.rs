use callgrind_differ::args::{SortBy, SortByField, SortByOrder};
use callgrind_differ::runs::{Records, Run};
use callgrind_differ::Error;

fn named_run(name: &str, symbols: &[(&str, u64)]) -> Run {
    let mut run = Run::new_named(name.to_string());
    for (sym, ir) in symbols {
        run.add_ir(sym, *ir);
    }
    run
}

#[test]
fn add_ir_sums_duplicate_symbols() {
    let mut run = Run::new();
    run.add_ir("foo", 12);
    run.add_ir("foo", 24);
    assert_eq!(run.symbols.len(), 1);
    assert_eq!(run.symbols[0].name, "foo");
    assert_eq!(run.symbols[0].ir, 36);
}

#[test]
fn merge_two_runs_densifies() {
    let mut records = Records::new();
    records.add_run(named_run("one", &[("a", 5), ("b", 3)]));
    records.add_run(named_run("two", &[("b", 2), ("c", 7)]));
    assert_eq!(records.n_runs(), 2);
    assert_eq!(records.symbols.len(), 3);
    assert_eq!(records.symbols[0].name, "a");
    assert_eq!(records.symbols[0].irs, vec![5, 0]);
    assert_eq!(records.symbols[1].name, "b");
    assert_eq!(records.symbols[1].irs, vec![3, 2]);
    assert_eq!(records.symbols[2].name, "c");
    assert_eq!(records.symbols[2].irs, vec![0, 7]);
}

#[test]
fn invariants_hold_after_every_merge() {
    let mut records = Records::new();
    assert!(records.invariants_hold());
    for step in 0..4u64 {
        let mut run = Run::new_named(format!("run {step}"));
        run.add_ir("common", step + 1);
        if step % 2 == 0 {
            run.add_ir(&format!("only{step}"), 10 * step + 1);
        }
        records.add_run(run);
        assert!(records.invariants_hold());
        assert_eq!(records.run_names.len(), step as usize + 1);
        assert_eq!(records.runs_total_irs.len(), step as usize + 1);
        for sym in &records.symbols {
            assert_eq!(sym.irs.len(), step as usize + 1);
        }
        records.assert_invariants();
    }
}

#[test]
fn run_totals_and_names_follow_order() {
    let mut records = Records::new();
    let mut a = named_run("first", &[("x", 1)]);
    a.total_ir = 100;
    let mut b = named_run("second", &[("x", 2)]);
    b.total_ir = 200;
    records.add_run(a);
    records.add_run(b);
    assert_eq!(records.run_names, vec!["first".to_string(), "second".to_string()]);
    assert_eq!(records.runs_total_irs, vec![100, 200]);
}

#[test]
fn sort_by_symbol_ascending() {
    let mut records = Records::new();
    records.add_run(named_run("r", &[("b", 1), ("a", 2)]));
    let by = SortBy { field: SortByField::Symbol, order: SortByOrder::Ascending };
    assert!(records.sort(by).is_ok());
    assert_eq!(records.symbols[0].name, "a");
    assert_eq!(records.symbols[1].name, "b");
}

#[test]
fn sort_by_column_descending() {
    let mut records = Records::new();
    records.add_run(named_run("r", &[("b", 1), ("a", 2)]));
    let by = SortBy { field: SortByField::ColumnIR(0), order: SortByOrder::Descending };
    assert!(records.sort(by).is_ok());
    assert_eq!(records.symbols[0].name, "a");
    assert_eq!(records.symbols[0].irs, vec![2]);
    assert_eq!(records.symbols[1].name, "b");
    assert_eq!(records.symbols[1].irs, vec![1]);
}

#[test]
fn sort_is_stable_on_ties() {
    let mut records = Records::new();
    records.add_run(named_run("r", &[("z", 5), ("m", 5), ("a", 5)]));
    let by = SortBy { field: SortByField::FirstIR, order: SortByOrder::Ascending };
    assert!(records.sort(by).is_ok());
    assert_eq!(records.symbols[0].name, "z");
    assert_eq!(records.symbols[1].name, "m");
    assert_eq!(records.symbols[2].name, "a");
}

#[test]
fn sort_out_of_range_column_changes_nothing() {
    let mut records = Records::new();
    records.add_run(named_run("r", &[("b", 1), ("a", 2)]));
    let by = SortBy { field: SortByField::ColumnIR(7), order: SortByOrder::Ascending };
    let err = records.sort(by).unwrap_err();
    assert_eq!(err, Error::SortColumnOutOfRange { column: 7, runs: 1 });
    assert_eq!(records.symbols[0].name, "b");
    assert_eq!(records.symbols[1].name, "a");
}

#[test]
fn sort_by_last_column() {
    let mut records = Records::new();
    records.add_run(named_run("one", &[("a", 9), ("b", 1)]));
    records.add_run(named_run("two", &[("a", 1), ("b", 9)]));
    let by = SortBy { field: SortByField::LastIR, order: SortByOrder::Ascending };
    assert!(records.sort(by).is_ok());
    assert_eq!(records.symbols[0].name, "a");
    assert_eq!(records.symbols[1].name, "b");
}

#[test]
fn saturating_count_accumulation() {
    let mut run = Run::new();
    run.add_ir("big", u64::MAX);
    run.add_ir("big", 5);
    assert_eq!(run.symbols[0].ir, u64::MAX);
}

#[test]
fn invariants_hold_detects_breakage() {
    let mut records = Records::new();
    records.add_run(named_run("r", &[("a", 1)]));
    assert!(records.invariants_hold());
    records.symbols[0].irs.push(7);
    assert!(!records.invariants_hold());
}
