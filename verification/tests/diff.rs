use csvdiff::compare::{FieldChange, Normalisation};
use csvdiff::diff::{Diff, Summary};
use csvdiff::moves::moves_by_column;
use csvdiff::report::{changed_line, examples, exit_status, malformed_examples, may_write_out, out_records};
use csvdiff::rows::header;
use csvdiff::sort::{key_less, sort_by_key, sort_keys};

fn strings(values: &[&str]) -> Vec<String> {
    values.iter().map(|value| value.to_string()).collect()
}

/// The number forms of a row, through a binary double as the program does.
fn numbers(values: &[String]) -> Vec<Option<String>> {
    values
        .iter()
        .map(|value| {
            csvdiff::number::number_literal(value).map(|literal| {
                let number: f64 = literal.parse().expect("a decimal literal");
                let text = format!("{number:.6}");
                text.trim_end_matches('0').trim_end_matches('.').to_string()
            })
        })
        .collect()
}

/// Runs the three passes over rows given as comma-separated lines.
fn compare(before: &[&str], after: &[&str], key: &[&str], ignore: &[&str]) -> Summary {
    let split = |line: &str| -> Vec<String> { line.split(',').map(|v| v.to_string()).collect() };
    let key = strings(key);
    let b = header(&split(before[0]), &key).ok().expect("key columns in the older file");
    let a = header(&split(after[0]), &key).ok().expect("key columns in the newer file");
    let mut diff = Diff::new(b, a, strings(ignore), Normalisation::sensible());
    for (index, line) in before[1..].iter().enumerate() {
        let values = split(line);
        diff.observe_before(index, &values, &numbers(&values));
    }
    diff.start_after();
    for (index, line) in after[1..].iter().enumerate() {
        let values = split(line);
        diff.observe_after(index, &values, &numbers(&values));
    }
    diff.finish_after();
    if diff.needs_revisit() {
        for (index, line) in before[1..].iter().enumerate() {
            let values = split(line);
            diff.revisit_before(index, &values, &numbers(&values));
        }
    }
    diff.finish()
}

#[test]
fn identical_files_have_no_differences() {
    let rows = ["id,name,amount", "1,a,10", "2,b,20"];
    let summary = compare(&rows, &rows, &["id"], &[]);
    assert!(summary.added.is_empty() && summary.removed.is_empty() && summary.changed.is_empty());
    assert_eq!(exit_status(&summary), 0);
    assert_eq!((summary.rows_before, summary.rows_after), (2, 2));
}

#[test]
fn added_removed_and_changed_keys_are_sorted() {
    let summary = compare(
        &["id,status,amount", "3,x,1", "1,active,1000", "2,gone,5"],
        &["id,status,amount", "1,churned,1000.00", "5,new,1", "4,new,2", "3,x,1.0"],
        &["id"],
        &[],
    );
    assert_eq!(summary.added, strings(&["4", "5"]));
    assert_eq!(summary.removed, strings(&["2"]));
    assert_eq!(summary.changed.len(), 1);
    assert_eq!(summary.changed[0].0, "1");
    assert_eq!(summary.changed[0].1.len(), 1);
    assert_eq!(summary.changed[0].1[0].column, "status");
    assert_eq!(exit_status(&summary), 1);
}

#[test]
fn ignored_columns_never_make_a_row_change() {
    let summary = compare(
        &["id,updated_at,status", "1,2026-08-01,active"],
        &["id,updated_at,status", "1,2026-08-22,active"],
        &["id"],
        &["UPDATED_AT"],
    );
    assert!(summary.changed.is_empty());
}

#[test]
fn duplicates_and_malformed_rows_are_counted() {
    let summary = compare(
        &["id,v", "1,a", "1,b", "2,c,extra"],
        &["id,v", "1,b", "1,b", "2"],
        &["id"],
        &[],
    );
    assert_eq!(summary.duplicate_keys_before, 1);
    assert_eq!(summary.duplicate_keys_after, 1);
    assert_eq!(summary.malformed_before, vec![(4, 3)]);
    assert_eq!(summary.malformed_after, vec![(4, 1)]);
    // only the last row of each key is compared, and malformed rows are not diffed
    assert!(summary.added.is_empty());
    assert!(summary.removed.is_empty());
    assert!(summary.changed.is_empty());
}

#[test]
fn composite_keys_match_rows() {
    let summary = compare(
        &["order,line,qty", "A,1,5", "A,2,6"],
        &["order,line,qty", "A,1,5", "A,2,7"],
        &["order", "line"],
        &[],
    );
    assert_eq!(summary.changed.len(), 1);
    assert_eq!(summary.changed[0].0, "A\u{1}2");
}

#[test]
fn the_file_of_differences_lists_every_difference() {
    let summary = compare(
        &["id,status", "1,active", "2,old"],
        &["id,status", "1,churned", "3,new"],
        &["id"],
        &[],
    );
    let records = out_records(&summary);
    assert_eq!(records[0], strings(&["change", "key", "column", "before", "after"]));
    assert_eq!(records[1], strings(&["added", "3", "", "", ""]));
    assert_eq!(records[2], strings(&["removed", "2", "", "", ""]));
    assert_eq!(records[3], strings(&["changed", "1", "status", "active", "churned"]));
    assert_eq!(records.len(), 4);
}

#[test]
fn what_moved_is_counted_by_column() {
    let summary = compare(
        &["id,status,city", "1,a,X", "2,a,Y", "3,b,Z", "4,c,Z"],
        &["id,status,city", "1,b,X", "2,b,Y", "3,c,Q", "4,d,Z"],
        &["id"],
        &[],
    );
    let moves = moves_by_column(&summary.changed);
    assert_eq!(moves.len(), 2);
    assert_eq!(moves[0].column, "status");
    assert_eq!(moves[0].rows, 4);
    assert_eq!(moves[0].top[0], ("a -> b".to_string(), 2));
    assert_eq!(moves[0].top.len(), 3);
    assert_eq!(moves[0].transitions, 3);
    assert_eq!(moves[1].column, "city");
    assert_eq!(moves[1].rows, 1);
    assert_eq!(moves[1].top, vec![("Z -> Q".to_string(), 1)]);
}

#[test]
fn keys_sort_by_their_bytes() {
    let keys = strings(&["b", "a", "B", "ä", "ab", ""]);
    assert_eq!(sort_keys(&keys), strings(&["", "B", "a", "ab", "b", "ä"]));
    assert!(key_less("a", "b"));
    assert!(!key_less("b", "a"));
    assert!(!key_less("a", "a"));
    assert!(key_less("a", "ab"));
}

#[test]
fn an_existing_out_file_needs_force() {
    assert!(may_write_out(false, false));
    assert!(!may_write_out(true, false));
    assert!(may_write_out(true, true));
}

#[test]
fn a_key_is_never_both_added_and_removed() {
    let summary = compare(
        &["id,v", "1,a", "2,b", "3,c"],
        &["id,v", "2,b", "4,d", "4,e", "1,z"],
        &["id"],
        &[],
    );
    assert_eq!(summary.added, strings(&["4", "4"]));
    assert_eq!(summary.removed, strings(&["3"]));
    for key in &summary.added {
        assert!(!summary.removed.contains(key));
    }
}

#[test]
fn sorting_keeps_equal_keys_in_their_order() {
    let entries = vec![
        ("b".to_string(), 1),
        ("a".to_string(), 2),
        ("b".to_string(), 3),
        ("a".to_string(), 4),
        ("c".to_string(), 5),
    ];
    let sorted = sort_by_key(entries);
    let order: Vec<i32> = sorted.iter().map(|e| e.1).collect();
    assert_eq!(order, vec![2, 4, 1, 3, 5]);
}

#[test]
fn each_column_counts_its_changes_and_transitions() {
    let summary = compare(
        &["id,status,city", "1,a,X", "2,a,X", "3,a,Y"],
        &["id,status,city", "1,b,Z", "2,b,X", "3,c,Y"],
        &["id"],
        &[],
    );
    let moves = moves_by_column(&summary.changed);
    assert_eq!(moves.len(), 2);
    assert_eq!((moves[0].column.as_str(), moves[0].rows), ("status", 3));
    assert_eq!(moves[0].top, vec![("a -> b".to_string(), 2), ("a -> c".to_string(), 1)]);
    assert_eq!(moves[0].transitions, 2);
    assert_eq!((moves[1].column.as_str(), moves[1].rows), ("city", 1));
    assert_eq!(moves[1].top, vec![("X -> Z".to_string(), 1)]);
}

#[test]
fn a_changed_key_shows_its_first_three_fields() {
    let change = |column: &str, before: &str, after: &str| FieldChange {
        column: column.to_string(),
        before: before.to_string(),
        after: after.to_string(),
    };
    let changes = vec![
        change("status", "active", "churned"),
        change("city", " ", "Berlin"),
        change("note", &"x".repeat(30), "y"),
        change("amount", "1", "2"),
    ];
    assert_eq!(
        changed_line("A\u{1}2", &changes),
        "A | 2  (status: active -> churned, city: (empty) -> Berlin, note: xxxxxxxxxxxxxxxxxxxxx... -> y)"
    );
    assert_eq!(changed_line("7", &changes[..1].to_vec()), "7  (status: active -> churned)");
}

fn one_change(column: &str, before: &str, after: &str) -> Vec<FieldChange> {
    vec![FieldChange { column: column.to_string(), before: before.to_string(), after: after.to_string() }]
}

#[test]
fn a_key_repeated_in_the_newer_file_compares_its_last_row() {
    let summary = compare(&["id,v", "1,a"], &["id,v", "1,a", "1,b"], &["id"], &[]);
    assert_eq!(summary.duplicate_keys_after, 1);
    assert!(summary.added.is_empty());
    assert_eq!(summary.changed, vec![("1".to_string(), one_change("v", "a", "b"))]);
    let back = compare(&["id,v", "1,a"], &["id,v", "1,b", "1,a"], &["id"], &[]);
    assert!(back.changed.is_empty() && back.added.is_empty());
}

#[test]
fn a_key_repeated_in_the_older_file_compares_its_last_row() {
    let summary = compare(&["id,v", "1,a", "1,b"], &["id,v", "1,c"], &["id"], &[]);
    assert_eq!(summary.duplicate_keys_before, 1);
    assert_eq!(summary.changed, vec![("1".to_string(), one_change("v", "b", "c"))]);
}

#[test]
fn a_malformed_row_is_flagged_not_diffed() {
    let summary = compare(
        &["id,name,city", "1,Smith,Berlin"],
        &["id,name,city", "1,Smith,John,Berlin"],
        &["id"],
        &[],
    );
    assert_eq!(summary.malformed_after, vec![(2, 4)]);
    assert!(summary.changed.is_empty() && summary.added.is_empty() && summary.removed.is_empty());
}

#[test]
fn cells_that_start_like_formulas_are_written_as_text() {
    let summary = compare(
        &["id,note,amount", "=1,,5", "2,x,-3"],
        &["id,note,amount", "=1,=1+1,5", "2,@cmd,+3"],
        &["id"],
        &[],
    );
    let records = out_records(&summary);
    // "2" sorts before "=1" by bytes
    assert_eq!(records[1], strings(&["changed", "2", "note", "x", "'@cmd"]));
    assert_eq!(records[2], strings(&["changed", "2", "amount", "'-3", "'+3"]));
    assert_eq!(records[3], strings(&["changed", "'=1", "note", "", "'=1+1"]));
    assert_eq!(records.len(), 4);
    for record in &records {
        for cell in record {
            assert!(!cell.starts_with(['=', '+', '-', '@']));
        }
    }
}

#[test]
fn a_section_shows_its_first_examples_and_counts_the_rest() {
    let lines = strings(&["a", "b", "c", "d"]);
    assert_eq!(examples(&lines, 2), (strings(&["a", "b"]), 2));
    assert_eq!(examples(&lines, 9), (lines.clone(), 0));
    assert_eq!(examples(&lines, 0), (Vec::new(), 4));
}

#[test]
fn the_first_three_malformed_rows_are_shown() {
    let summary = compare(
        &["id,v", "1,a,x", "2"],
        &["id,v", "1", "2,b,c", "3,c,d,e"],
        &["id"],
        &[],
    );
    assert_eq!(malformed_examples(&summary), vec![(2, 3), (3, 1), (2, 1)]);
}
