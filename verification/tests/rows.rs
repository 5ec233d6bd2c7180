use csvdiff::compare::Normalisation;
use csvdiff::rows::{
    column_list, column_set_changes, display_key, header, key_of, rules_for, short,
};

fn strings(values: &[&str]) -> Vec<String> {
    values.iter().map(|value| value.to_string()).collect()
}

/// The comparable values of a row, numbers taken through a binary double as
/// the program does.
fn comparable(fields: &[String], columns: &[String], ignore: &[String], rules: Normalisation) -> Vec<String> {
    let numbers: Vec<Option<String>> = fields
        .iter()
        .map(|value| {
            csvdiff::number::number_literal(value).map(|literal| {
                let number: f64 = literal.parse().expect("a decimal literal");
                let text = format!("{number:.6}");
                text.trim_end_matches('0').trim_end_matches('.').to_string()
            })
        })
        .collect();
    csvdiff::rows::comparable(fields, &numbers, columns, ignore, rules)
}

#[test]
fn composite_keys_are_joined_unambiguously() {
    let record = strings(&["A|B", "C", "x"]);
    let single = key_of(&record, &[0]);
    let composite = key_of(&record, &[0, 1]);
    // A literal "|" inside a value must not look like a key separator.
    assert_ne!(single, composite);
    assert_eq!(display_key(&composite), "A|B | C");
}

#[test]
fn long_values_are_shortened_for_the_summary() {
    assert_eq!(short(""), "(empty)");
    assert_eq!(short("short"), "short");
    assert_eq!(short(&"x".repeat(40)).len(), 24);
}

// ---------------------------------------------------------------------------

#[test]
fn shortening_keeps_21_characters_and_an_ellipsis() {
    assert_eq!(short(&"é".repeat(30)), format!("{}...", "é".repeat(21)));
    assert_eq!(short(&"y".repeat(24)), "y".repeat(24));
    assert_eq!(short("   "), "(empty)");
    assert_eq!(short("  padded  "), "padded");
}

#[test]
fn keys_trim_their_parts_and_treat_missing_cells_as_empty() {
    let record = strings(&[" 1 ", "b"]);
    assert_eq!(key_of(&record, &[0]), "1");
    assert_eq!(key_of(&record, &[0, 5]), "1\u{1}");
    assert_eq!(key_of(&record, &[]), "");
    assert_eq!(display_key("1\u{1}2\u{1}3"), "1 | 2 | 3");
}

#[test]
fn column_lists_are_split_trimmed_and_cleaned() {
    assert_eq!(column_list("order_id, line_no"), strings(&["order_id", "line_no"]));
    assert_eq!(column_list(" a ,, b ,"), strings(&["a", "b"]));
    assert!(column_list("").is_empty());
    assert!(column_list(" , ").is_empty());
}

#[test]
fn headers_find_key_columns_ignoring_case() {
    let raw = strings(&[" ID ", "Status", "id"]);
    let rows = match header(&raw, &strings(&["id", "STATUS"])) {
        Ok(rows) => rows,
        Err(_) => panic!("the key columns are there"),
    };
    assert_eq!(rows.columns, strings(&["ID", "Status", "id"]));
    assert_eq!(rows.key_indexes, vec![0, 1]);
}

#[test]
fn a_missing_key_column_is_named() {
    let raw = strings(&["id", "status"]);
    match header(&raw, &strings(&["id", "order", "other"])) {
        Ok(_) => panic!("there is no column named order"),
        Err(missing) => assert_eq!(missing.name, "order"),
    }
}

#[test]
fn ignored_columns_leave_the_comparable_values() {
    let columns = strings(&["id", "updated_at", "amount"]);
    let forms = comparable(
        &strings(&["1", "2026", "1,000.00"]),
        &columns,
        &strings(&["Updated_At"]),
        Normalisation::sensible(),
    );
    assert_eq!(forms, strings(&["1", "1000"]));
}

#[test]
fn strict_comparisons_switch_every_rule_off() {
    let strict = rules_for(true, true);
    assert!(!strict.numbers && !strict.nulls && !strict.loose_text);
    let loose = rules_for(false, true);
    assert!(loose.numbers && loose.nulls && loose.loose_text);
    let sensible = rules_for(false, false);
    assert!(sensible.numbers && sensible.nulls && !sensible.loose_text);
}

#[test]
fn column_set_changes_list_both_sides() {
    let (added, removed) =
        column_set_changes(&strings(&["id", "a", "b"]), &strings(&["id", "b", "c"]));
    assert_eq!(added, strings(&["c"]));
    assert_eq!(removed, strings(&["a"]));
}

#[test]
fn keys_of_different_parts_differ() {
    let indexes = [0usize, 1];
    let first = key_of(&strings(&["AB", "C"]), &indexes);
    let second = key_of(&strings(&["A", "BC"]), &indexes);
    assert_ne!(first, second);
    let padded = key_of(&strings(&[" AB ", "C "]), &indexes);
    assert_eq!(first, padded);
}

#[test]
fn rows_differing_only_in_ignored_columns_compare_alike() {
    let columns = strings(&["id", "updated_at", "amount"]);
    let ignore = strings(&["Updated_At"]);
    let rules = Normalisation::sensible();
    let one = comparable(&strings(&["1", "2026-01-01", "1000"]), &columns, &ignore, rules);
    let two = comparable(&strings(&["1", "2026-12-31", "1,000.00"]), &columns, &ignore, rules);
    assert_eq!(one, two);
}
