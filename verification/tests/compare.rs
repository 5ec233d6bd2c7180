use csvdiff::compare::{hash_of, FieldChange, Normalisation};
use csvdiff::number::number_literal;

fn strings(values: &[&str]) -> Vec<String> {
    values.iter().map(|value| value.to_string()).collect()
}

/// The number form of a cell, through a binary double as the program does.
fn number_form(value: &str) -> Option<String> {
    number_literal(value).map(|literal| {
        let number: f64 = literal.parse().expect("a decimal literal");
        let text = format!("{number:.6}");
        text.trim_end_matches('0').trim_end_matches('.').to_string()
    })
}

fn numbers(values: &[String]) -> Vec<Option<String>> {
    values.iter().map(|value| number_form(value)).collect()
}

fn normalise(value: &str, rules: Normalisation) -> String {
    csvdiff::compare::normalise(value, &number_form(value), rules)
}

fn changed_fields(
    columns: &[String],
    before: &[String],
    after: &[String],
    ignore: &[String],
    rules: Normalisation,
) -> Vec<FieldChange> {
    csvdiff::compare::changed_fields(columns, before, &numbers(before), after, &numbers(after), ignore, rules)
}

#[test]
fn the_same_number_written_three_ways_is_one_value() {
    let rules = Normalisation::sensible();
    let expected = normalise("1000", rules);
    assert_eq!(normalise("1000.00", rules), expected);
    assert_eq!(normalise("1,000.00", rules), expected);
    assert_eq!(normalise(" 1000 ", rules), expected);
}

#[test]
fn european_decimals_are_understood() {
    let rules = Normalisation::sensible();
    assert_eq!(normalise("1.234,56", rules), normalise("1234.56", rules));
    assert_eq!(normalise("0,50", rules), normalise("0.5", rules));
}

#[test]
fn money_keeps_its_cents() {
    let rules = Normalisation::sensible();
    assert_ne!(normalise("1000.00", rules), normalise("1000.01", rules));
    assert_ne!(normalise("0.1", rules), normalise("0.2", rules));
}

#[test]
fn text_that_contains_digits_is_not_a_number() {
    let rules = Normalisation::sensible();
    assert_eq!(normalise("12 units", rules), "12 units");
    assert_ne!(normalise("2026-08-22", rules), normalise("20260822", rules));
}

#[test]
fn the_many_spellings_of_empty_collapse() {
    let rules = Normalisation::sensible();
    for value in ["", "  ", "NULL", "null", "None", "NaN", "\\N"] {
        assert_eq!(normalise(value, rules), "", "{value:?} should be empty");
    }
}

#[test]
fn nulls_stay_distinct_when_normalisation_is_off() {
    let strict = Normalisation::default();
    assert_ne!(normalise("NULL", strict), normalise("", strict));
    assert_ne!(normalise("1000.00", strict), normalise("1000", strict));
}

#[test]
fn loose_text_only_applies_when_asked_for() {
    let sensible = Normalisation::sensible();
    let loose = Normalisation { loose_text: true, ..Normalisation::sensible() };
    assert_ne!(normalise("Acme GmbH", sensible), normalise("acme gmbh", sensible));
    assert_eq!(normalise("Acme GmbH", loose), normalise("acme gmbh", loose));
}

#[test]
fn field_comparison_names_what_moved() {
    let columns = strings(&["id", "status", "amount"]);
    let changes = changed_fields(
        &columns,
        &strings(&["1", "active", "1000"]),
        &strings(&["1", "churned", "1000.00"]),
        &[],
        Normalisation::sensible(),
    );
    assert_eq!(changes.len(), 1);
    assert_eq!(changes[0].column, "status");
    assert_eq!(changes[0].before, "active");
    assert_eq!(changes[0].after, "churned");
}

#[test]
fn ignored_columns_do_not_produce_changes() {
    let columns = strings(&["id", "updated_at", "status"]);
    let changes = changed_fields(
        &columns,
        &strings(&["1", "2026-08-01", "active"]),
        &strings(&["1", "2026-08-22", "active"]),
        &strings(&["UPDATED_AT"]), // matching is case-insensitive
        Normalisation::sensible(),
    );
    assert!(changes.is_empty());
}

#[test]
fn a_short_row_is_compared_as_if_the_missing_cells_were_empty() {
    let columns = strings(&["id", "email", "phone"]);
    let changes = changed_fields(
        &columns,
        &strings(&["1", "a@example.com"]),
        &strings(&["1", "a@example.com", "+49170"]),
        &[],
        Normalisation::sensible(),
    );
    assert_eq!(changes.len(), 1);
    assert_eq!(changes[0].column, "phone");
}

#[test]
fn row_hashes_do_not_collide_on_field_boundaries() {
    assert_ne!(hash_of(&strings(&["ab", "c"])), hash_of(&strings(&["a", "bc"])));
    assert_eq!(hash_of(&strings(&["a", "b"])), hash_of(&strings(&["a", "b"])));
}

// ---------------------------------------------------------------------------

#[test]
fn numbers_take_their_canonical_form() {
    let rules = Normalisation::sensible();
    assert_eq!(normalise("1000", rules), "1000");
    assert_eq!(normalise("1,000.00", rules), "1000");
    assert_eq!(normalise("1.234,56", rules), "1234.56");
    assert_eq!(normalise("0,50", rules), "0.5");
    assert_eq!(normalise("12,345", rules), "12345");
    assert_eq!(normalise("1,5", rules), "15");
    assert_eq!(normalise("1 000,5", rules), "10005");
    assert_eq!(normalise("+49170", rules), "49170");
    assert_eq!(normalise("-12.50", rules), "-12.5");
    assert_eq!(normalise("-0", rules), "-0");
    assert_eq!(normalise(".5", rules), "0.5");
    assert_eq!(normalise("5.", rules), "5");
    assert_eq!(normalise("00012", rules), "12");
    assert_eq!(normalise("0.000000", rules), "0");
}

#[test]
fn numbers_round_through_a_binary_double() {
    let rules = Normalisation::sensible();
    assert_eq!(normalise("1.2345678", rules), "1.234568");
    assert_eq!(normalise("1.2345674", rules), "1.234567");
    assert_eq!(normalise("1.9999999", rules), "2");
    assert_eq!(normalise("999.9999995", rules), "999.999999");
    assert_eq!(normalise("0.0000005", rules), "0");
    assert_eq!(normalise("0.0000015", rules), "0.000002");
    assert_eq!(normalise("0.00000050001", rules), "0.000001");
    assert_eq!(normalise("2.0000005", rules), "2.000001");
    assert_eq!(normalise("1.0000005", rules), "1.000001");
    assert_eq!(normalise("9007199254740993", rules), normalise("9007199254740992", rules));
}

#[test]
fn number_literals_are_plain_decimals() {
    assert_eq!(number_literal(" 1.234,56 "), Some("1234.56".to_string()));
    assert_eq!(number_literal("-5"), Some("-5.".to_string()));
    assert_eq!(number_literal("+49 170"), Some("49170.".to_string()));
    assert_eq!(number_literal(".5"), Some(".5".to_string()));
    assert_eq!(number_literal("12 units"), None);
    assert_eq!(number_literal(""), None);
}

#[test]
fn a_given_number_form_is_what_a_number_compares_as() {
    let rules = Normalisation::sensible();
    let form = Some("42".to_string());
    assert_eq!(csvdiff::compare::normalise(" 1,000.00 ", &form, rules), "42");
    assert_eq!(csvdiff::compare::normalise("abc", &form, rules), "abc");
    assert_eq!(csvdiff::compare::normalise("NULL", &form, rules), "");
    assert_eq!(csvdiff::compare::normalise("1000", &None, rules), "1000");
    assert_eq!(csvdiff::compare::normalise("1,000", &form, Normalisation::default()), "1,000");
}

#[test]
fn only_blank_and_null_cells_become_empty() {
    let loose = Normalisation { loose_text: true, ..Normalisation::sensible() };
    let keep_nulls = Normalisation { nulls: false, loose_text: true, ..Normalisation::sensible() };
    assert_eq!(normalise("  ", loose), "");
    assert_eq!(normalise("None", loose), "");
    assert_eq!(normalise("x", loose), "x");
    assert_eq!(normalise("NULL", keep_nulls), "null");
    assert_eq!(normalise(" ", keep_nulls), "");
}

#[test]
fn one_more_ignored_column_only_drops_its_changes() {
    let columns = strings(&["id", "Status", "city"]);
    let before = strings(&["1", "a", "X"]);
    let after = strings(&["1", "b", "Y"]);
    let rules = Normalisation::sensible();
    let all = changed_fields(&columns, &before, &after, &[], rules);
    let fewer = changed_fields(&columns, &before, &after, &strings(&["STATUS"]), rules);
    assert_eq!(all.len(), 2);
    assert_eq!(fewer, vec![all[1].clone()]);
}

#[test]
fn money_with_up_to_six_places_keeps_every_place() {
    let rules = Normalisation::sensible();
    assert_ne!(normalise("0.000001", rules), normalise("0", rules));
    assert_ne!(normalise("1000.00", rules), normalise("1000.01", rules));
    assert_eq!(normalise("1000.000000", rules), normalise("1000", rules));
}

#[test]
fn text_that_is_no_number_stays_as_written() {
    let rules = Normalisation::sensible();
    assert_eq!(normalise("1.2.3", rules), "1.2.3");
    assert_eq!(normalise("--1", rules), "--1");
    assert_eq!(normalise(".", rules), ".");
    assert_eq!(normalise("1e5", rules), "1e5");
    assert_eq!(normalise("  Acme GmbH\t", rules), "Acme GmbH");
}

#[test]
fn strict_rules_only_trim() {
    let strict = Normalisation::default();
    assert_eq!(normalise("  1,000.00 ", strict), "1,000.00");
    assert_eq!(normalise(" NULL ", strict), "NULL");
    assert_eq!(normalise("\u{a0}x\u{3000}", strict), "x");
}

#[test]
fn loose_text_is_unicode_lower_case() {
    let loose = Normalisation { loose_text: true, ..Normalisation::sensible() };
    assert_eq!(normalise(" ÄBC Straße ", loose), "äbc straße");
    assert_eq!(normalise("1,000.00", loose), "1000");
}

#[test]
fn unicode_whitespace_is_trimmed_before_nulls_are_seen() {
    let rules = Normalisation::sensible();
    assert_eq!(normalise("\u{2003}null\u{a0}", rules), "");
    assert_eq!(normalise("nil", rules), "");
    assert_eq!(normalise("NONE", rules), "");
}

#[test]
fn a_row_compared_with_itself_has_no_changes() {
    let columns = strings(&["id", "amount", "note"]);
    let row = strings(&["7", "1,000.50", "hello"]);
    assert!(changed_fields(&columns, &row, &row, &[], Normalisation::default()).is_empty());
}

#[test]
fn every_differing_column_is_reported_in_order() {
    let columns = strings(&["id", "a", "b", "c"]);
    let changes = changed_fields(
        &columns,
        &strings(&["1", "x", "2", "NULL"]),
        &strings(&["1", "y", "2.00", "q"]),
        &[],
        Normalisation::sensible(),
    );
    let moved: Vec<&str> = changes.iter().map(|c| c.column.as_str()).collect();
    assert_eq!(moved, vec!["a", "c"]);
    assert_eq!(changes[1].before, "NULL");
    assert_eq!(changes[1].after, "q");
}

#[test]
fn hashes_depend_on_order_and_values() {
    assert_ne!(hash_of(&strings(&["a", "b"])), hash_of(&strings(&["b", "a"])));
    assert_ne!(hash_of(&strings(&["a"])), hash_of(&strings(&["a", ""])));
}
