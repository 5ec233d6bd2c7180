//! Rows of an export: which columns form the key, the key of a row, the
//! values of a row that take part in the comparison, and how keys and values
//! are shown in a report.

use vstd::prelude::*;
use crate::compare::{
    Normalisation, cell, form_at, form_view, forms_view, ignored, is_ignored, normalise, normalised,
    texts,
};
use crate::text::{
    chars_of, eq_ignoring_ascii_case, same_ignoring_ascii_case, string_of, sub_chars, trim,
    trim_chars,
};

verus! {

/// The pieces of `s` between the separators `sep`; there is always at least
/// one, possibly empty.
pub open spec fn split_on(s: Seq<char>, sep: char) -> Seq<Seq<char>>
    decreases s.len(),
{
    if s.len() == 0 {
        seq![Seq::empty()]
    } else {
        let pieces = split_on(s.drop_last(), sep);
        if s.last() == sep {
            pieces.push(Seq::empty())
        } else {
            pieces.update(pieces.len() - 1, pieces.last().push(s.last()))
        }
    }
}

/// The pieces, trimmed, without those that are then empty.
pub open spec fn trimmed_nonempty(pieces: Seq<Seq<char>>) -> Seq<Seq<char>>
    decreases pieces.len(),
{
    if pieces.len() == 0 {
        Seq::empty()
    } else {
        let earlier = trimmed_nonempty(pieces.drop_last());
        if trim(pieces.last()).len() > 0 {
            earlier.push(trim(pieces.last()))
        } else {
            earlier
        }
    }
}

/// The column names in a comma-separated list such as `order_id, line_no`.
pub open spec fn column_names(list: Seq<char>) -> Seq<Seq<char>> {
    trimmed_nonempty(split_on(list, ','))
}

proof fn lemma_split_on_nonempty(s: Seq<char>, sep: char)
    ensures
        split_on(s, sep).len() > 0,
    decreases s.len(),
{
    if s.len() > 0 {
        lemma_split_on_nonempty(s.drop_last(), sep);
    }
}

/// The column names in a comma-separated list, trimmed, empty ones left out.
pub fn column_list(list: &str) -> (names: Vec<String>)
    ensures
        texts(names@) == column_names(list@),
{
    let chars = chars_of(list);
    let mut names: Vec<String> = Vec::new();
    let mut piece: Vec<char> = Vec::new();
    let mut i: usize = 0;
    while i < chars.len()
        invariant
            i <= chars@.len(),
            chars@ == list@,
            split_on(chars@.take(i as int), ',').len() > 0,
            piece@ == split_on(chars@.take(i as int), ',').last(),
            texts(names@) == trimmed_nonempty(split_on(chars@.take(i as int), ',').drop_last()),
        decreases chars@.len() - i,
    {
        let ghost before = split_on(chars@.take(i as int), ',');
        proof {
            assert(chars@.take(i + 1).drop_last() =~= chars@.take(i as int));
        }
        let c = chars[i];
        if c == ',' {
            let t = trim_chars(&piece);
            if t.len() > 0 {
                names.push(string_of(&t));
            }
            piece = Vec::new();
            proof {
                let after = split_on(chars@.take(i + 1), ',');
                assert(after == before.push(Seq::empty()));
                assert(after.drop_last() =~= before);
                assert(before =~= before.drop_last().push(before.last()));
                assert(texts(names@) =~= trimmed_nonempty(before));
            }
        } else {
            piece.push(c);
            proof {
                let after = split_on(chars@.take(i + 1), ',');
                assert(after.drop_last() =~= before.drop_last());
            }
        }
        i = i + 1;
    }
    let t = trim_chars(&piece);
    if t.len() > 0 {
        names.push(string_of(&t));
    }
    proof {
        assert(chars@.take(chars@.len() as int) =~= chars@);
        let all = split_on(chars@, ',');
        assert(all =~= all.drop_last().push(all.last()));
        assert(texts(names@) =~= trimmed_nonempty(all));
    }
    names
}

/// The rules for a comparison: every rule off for a strict one, otherwise
/// the sensible ones, with text compared loosely when asked for.
pub fn rules_for(strict: bool, loose_text: bool) -> (rules: Normalisation)
    ensures
        strict ==> !rules.numbers && !rules.nulls && !rules.loose_text,
        !strict ==> rules.numbers && rules.nulls && rules.loose_text == loose_text,
{
    if strict {
        Normalisation { numbers: false, nulls: false, loose_text: false }
    } else {
        Normalisation { numbers: true, nulls: true, loose_text }
    }
}

/// The position of the first column whose name is `name`, ignoring ASCII
/// case, or the number of columns when there is none.
pub open spec fn first_match(columns: Seq<Seq<char>>, name: Seq<char>) -> int
    decreases columns.len(),
{
    if columns.len() == 0 {
        0
    } else if same_ignoring_ascii_case(columns[0], name) {
        0
    } else {
        1 + first_match(columns.drop_first(), name)
    }
}

proof fn lemma_first_match_at(columns: Seq<Seq<char>>, name: Seq<char>, k: int)
    requires
        0 <= k <= columns.len(),
        forall|j: int| 0 <= j < k ==> !same_ignoring_ascii_case(#[trigger] columns[j], name),
        k == columns.len() || same_ignoring_ascii_case(columns[k], name),
    ensures
        first_match(columns, name) == k,
    decreases k,
{
    if k > 0 {
        let rest = columns.drop_first();
        assert forall|j: int| 0 <= j < k - 1 implies !same_ignoring_ascii_case(
            #[trigger] rest[j],
            name,
        ) by {
            assert(rest[j] == columns[j + 1]);
        }
        if k - 1 < rest.len() {
            assert(rest[k - 1] == columns[k]);
        }
        lemma_first_match_at(rest, name, k - 1);
        assert(!same_ignoring_ascii_case(columns[0], name));
    }
}

/// The header of an export: its column names, trimmed, and the positions of
/// the key columns among them.
pub struct Rows {
    pub columns: Vec<String>,
    pub key_indexes: Vec<usize>,
}

/// A key column that the header does not have.
pub struct MissingColumn {
    pub name: String,
}

/// The trimmed texts of a list of strings.
pub open spec fn trimmed_texts(values: Seq<String>) -> Seq<Seq<char>> {
    values.map_values(|v: String| trim(v@))
}

/// The position of the column named `name`, ignoring ASCII case.
fn position_of(columns: &Vec<String>, name: &str) -> (p: usize)
    ensures
        p == first_match(texts(columns@), name@),
        p <= columns@.len(),
{
    let mut j: usize = 0;
    while j < columns.len()
        invariant
            j <= columns@.len(),
            forall|m: int| 0 <= m < j ==> !same_ignoring_ascii_case(
                #[trigger] texts(columns@)[m],
                name@,
            ),
        decreases columns@.len() - j,
    {
        if eq_ignoring_ascii_case(columns[j].as_str(), name) {
            proof {
                lemma_first_match_at(texts(columns@), name@, j as int);
            }
            return j;
        }
        j = j + 1;
    }
    proof {
        lemma_first_match_at(texts(columns@), name@, j as int);
    }
    j
}

/// Reads a header: trims the column names and finds each key column, the
/// first one of that name, ignoring ASCII case. Fails with the first key
/// column that is not there.
pub fn header(raw_columns: &[String], key: &[String]) -> (r: Result<Rows, MissingColumn>)
    ensures
        match r {
            Ok(rows) => {
                &&& texts(rows.columns@) == trimmed_texts(raw_columns@)
                &&& rows.key_indexes@.len() == key@.len()
                &&& forall|k: int|
                    0 <= k < key@.len() ==> #[trigger] rows.key_indexes@[k] == first_match(
                        trimmed_texts(raw_columns@),
                        key@[k]@,
                    ) && rows.key_indexes@[k] < raw_columns@.len()
            },
            Err(missing) => exists|k: int|
                0 <= k < key@.len() && missing.name@ == key@[k]@ && first_match(
                    trimmed_texts(raw_columns@),
                    key@[k]@,
                ) == raw_columns@.len() && forall|m: int|
                    0 <= m < k ==> first_match(trimmed_texts(raw_columns@), #[trigger] key@[m]@)
                        < raw_columns@.len(),
        },
{
    let mut columns: Vec<String> = Vec::new();
    let mut i: usize = 0;
    while i < raw_columns.len()
        invariant
            i <= raw_columns@.len(),
            texts(columns@) == trimmed_texts(raw_columns@).take(i as int),
        decreases raw_columns@.len() - i,
    {
        let t = string_of(&trim_chars(&chars_of(raw_columns[i].as_str())));
        let ghost earlier = columns@;
        columns.push(t);
        proof {
            assert(t@ == trim(raw_columns@[i as int]@));
            assert(texts(columns@) =~= texts(earlier).push(t@));
            assert(trimmed_texts(raw_columns@).take(i + 1) =~= trimmed_texts(raw_columns@).take(
                i as int,
            ).push(trim(raw_columns@[i as int]@)));
        }
        i = i + 1;
    }
    proof {
        assert(trimmed_texts(raw_columns@).take(raw_columns@.len() as int) =~= trimmed_texts(
            raw_columns@,
        ));
    }
    let ghost cols = trimmed_texts(raw_columns@);
    let mut key_indexes: Vec<usize> = Vec::new();
    let mut k: usize = 0;
    while k < key.len()
        invariant
            k <= key@.len(),
            texts(columns@) == cols,
            cols.len() == raw_columns@.len(),
            cols == trimmed_texts(raw_columns@),
            key_indexes@.len() == k,
            forall|m: int|
                0 <= m < k ==> #[trigger] key_indexes@[m] == first_match(cols, key@[m]@)
                    && key_indexes@[m] < cols.len(),
        decreases key@.len() - k,
    {
        let p = position_of(&columns, key[k].as_str());
        if p == columns.len() {
            let name = key[k].clone();
            proof {
                assert forall|m: int| 0 <= m < k implies first_match(cols, #[trigger] key@[m]@)
                    < raw_columns@.len() by {
                    assert(key_indexes@[m] == first_match(cols, key@[m]@));
                }
            }
            return Err(MissingColumn { name });
        }
        let ghost earlier = key_indexes@;
        key_indexes.push(p);
        proof {
            assert forall|m: int| 0 <= m < k + 1 implies #[trigger] key_indexes@[m] == first_match(
                cols,
                key@[m]@,
            ) && key_indexes@[m] < cols.len() by {
                if m < k {
                    assert(key_indexes@[m] == earlier[m]);
                }
            }
        }
        k = k + 1;
    }
    Ok(Rows { columns, key_indexes })
}

/// The separator between the parts of a key of several columns; it does not
/// occur in ordinary text.
pub open spec fn key_separator() -> char {
    '\u{1}'
}

/// The parts joined, with `sep` between them.
pub open spec fn join(parts: Seq<Seq<char>>, sep: char) -> Seq<char>
    decreases parts.len(),
{
    if parts.len() == 0 {
        Seq::empty()
    } else if parts.len() == 1 {
        parts[0]
    } else {
        join(parts.drop_last(), sep) + seq![sep] + parts.last()
    }
}

/// The key of a row: the trimmed cells of the key columns, joined with the
/// key separator; a cell missing from a short row counts as empty.
pub open spec fn row_key(fields: Seq<Seq<char>>, indexes: Seq<usize>) -> Seq<char> {
    join(indexes.map_values(|i: usize| trim(cell(fields, i as int))), key_separator())
}

/// The key of a row.
pub fn key_of(fields: &[String], indexes: &[usize]) -> (key: String)
    ensures
        key@ == row_key(texts(fields@), indexes@),
{
    let ghost parts = indexes@.map_values(|i: usize| trim(cell(texts(fields@), i as int)));
    let mut key: Vec<char> = Vec::new();
    let mut k: usize = 0;
    while k < indexes.len()
        invariant
            k <= indexes@.len(),
            parts == indexes@.map_values(|i: usize| trim(cell(texts(fields@), i as int))),
            key@ == join(parts.take(k as int), key_separator()),
        decreases indexes@.len() - k,
    {
        let index = indexes[k];
        let value: Vec<char> = if index < fields.len() {
            trim_chars(&chars_of(fields[index].as_str()))
        } else {
            Vec::new()
        };
        assert(value@ == parts[k as int]);
        let ghost earlier = key@;
        if k > 0 {
            key.push('\u{1}');
        }
        let mut m: usize = 0;
        while m < value.len()
            invariant
                m <= value@.len(),
                key@ == (if k > 0 {
                    earlier + seq![key_separator()]
                } else {
                    earlier
                }) + value@.take(m as int),
            decreases value@.len() - m,
        {
            key.push(value[m]);
            proof {
                assert(value@.take(m + 1) =~= value@.take(m as int).push(value@[m as int]));
            }
            m = m + 1;
        }
        proof {
            assert(value@.take(value@.len() as int) =~= value@);
            let done = parts.take(k + 1);
            assert(done.drop_last() =~= parts.take(k as int));
            if k == 0 {
                assert(parts.take(0).len() == 0);
                assert(key@ =~= done[0]);
            } else {
                assert(key@ =~= join(parts.take(k as int), key_separator()) + seq![key_separator()]
                    + done.last());
            }
        }
        k = k + 1;
    }
    proof {
        assert(parts.take(indexes@.len() as int) =~= parts);
    }
    string_of(&key)
}

/// The values of a row that take part in the comparison: for each column
/// that is not ignored, in order, the normalised cell, with its number form.
pub open spec fn comparable_forms(
    columns: Seq<Seq<char>>,
    fields: Seq<Seq<char>>,
    numbers: Seq<Option<Seq<char>>>,
    ignore: Seq<Seq<char>>,
    rules: Normalisation,
) -> Seq<Seq<char>>
    decreases columns.len(),
{
    if columns.len() == 0 {
        Seq::empty()
    } else {
        let i = columns.len() - 1;
        let earlier = comparable_forms(columns.drop_last(), fields, numbers, ignore, rules);
        if is_ignored(ignore, columns[i]) {
            earlier
        } else {
            earlier.push(normalised(cell(fields, i), form_at(numbers, i), rules))
        }
    }
}

/// The normalised values of the columns that are not ignored, in column
/// order, so that ignored columns never make two rows differ; `numbers` holds
/// the number forms of the cells.
pub fn comparable(
    fields: &[String],
    numbers: &[Option<String>],
    columns: &[String],
    ignore: &[String],
    rules: Normalisation,
) -> (forms: Vec<String>)
    ensures
        texts(forms@) == comparable_forms(
            texts(columns@),
            texts(fields@),
            forms_view(numbers@),
            texts(ignore@),
            rules,
        ),
{
    let mut forms: Vec<String> = Vec::new();
    let empty = String::new();
    let none: Option<String> = None;
    let mut index: usize = 0;
    while index < columns.len()
        invariant
            index <= columns@.len(),
            empty@ == Seq::<char>::empty(),
            none is None,
            texts(forms@) == comparable_forms(
                texts(columns@).take(index as int),
                texts(fields@),
                forms_view(numbers@),
                texts(ignore@),
                rules,
            ),
        decreases columns@.len() - index,
    {
        proof {
            let done = texts(columns@).take(index + 1);
            assert(done.drop_last() =~= texts(columns@).take(index as int));
            assert(done[index as int] == columns@[index as int]@);
        }
        if !ignored(ignore, columns[index].as_str()) {
            let value: &str = if index < fields.len() {
                fields[index].as_str()
            } else {
                empty.as_str()
            };
            let number: &Option<String> = if index < numbers.len() {
                &numbers[index]
            } else {
                &none
            };
            assert(value@ == cell(texts(fields@), index as int));
            assert(form_view(*number) == form_at(forms_view(numbers@), index as int));
            let form = normalise(value, number, rules);
            let ghost earlier = forms@;
            forms.push(form);
            proof {
                assert(texts(forms@) =~= texts(earlier).push(form@));
            }
        }
        index = index + 1;
    }
    proof {
        assert(texts(columns@).take(columns@.len() as int) =~= texts(columns@));
    }
    forms
}

/// How a value is shown in a summary: trimmed, `(empty)` when nothing is
/// left, and cut to 21 characters and `...` when longer than 24.
pub open spec fn shortened(value: Seq<char>) -> Seq<char> {
    let t = trim(value);
    if t.len() == 0 {
        seq!['(', 'e', 'm', 'p', 't', 'y', ')']
    } else if t.len() > 24 {
        t.take(21) + seq!['.', '.', '.']
    } else {
        t
    }
}

/// A value as shown in a summary.
pub fn short(value: &str) -> (shown: String)
    ensures
        shown@ == shortened(value@),
{
    let t = trim_chars(&chars_of(value));
    if t.len() == 0 {
        let mut v: Vec<char> = Vec::new();
        v.push('(');
        v.push('e');
        v.push('m');
        v.push('p');
        v.push('t');
        v.push('y');
        v.push(')');
        proof {
            assert(v@ =~= seq!['(', 'e', 'm', 'p', 't', 'y', ')']);
        }
        return string_of(&v);
    }
    if t.len() > 24 {
        let mut v = sub_chars(&t, 0, 21);
        v.push('.');
        v.push('.');
        v.push('.');
        proof {
            assert(t@.subrange(0, 21) =~= t@.take(21));
            assert(v@ =~= t@.take(21) + seq!['.', '.', '.']);
        }
        return string_of(&v);
    }
    string_of(&t)
}

/// A key as shown in a report: the separators between its parts written as
/// ` | `.
pub open spec fn shown_key(key: Seq<char>) -> Seq<char>
    decreases key.len(),
{
    if key.len() == 0 {
        Seq::empty()
    } else {
        shown_key(key.drop_last()) + if key.last() == key_separator() {
            seq![' ', '|', ' ']
        } else {
            seq![key.last()]
        }
    }
}

/// A key as shown in a report.
pub fn display_key(key: &str) -> (shown: String)
    ensures
        shown@ == shown_key(key@),
{
    let chars = chars_of(key);
    let mut v: Vec<char> = Vec::new();
    let mut i: usize = 0;
    while i < chars.len()
        invariant
            i <= chars@.len(),
            v@ == shown_key(chars@.take(i as int)),
        decreases chars@.len() - i,
    {
        proof {
            assert(chars@.take(i + 1).drop_last() =~= chars@.take(i as int));
        }
        let ghost earlier = v@;
        if chars[i] == '\u{1}' {
            v.push(' ');
            v.push('|');
            v.push(' ');
            proof {
                assert(v@ =~= earlier + seq![' ', '|', ' ']);
            }
        } else {
            v.push(chars[i]);
            proof {
                assert(v@ =~= earlier + seq![chars@[i as int]]);
            }
        }
        i = i + 1;
    }
    proof {
        assert(chars@.take(chars@.len() as int) =~= chars@);
    }
    string_of(&v)
}

/// The names in `names` that `others` does not hold, in order.
pub open spec fn not_in(names: Seq<Seq<char>>, others: Seq<Seq<char>>) -> Seq<Seq<char>>
    decreases names.len(),
{
    if names.len() == 0 {
        Seq::empty()
    } else {
        let earlier = not_in(names.drop_last(), others);
        if others.contains(names.last()) {
            earlier
        } else {
            earlier.push(names.last())
        }
    }
}

fn contains_text(others: &[String], name: &String) -> (b: bool)
    ensures
        b == texts(others@).contains(name@),
{
    let mut j: usize = 0;
    while j < others.len()
        invariant
            j <= others@.len(),
            forall|m: int| 0 <= m < j ==> others@[m]@ != name@,
        decreases others@.len() - j,
    {
        if others[j] == *name {
            proof {
                assert(texts(others@)[j as int] == name@);
            }
            return true;
        }
        j = j + 1;
    }
    proof {
        assert forall|m: int| 0 <= m < texts(others@).len() implies texts(others@)[m] != name@ by {
            assert(texts(others@)[m] == others@[m]@);
        }
    }
    false
}

/// The names in `names` that `others` does not hold, in order.
fn names_not_in(names: &[String], others: &[String]) -> (missing: Vec<String>)
    ensures
        texts(missing@) == not_in(texts(names@), texts(others@)),
{
    let mut missing: Vec<String> = Vec::new();
    let mut i: usize = 0;
    while i < names.len()
        invariant
            i <= names@.len(),
            texts(missing@) == not_in(texts(names@).take(i as int), texts(others@)),
        decreases names@.len() - i,
    {
        proof {
            let done = texts(names@).take(i + 1);
            assert(done.drop_last() =~= texts(names@).take(i as int));
            assert(done.last() == names@[i as int]@);
        }
        if !contains_text(others, &names[i]) {
            let ghost earlier = missing@;
            missing.push(names[i].clone());
            proof {
                assert(texts(missing@) =~= texts(earlier).push(names@[i as int]@));
            }
        }
        i = i + 1;
    }
    proof {
        assert(texts(names@).take(names@.len() as int) =~= texts(names@));
    }
    missing
}

/// How the columns of two exports differ: the columns only the newer one
/// has, and those only the older one has, each in their file's order.
pub fn column_set_changes(before: &[String], after: &[String]) -> (r: (Vec<String>, Vec<String>))
    ensures
        texts(r.0@) == not_in(texts(after@), texts(before@)),
        texts(r.1@) == not_in(texts(before@), texts(after@)),
{
    (names_not_in(after, before), names_not_in(before, after))
}

} // verus!
