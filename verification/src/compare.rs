//! Comparing values and rows.
//!
//! The hard part of diffing exports is not the diff, it is deciding what counts
//! as a change. Two systems write the same number as `1000`, `1000.00` and
//! `1,000.00`; the same empty cell as ``, ` `, `NULL` and `\N`. Reporting those
//! as differences buries the changes that matter.

use vstd::prelude::*;
use std::collections::hash_map::DefaultHasher;
use std::hash::Hasher;
use vstd::std_specs::hash::DefaultHasherAdditionalSpecFns;
use vstd::utf8::encode_utf8;
use crate::laws::lemma_empty_exactly_for_null_spellings;
use crate::number::{number_parts, number_parts_exec};
use crate::text::{
    ascii_lower, ascii_lower_chars, chars_of, eq_ignoring_ascii_case, same_ignoring_ascii_case,
    string_of, to_lowercase, trim, trim_chars, unicode_lower,
};

verus! {

/// Which kinds of spelling differences are not reported as changes.
#[derive(Debug, Clone, Copy)]
pub struct Normalisation {
    /// Treat 1000, 1000.00 and 1,000.00 as the same value.
    pub numbers: bool,
    /// Treat empty, whitespace, NULL, NaN and \N as the same value.
    pub nulls: bool,
    /// Ignore case and surrounding whitespace in text.
    pub loose_text: bool,
}

impl Normalisation {
    /// What most people mean by "did this row change?".
    pub fn sensible() -> (rules: Self)
        ensures
            rules.numbers,
            rules.nulls,
            !rules.loose_text,
    {
        Normalisation { numbers: true, nulls: true, loose_text: false }
    }
}

impl Default for Normalisation {
    /// Every rule off: values are compared as written, without surrounding
    /// whitespace.
    fn default() -> (rules: Self)
        ensures
            !rules.numbers,
            !rules.nulls,
            !rules.loose_text,
    {
        Normalisation { numbers: false, nulls: false, loose_text: false }
    }
}

/// The spellings of an empty cell, ignoring ASCII case: nothing, `null`,
/// `nil`, `none`, `nan` and `\N`.
pub open spec fn is_null_spelling(t: Seq<char>) -> bool {
    let l = ascii_lower(t);
    ||| l.len() == 0
    ||| l == seq!['n', 'u', 'l', 'l']
    ||| l == seq!['n', 'i', 'l']
    ||| l == seq!['n', 'o', 'n', 'e']
    ||| l == seq!['n', 'a', 'n']
    ||| l == seq!['\\', 'n']
}

/// What a number cell compares as, when the caller has computed it: the
/// text of the number after rounding through a binary double, as written to
/// six decimal places with trailing zeros and point taken off. It is computed
/// outside this library, with floating point, from the cell's plain decimal
/// literal (`number_literal`); `None` where it was not given.
pub open spec fn form_view(form: Option<String>) -> Option<Seq<char>> {
    match form {
        Some(f) => Some(f@),
        None => None,
    }
}

/// The number forms of a row's cells.
pub open spec fn forms_view(forms: Seq<Option<String>>) -> Seq<Option<Seq<char>>> {
    forms.map_values(|f: Option<String>| form_view(f))
}

/// The number form of the cell at `index`, or none where the row is short.
pub open spec fn form_at(forms: Seq<Option<Seq<char>>>, index: int) -> Option<Seq<char>> {
    if 0 <= index < forms.len() {
        forms[index]
    } else {
        None
    }
}

/// The form of a cell used for comparison. Surrounding whitespace never
/// counts. Under `nulls`, every spelling of an empty cell becomes the empty
/// text. Under `numbers`, a number becomes its number form `number`, when
/// given. Under `loose_text`, other text is put in lower case.
pub open spec fn normalised(value: Seq<char>, number: Option<Seq<char>>, rules: Normalisation) -> Seq<char> {
    let t = trim(value);
    if rules.nulls && is_null_spelling(t) {
        Seq::empty()
    } else if rules.numbers && number_parts(t) is Some && number is Some {
        number->0
    } else if rules.loose_text {
        unicode_lower(t)
    } else {
        t
    }
}

fn is_null_spelling_exec(t: &Vec<char>) -> (b: bool)
    ensures
        b == is_null_spelling(t@),
{
    let l = ascii_lower_chars(t);
    let n = l.len();
    proof {
        if n == 2 {
            assert(l@ == seq!['\\', 'n'] <==> (l@[0] == '\\' && l@[1] == 'n')) by {
                if l@[0] == '\\' && l@[1] == 'n' {
                    assert(l@ =~= seq!['\\', 'n']);
                }
            }
        }
        if n == 3 {
            assert(l@ == seq!['n', 'i', 'l'] <==> (l@[0] == 'n' && l@[1] == 'i' && l@[2] == 'l'))
                by {
                if l@[0] == 'n' && l@[1] == 'i' && l@[2] == 'l' {
                    assert(l@ =~= seq!['n', 'i', 'l']);
                }
            }
            assert(l@ == seq!['n', 'a', 'n'] <==> (l@[0] == 'n' && l@[1] == 'a' && l@[2] == 'n'))
                by {
                if l@[0] == 'n' && l@[1] == 'a' && l@[2] == 'n' {
                    assert(l@ =~= seq!['n', 'a', 'n']);
                }
            }
        }
        if n == 4 {
            assert(l@ == seq!['n', 'u', 'l', 'l'] <==> (l@[0] == 'n' && l@[1] == 'u' && l@[2]
                == 'l' && l@[3] == 'l')) by {
                if l@[0] == 'n' && l@[1] == 'u' && l@[2] == 'l' && l@[3] == 'l' {
                    assert(l@ =~= seq!['n', 'u', 'l', 'l']);
                }
            }
            assert(l@ == seq!['n', 'o', 'n', 'e'] <==> (l@[0] == 'n' && l@[1] == 'o' && l@[2]
                == 'n' && l@[3] == 'e')) by {
                if l@[0] == 'n' && l@[1] == 'o' && l@[2] == 'n' && l@[3] == 'e' {
                    assert(l@ =~= seq!['n', 'o', 'n', 'e']);
                }
            }
        }
    }
    if n == 0 {
        true
    } else if n == 2 {
        l[0] == '\\' && l[1] == 'n'
    } else if n == 3 {
        (l[0] == 'n' && l[1] == 'i' && l[2] == 'l') || (l[0] == 'n' && l[1] == 'a' && l[2] == 'n')
    } else if n == 4 {
        (l[0] == 'n' && l[1] == 'u' && l[2] == 'l' && l[3] == 'l') || (l[0] == 'n' && l[1] == 'o'
            && l[2] == 'n' && l[3] == 'e')
    } else {
        false
    }
}

/// Reduce a cell to the form used for comparison; `number` is the cell's
/// number form, where it holds a number.
pub fn normalise(value: &str, number: &Option<String>, rules: Normalisation) -> (form: String)
    ensures
        form@ == normalised(value@, form_view(*number), rules),
        form@.len() == 0 <==> (trim(value@).len() == 0 || (rules.nulls && is_null_spelling(
            trim(value@),
        )) || (rules.numbers && number_parts(trim(value@)) is Some && form_view(*number) is Some
            && form_view(*number)->0.len() == 0)),
{
    let t = trim_chars(&chars_of(value));
    if rules.nulls && is_null_spelling_exec(&t) {
        proof {
            lemma_empty_exactly_for_null_spellings(value@, form_view(*number), rules);
        }
        return String::new();
    }
    if rules.numbers {
        match number {
            Some(n) => {
                match number_parts_exec(&t) {
                    Some(_) => {
                        proof {
                            lemma_empty_exactly_for_null_spellings(value@, form_view(*number), rules);
                        }
                        return n.clone();
                    },
                    None => {},
                }
            },
            None => {},
        }
    }
    let s = string_of(&t);
    if rules.loose_text {
        let lower = to_lowercase(s.as_str());
        proof {
            lemma_empty_exactly_for_null_spellings(value@, form_view(*number), rules);
        }
        return lower;
    }
    proof {
        lemma_empty_exactly_for_null_spellings(value@, form_view(*number), rules);
    }
    s
}

/// The texts of a list of strings.
pub open spec fn texts(values: Seq<String>) -> Seq<Seq<char>> {
    values.map_values(|v: String| v@)
}

/// The writes that `hash_of` makes to the hasher: for each value its UTF-8
/// bytes, then two 0xFF bytes, which UTF-8 never holds, so that the end of one
/// value cannot pass for a part of the next.
pub open spec fn hash_writes(values: Seq<Seq<char>>) -> Seq<Seq<u8>>
    decreases values.len(),
{
    if values.len() == 0 {
        Seq::empty()
    } else {
        hash_writes(values.drop_last()) + seq![
            encode_utf8(values.last()),
            seq![0xffu8],
            seq![0xffu8],
        ]
    }
}

/// A hash of a row, the same for the same values in the same order.
pub fn hash_of(values: &[String]) -> (hash: u64)
    ensures
        hash == DefaultHasher::spec_finish(hash_writes(texts(values@))),
{
    let mut hasher = DefaultHasher::new();
    let separator: [u8; 1] = [0xffu8];
    let mut i: usize = 0;
    while i < values.len()
        invariant
            i <= values@.len(),
            separator@ == seq![0xffu8],
            hasher@ == hash_writes(texts(values@.take(i as int))),
        decreases values@.len() - i,
    {
        hasher.write(values[i].as_str().as_bytes());
        hasher.write(vstd::array::array_as_slice(&separator));
        hasher.write(vstd::array::array_as_slice(&separator));
        proof {
            let done = texts(values@.take(i + 1));
            assert(done.drop_last() =~= texts(values@.take(i as int)));
            assert(done.last() == values@[i as int]@);
        }
        i = i + 1;
    }
    proof {
        assert(values@.take(values@.len() as int) =~= values@);
    }
    hasher.finish()
}

/// One field that differs between the two versions of a row.
#[derive(Debug, Clone, PartialEq, Eq)]
pub struct FieldChange {
    pub column: String,
    pub before: String,
    pub after: String,
}

impl View for FieldChange {
    type V = (Seq<char>, Seq<char>, Seq<char>);

    open spec fn view(&self) -> (Seq<char>, Seq<char>, Seq<char>) {
        (self.column@, self.before@, self.after@)
    }
}

/// The cell at `index`, or the empty text where the row is too short.
pub open spec fn cell(row: Seq<Seq<char>>, index: int) -> Seq<char> {
    if 0 <= index < row.len() {
        row[index]
    } else {
        Seq::empty()
    }
}

/// Whether a column is among the ignored ones, ignoring ASCII case.
pub open spec fn is_ignored(ignore: Seq<Seq<char>>, column: Seq<char>) -> bool {
    exists|j: int| 0 <= j < ignore.len() && same_ignoring_ascii_case(#[trigger] ignore[j], column)
}

/// The changes between two versions of a row, each cell with its number
/// form, in column order: for each column that is not ignored and whose cells
/// normalise differently, the column and both cells as written.
pub open spec fn field_changes(
    columns: Seq<Seq<char>>,
    before: Seq<Seq<char>>,
    before_forms: Seq<Option<Seq<char>>>,
    after: Seq<Seq<char>>,
    after_forms: Seq<Option<Seq<char>>>,
    ignore: Seq<Seq<char>>,
    rules: Normalisation,
) -> Seq<(Seq<char>, Seq<char>, Seq<char>)>
    decreases columns.len(),
{
    if columns.len() == 0 {
        Seq::empty()
    } else {
        let i = columns.len() - 1;
        let earlier = field_changes(columns.drop_last(), before, before_forms, after, after_forms, ignore, rules);
        if !is_ignored(ignore, columns[i]) && normalised(cell(before, i), form_at(before_forms, i), rules)
            != normalised(cell(after, i), form_at(after_forms, i), rules) {
            earlier.push((columns[i], cell(before, i), cell(after, i)))
        } else {
            earlier
        }
    }
}

/// Whether `column` is one of `ignore`, ignoring ASCII case.
pub fn ignored(ignore: &[String], column: &str) -> (b: bool)
    ensures
        b == is_ignored(texts(ignore@), column@),
{
    let mut j: usize = 0;
    while j < ignore.len()
        invariant
            j <= ignore@.len(),
            forall|m: int| 0 <= m < j ==> !same_ignoring_ascii_case(ignore@[m]@, column@),
        decreases ignore@.len() - j,
    {
        if eq_ignoring_ascii_case(ignore[j].as_str(), column) {
            proof {
                assert(texts(ignore@)[j as int] == ignore@[j as int]@);
            }
            return true;
        }
        j = j + 1;
    }
    proof {
        assert forall|m: int| 0 <= m < texts(ignore@).len() implies !same_ignoring_ascii_case(
            #[trigger] texts(ignore@)[m],
            column@,
        ) by {
            assert(texts(ignore@)[m] == ignore@[m]@);
        }
    }
    false
}

/// Compare two rows column by column, ignoring the columns asked for. A cell
/// missing from a short row counts as empty.
pub fn changed_fields(
    columns: &[String],
    before: &[String],
    before_forms: &[Option<String>],
    after: &[String],
    after_forms: &[Option<String>],
    ignore: &[String],
    rules: Normalisation,
) -> (changes: Vec<FieldChange>)
    ensures
        changes@.map_values(|c: FieldChange| c@) == field_changes(
            texts(columns@),
            texts(before@),
            forms_view(before_forms@),
            texts(after@),
            forms_view(after_forms@),
            texts(ignore@),
            rules,
        ),
{
    let mut changes: Vec<FieldChange> = Vec::new();
    let empty = String::new();
    let none: Option<String> = None;
    let mut index: usize = 0;
    while index < columns.len()
        invariant
            index <= columns@.len(),
            empty@ == Seq::<char>::empty(),
            none is None,
            changes@.map_values(|c: FieldChange| c@) == field_changes(
                texts(columns@).take(index as int),
                texts(before@),
                forms_view(before_forms@),
                texts(after@),
                forms_view(after_forms@),
                texts(ignore@),
                rules,
            ),
        decreases columns@.len() - index,
    {
        let ghost done = texts(columns@).take(index + 1);
        proof {
            assert(done.drop_last() =~= texts(columns@).take(index as int));
            assert(done[index as int] == columns@[index as int]@);
        }
        let column = &columns[index];
        if !ignored(ignore, column.as_str()) {
            let old: &str = if index < before.len() {
                before[index].as_str()
            } else {
                empty.as_str()
            };
            let new: &str = if index < after.len() {
                after[index].as_str()
            } else {
                empty.as_str()
            };
            let old_number: &Option<String> = if index < before_forms.len() {
                &before_forms[index]
            } else {
                &none
            };
            let new_number: &Option<String> = if index < after_forms.len() {
                &after_forms[index]
            } else {
                &none
            };
            proof {
                assert(old@ == cell(texts(before@), index as int));
                assert(new@ == cell(texts(after@), index as int));
                assert(form_view(*old_number) == form_at(forms_view(before_forms@), index as int));
                assert(form_view(*new_number) == form_at(forms_view(after_forms@), index as int));
            }
            let old_form = normalise(old, old_number, rules);
            let new_form = normalise(new, new_number, rules);
            if old_form != new_form {
                let change = FieldChange {
                    column: column.clone(),
                    before: old.to_owned(),
                    after: new.to_owned(),
                };
                let ghost earlier = changes@;
                changes.push(change);
                proof {
                    assert(changes@.map_values(|c: FieldChange| c@) =~= earlier.map_values(
                        |c: FieldChange| c@,
                    ).push(change@));
                }
            }
        }
        index = index + 1;
    }
    proof {
        assert(texts(columns@).take(columns@.len() as int) =~= texts(columns@));
    }
    changes
}

} // verus!
