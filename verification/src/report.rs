//! What a finished comparison reports: the exit status, and the rows of the
//! file of differences.

use vstd::prelude::*;
use crate::compare::{FieldChange, texts};
use crate::diff::{Summary, entries_view};
use crate::moves::first;
use crate::rows::{display_key, key_separator, short, shortened, shown_key};
use crate::text::{append_chars, chars_of, string_of};

verus! {

/// Whether the comparison found any difference.
pub open spec fn has_differences(summary: Summary) -> bool {
    summary.added@.len() > 0 || summary.removed@.len() > 0 || summary.changed@.len() > 0
}

/// The exit status: 1 when differences were found, 0 when the files match.
pub fn exit_status(summary: &Summary) -> (status: i32)
    ensures
        status == if has_differences(*summary) { 1i32 } else { 0i32 },
{
    if summary.added.len() > 0 || summary.removed.len() > 0 || summary.changed.len() > 0 {
        1
    } else {
        0
    }
}

/// Whether the file of differences may be written: a file already there is
/// only overwritten when that was asked for.
pub fn may_write_out(present: bool, force: bool) -> (allowed: bool)
    ensures
        allowed == (!present || force),
{
    !present || force
}

pub open spec fn word_added() -> Seq<char> {
    seq!['a', 'd', 'd', 'e', 'd']
}

pub open spec fn word_removed() -> Seq<char> {
    seq!['r', 'e', 'm', 'o', 'v', 'e', 'd']
}

pub open spec fn word_changed() -> Seq<char> {
    seq!['c', 'h', 'a', 'n', 'g', 'e', 'd']
}

/// A character that makes a spreadsheet read a cell as a formula when the
/// cell starts with it.
pub open spec fn is_formula_start(c: char) -> bool {
    c == '=' || c == '+' || c == '-' || c == '@'
}

/// A cell as written to the file of differences: one that starts like a
/// formula gets a leading `'`, so that a spreadsheet opens it as text; any
/// other cell is written as it is.
pub open spec fn neutralised(cell: Seq<char>) -> Seq<char> {
    if cell.len() > 0 && is_formula_start(cell[0]) {
        seq!['\''] + cell
    } else {
        cell
    }
}

/// A cell made safe to open in a spreadsheet.
pub fn neutralise(cell: String) -> (safe: String)
    ensures
        safe@ == neutralised(cell@),
{
    let chars = chars_of(cell.as_str());
    if chars.len() > 0 && (chars[0] == '=' || chars[0] == '+' || chars[0] == '-' || chars[0] == '@') {
        let mut v: Vec<char> = Vec::new();
        v.push('\'');
        append_chars(&mut v, cell.as_str());
        proof {
            assert(v@ =~= seq!['\''] + cell@);
        }
        string_of(&v)
    } else {
        cell
    }
}

/// The header of the file of differences.
pub open spec fn out_header() -> Seq<Seq<char>> {
    seq![
        seq!['c', 'h', 'a', 'n', 'g', 'e'],
        seq!['k', 'e', 'y'],
        seq!['c', 'o', 'l', 'u', 'm', 'n'],
        seq!['b', 'e', 'f', 'o', 'r', 'e'],
        seq!['a', 'f', 't', 'e', 'r'],
    ]
}

/// One record per key, for added or removed keys.
pub open spec fn key_records(word: Seq<char>, keys: Seq<Seq<char>>) -> Seq<Seq<Seq<char>>>
    decreases keys.len(),
{
    if keys.len() == 0 {
        Seq::empty()
    } else {
        key_records(word, keys.drop_last()).push(
            seq![word, neutralised(shown_key(keys.last())), Seq::empty(), Seq::empty(), Seq::empty()],
        )
    }
}

/// One record per changed field of one key.
pub open spec fn change_records(
    key: Seq<char>,
    changes: Seq<(Seq<char>, Seq<char>, Seq<char>)>,
) -> Seq<Seq<Seq<char>>>
    decreases changes.len(),
{
    if changes.len() == 0 {
        Seq::empty()
    } else {
        let c = changes.last();
        change_records(key, changes.drop_last()).push(
            seq![word_changed(), neutralised(shown_key(key)), neutralised(c.0), neutralised(c.1), neutralised(c.2)],
        )
    }
}

/// The records for all changed keys, in order.
pub open spec fn changed_records(
    entries: Seq<(Seq<char>, Seq<(Seq<char>, Seq<char>, Seq<char>)>)>,
) -> Seq<Seq<Seq<char>>>
    decreases entries.len(),
{
    if entries.len() == 0 {
        Seq::empty()
    } else {
        changed_records(entries.drop_last()) + change_records(
            entries.last().0,
            entries.last().1,
        )
    }
}

/// The records of the file of differences: a header, then one record per
/// added key, per removed key and per changed field, with keys as shown in
/// reports and every key, column and value cell neutralised.
pub open spec fn out_records_spec(summary: Summary) -> Seq<Seq<Seq<char>>> {
    seq![out_header()] + key_records(word_added(), texts(summary.added@)) + key_records(
        word_removed(),
        texts(summary.removed@),
    ) + changed_records(entries_view(summary.changed@))
}

pub open spec fn records_view(records: Seq<Vec<String>>) -> Seq<Seq<Seq<char>>> {
    records.map_values(|r: Vec<String>| texts(r@))
}

fn word(w: &[char]) -> (s: String)
    ensures
        s@ == w@,
{
    let mut v: Vec<char> = Vec::new();
    let mut i: usize = 0;
    while i < w.len()
        invariant
            i <= w@.len(),
            v@ == w@.take(i as int),
        decreases w@.len() - i,
    {
        v.push(w[i]);
        proof {
            assert(w@.take(i + 1) =~= w@.take(i as int).push(w@[i as int]));
        }
        i = i + 1;
    }
    proof {
        assert(w@.take(w@.len() as int) =~= w@);
    }
    string_of(&v)
}

fn push_key_records(records: &mut Vec<Vec<String>>, w: &[char], keys: &Vec<String>)
    ensures
        records_view(final(records)@) == records_view(old(records)@) + key_records(w@, texts(keys@)),
{
    let ghost start = records_view(records@);
    let mut i: usize = 0;
    while i < keys.len()
        invariant
            i <= keys@.len(),
            records_view(records@) == start + key_records(w@, texts(keys@).take(i as int)),
        decreases keys@.len() - i,
    {
        let mut record: Vec<String> = Vec::new();
        record.push(word(w));
        record.push(neutralise(display_key(keys[i].as_str())));
        record.push(String::new());
        record.push(String::new());
        record.push(String::new());
        let ghost earlier = records@;
        records.push(record);
        proof {
            let done = texts(keys@).take(i + 1);
            assert(done.drop_last() =~= texts(keys@).take(i as int));
            assert(done.last() == keys@[i as int]@);
            assert(texts(record@) =~= seq![
                w@,
                neutralised(shown_key(keys@[i as int]@)),
                Seq::<char>::empty(),
                Seq::<char>::empty(),
                Seq::<char>::empty(),
            ]);
            assert(records_view(records@) =~= records_view(earlier).push(texts(record@)));
        }
        i = i + 1;
    }
    proof {
        assert(texts(keys@).take(keys@.len() as int) =~= texts(keys@));
    }
}

fn push_change_records(
    records: &mut Vec<Vec<String>>,
    key: &String,
    changes: &Vec<FieldChange>,
)
    ensures
        records_view(final(records)@) == records_view(old(records)@) + change_records(
            key@,
            changes@.map_values(|c: FieldChange| c@),
        ),
{
    let ghost start = records_view(records@);
    let ghost all = changes@.map_values(|c: FieldChange| c@);
    let shown = neutralise(display_key(key.as_str()));
    let mut i: usize = 0;
    while i < changes.len()
        invariant
            i <= changes@.len(),
            all == changes@.map_values(|c: FieldChange| c@),
            shown@ == neutralised(shown_key(key@)),
            records_view(records@) == start + change_records(key@, all.take(i as int)),
        decreases changes@.len() - i,
    {
        let c = &changes[i];
        let mut record: Vec<String> = Vec::new();
        record.push(word(&['c', 'h', 'a', 'n', 'g', 'e', 'd']));
        record.push(shown.clone());
        record.push(neutralise(c.column.clone()));
        record.push(neutralise(c.before.clone()));
        record.push(neutralise(c.after.clone()));
        let ghost earlier = records@;
        records.push(record);
        proof {
            let done = all.take(i + 1);
            assert(done.drop_last() =~= all.take(i as int));
            assert(done.last() == c@);
            assert(texts(record@) =~= seq![
                word_changed(),
                neutralised(shown_key(key@)),
                neutralised(c@.0),
                neutralised(c@.1),
                neutralised(c@.2),
            ]);
            assert(records_view(records@) =~= records_view(earlier).push(texts(record@)));
        }
        i = i + 1;
    }
    proof {
        assert(all.take(changes@.len() as int) =~= all);
    }
}

/// The records of the file of differences.
pub fn out_records(summary: &Summary) -> (records: Vec<Vec<String>>)
    ensures
        records_view(records@) == out_records_spec(*summary),
{
    let mut records: Vec<Vec<String>> = Vec::new();
    let mut header: Vec<String> = Vec::new();
    header.push(word(&['c', 'h', 'a', 'n', 'g', 'e']));
    header.push(word(&['k', 'e', 'y']));
    header.push(word(&['c', 'o', 'l', 'u', 'm', 'n']));
    header.push(word(&['b', 'e', 'f', 'o', 'r', 'e']));
    header.push(word(&['a', 'f', 't', 'e', 'r']));
    proof {
        assert(texts(header@) =~= out_header());
    }
    records.push(header);
    proof {
        assert(records_view(records@) =~= seq![out_header()]);
    }
    push_key_records(&mut records, &['a', 'd', 'd', 'e', 'd'], &summary.added);
    push_key_records(&mut records, &['r', 'e', 'm', 'o', 'v', 'e', 'd'], &summary.removed);
    let ghost before_changed = records_view(records@);
    let ghost entries = entries_view(summary.changed@);
    let mut i: usize = 0;
    while i < summary.changed.len()
        invariant
            i <= summary.changed@.len(),
            entries == entries_view(summary.changed@),
            records_view(records@) == before_changed + changed_records(entries.take(i as int)),
        decreases summary.changed@.len() - i,
    {
        let entry = &summary.changed[i];
        push_change_records(&mut records, &entry.0, &entry.1);
        proof {
            let done = entries.take(i + 1);
            assert(done.drop_last() =~= entries.take(i as int));
            assert(done.last() == entries[i as int]);
            assert(records_view(records@) =~= before_changed + changed_records(done));
        }
        i = i + 1;
    }
    proof {
        assert(entries.take(summary.changed@.len() as int) =~= entries);
    }
    records
}

/// A changed field as shown among the examples: `column: before -> after`,
/// both values shortened.
pub open spec fn change_detail(c: (Seq<char>, Seq<char>, Seq<char>)) -> Seq<char> {
    c.0 + seq![':', ' '] + shortened(c.1) + seq![' ', '-', '>', ' '] + shortened(c.2)
}

/// The texts one after another, with `, ` between them.
pub open spec fn comma_joined(parts: Seq<Seq<char>>) -> Seq<char>
    decreases parts.len(),
{
    if parts.len() == 0 {
        Seq::empty()
    } else if parts.len() == 1 {
        parts[0]
    } else {
        comma_joined(parts.drop_last()) + seq![',', ' '] + parts.last()
    }
}

/// How a changed key is shown among the examples: the key as shown, two
/// spaces, and in brackets its first three changed fields.
pub open spec fn changed_line_text(key: Seq<char>, changes: Seq<(Seq<char>, Seq<char>, Seq<char>)>) -> Seq<char> {
    shown_key(key) + seq![' ', ' ', '('] + comma_joined(
        first(changes, 3).map_values(|c: (Seq<char>, Seq<char>, Seq<char>)| change_detail(c)),
    ) + seq![')']
}

/// The line that shows a changed key among the examples.
pub fn changed_line(key: &str, changes: &Vec<FieldChange>) -> (line: String)
    ensures
        line@ == changed_line_text(key@, changes@.map_values(|c: FieldChange| c@)),
{
    let ghost all = changes@.map_values(|c: FieldChange| c@);
    let ghost shown = first(all, 3);
    let ghost details = shown.map_values(|c: (Seq<char>, Seq<char>, Seq<char>)| change_detail(c));
    let n: usize = if changes.len() < 3 { changes.len() } else { 3 };
    proof {
        if all.len() > 3 {
            assert(shown =~= all.take(3));
        }
        assert(shown.len() == n);
    }
    let mut v: Vec<char> = Vec::new();
    append_chars(&mut v, display_key(key).as_str());
    v.push(' ');
    v.push(' ');
    v.push('(');
    let ghost start = v@;
    let mut i: usize = 0;
    while i < n
        invariant
            i <= n,
            n == shown.len(),
            n <= changes@.len(),
            all == changes@.map_values(|c: FieldChange| c@),
            shown == first(all, 3),
            details == shown.map_values(|c: (Seq<char>, Seq<char>, Seq<char>)| change_detail(c)),
            forall|j: int| 0 <= j < n ==> #[trigger] shown[j] == all[j],
            v@ == start + comma_joined(details.take(i as int)),
        decreases n - i,
    {
        let ghost before_v = v@;
        if i > 0 {
            v.push(',');
            v.push(' ');
        }
        let c = &changes[i];
        append_chars(&mut v, c.column.as_str());
        v.push(':');
        v.push(' ');
        append_chars(&mut v, short(c.before.as_str()).as_str());
        v.push(' ');
        v.push('-');
        v.push('>');
        v.push(' ');
        append_chars(&mut v, short(c.after.as_str()).as_str());
        proof {
            let done = details.take(i + 1);
            assert(done.drop_last() =~= details.take(i as int));
            assert(shown[i as int] == c@);
            assert(done.last() == change_detail(c@));
            if i > 0 {
                assert(v@ =~= before_v + seq![',', ' '] + change_detail(c@));
            } else {
                assert(details.take(0) =~= Seq::<Seq<char>>::empty());
                assert(v@ =~= before_v + change_detail(c@));
                assert(comma_joined(done) == done[0]);
            }
        }
        i = i + 1;
    }
    v.push(')');
    proof {
        assert(details.take(n as int) =~= details);
    }
    string_of(&v)
}

/// A cell that a spreadsheet does not read as a formula.
pub open spec fn safe_cell(cell: Seq<char>) -> bool {
    cell.len() == 0 || !is_formula_start(cell[0])
}

/// Records none of whose cells a spreadsheet reads as a formula.
pub open spec fn safe_records(records: Seq<Seq<Seq<char>>>) -> bool {
    forall|i: int, j: int|
        0 <= i < records.len() && 0 <= j < records[i].len() ==> safe_cell(#[trigger] records[i][j])
}

proof fn lemma_safe_concat(a: Seq<Seq<Seq<char>>>, b: Seq<Seq<Seq<char>>>)
    requires
        safe_records(a),
        safe_records(b),
    ensures
        safe_records(a + b),
{
    assert forall|i: int, j: int| 0 <= i < (a + b).len() && 0 <= j < (a + b)[i].len() implies safe_cell(
        #[trigger] (a + b)[i][j],
    ) by {
        if i < a.len() {
            assert((a + b)[i] == a[i]);
        } else {
            assert((a + b)[i] == b[i - a.len()]);
        }
    }
}

proof fn lemma_one_record_safe(a: Seq<Seq<Seq<char>>>, r: Seq<Seq<char>>)
    requires
        safe_records(a),
        forall|j: int| 0 <= j < r.len() ==> safe_cell(#[trigger] r[j]),
    ensures
        safe_records(a.push(r)),
{
    assert forall|i: int, j: int| 0 <= i < a.push(r).len() && 0 <= j < a.push(r)[i].len() implies safe_cell(
        #[trigger] a.push(r)[i][j],
    ) by {
        if i < a.len() {
            assert(a.push(r)[i] == a[i]);
        }
    }
}

proof fn lemma_key_records_safe(word: Seq<char>, keys: Seq<Seq<char>>)
    requires
        safe_cell(word),
    ensures
        safe_records(key_records(word, keys)),
    decreases keys.len(),
{
    if keys.len() > 0 {
        lemma_key_records_safe(word, keys.drop_last());
        let r = seq![word, neutralised(shown_key(keys.last())), Seq::<char>::empty(), Seq::<char>::empty(), Seq::<char>::empty()];
        assert forall|j: int| 0 <= j < r.len() implies safe_cell(#[trigger] r[j]) by {}
        lemma_one_record_safe(key_records(word, keys.drop_last()), r);
    }
}

proof fn lemma_change_records_safe(key: Seq<char>, changes: Seq<(Seq<char>, Seq<char>, Seq<char>)>)
    ensures
        safe_records(change_records(key, changes)),
    decreases changes.len(),
{
    if changes.len() > 0 {
        lemma_change_records_safe(key, changes.drop_last());
        let c = changes.last();
        let r = seq![word_changed(), neutralised(shown_key(key)), neutralised(c.0), neutralised(c.1), neutralised(c.2)];
        assert forall|j: int| 0 <= j < r.len() implies safe_cell(#[trigger] r[j]) by {}
        lemma_one_record_safe(change_records(key, changes.drop_last()), r);
    }
}

proof fn lemma_changed_records_safe(entries: Seq<(Seq<char>, Seq<(Seq<char>, Seq<char>, Seq<char>)>)>)
    ensures
        safe_records(changed_records(entries)),
    decreases entries.len(),
{
    if entries.len() > 0 {
        lemma_changed_records_safe(entries.drop_last());
        lemma_change_records_safe(entries.last().0, entries.last().1);
        lemma_safe_concat(changed_records(entries.drop_last()), change_records(entries.last().0, entries.last().1));
    }
}

/// No cell of the file of differences starts with `=`, `+`, `-` or `@`, so
/// no value written there opens as a spreadsheet formula.
pub proof fn lemma_out_records_are_safe(summary: Summary)
    ensures
        safe_records(out_records_spec(summary)),
{
    let h = seq![out_header()];
    assert forall|j: int| 0 <= j < out_header().len() implies safe_cell(#[trigger] out_header()[j]) by {}
    assert(safe_records(h)) by {
        assert forall|i: int, j: int| 0 <= i < h.len() && 0 <= j < h[i].len() implies safe_cell(#[trigger] h[i][j]) by {
            assert(h[i] == out_header());
        }
    }
    lemma_key_records_safe(word_added(), texts(summary.added@));
    lemma_key_records_safe(word_removed(), texts(summary.removed@));
    lemma_changed_records_safe(entries_view(summary.changed@));
    lemma_safe_concat(h, key_records(word_added(), texts(summary.added@)));
    lemma_safe_concat(h + key_records(word_added(), texts(summary.added@)), key_records(word_removed(), texts(summary.removed@)));
    lemma_safe_concat(
        h + key_records(word_added(), texts(summary.added@)) + key_records(word_removed(), texts(summary.removed@)),
        changed_records(entries_view(summary.changed@)),
    );
}

/// The examples a summary section shows: its first `limit` lines, and how
/// many more it has.
pub fn examples(lines: &Vec<String>, limit: usize) -> (shown: (Vec<String>, usize))
    ensures
        texts(shown.0@) == texts(first(lines@, limit as nat)),
        shown.1 == lines@.len() - first(lines@, limit as nat).len(),
{
    let n: usize = if lines.len() < limit { lines.len() } else { limit };
    let ghost wanted = texts(first(lines@, limit as nat));
    proof {
        if lines@.len() > limit {
            assert(first(lines@, limit as nat) =~= lines@.take(limit as int));
        }
        assert(wanted =~= texts(lines@).take(n as int));
    }
    let mut out: Vec<String> = Vec::new();
    let mut i: usize = 0;
    while i < n
        invariant
            i <= n,
            n <= lines@.len(),
            texts(out@) == texts(lines@).take(i as int),
        decreases n - i,
    {
        let line = lines[i].clone();
        let ghost earlier = out@;
        out.push(line);
        proof {
            assert(texts(out@) =~= texts(earlier).push(line@));
            assert(texts(lines@).take(i + 1) =~= texts(lines@).take(i as int).push(lines@[i as int]@));
        }
        i = i + 1;
    }
    (out, lines.len() - n)
}

/// The malformed rows a summary shows: the first three, those of the older
/// file first.
pub fn malformed_examples(summary: &Summary) -> (shown: Vec<(usize, usize)>)
    ensures
        shown@ == first(summary.malformed_before@ + summary.malformed_after@, 3),
{
    let ghost all = summary.malformed_before@ + summary.malformed_after@;
    let mut out: Vec<(usize, usize)> = Vec::new();
    let mut i: usize = 0;
    while i < summary.malformed_before.len() && out.len() < 3
        invariant
            i <= summary.malformed_before@.len(),
            out.len() == i,
            i <= 3,
            all == summary.malformed_before@ + summary.malformed_after@,
            out@ == all.take(i as int),
        decreases summary.malformed_before@.len() - i,
    {
        out.push(summary.malformed_before[i]);
        proof {
            assert(all[i as int] == summary.malformed_before@[i as int]);
            assert(all.take(i + 1) =~= all.take(i as int).push(all[i as int]));
        }
        i = i + 1;
    }
    let mut j: usize = 0;
    while j < summary.malformed_after.len() && out.len() < 3
        invariant
            j <= summary.malformed_after@.len(),
            out.len() <= 3,
            all == summary.malformed_before@ + summary.malformed_after@,
            out.len() == 3 || i == summary.malformed_before@.len(),
            i <= summary.malformed_before@.len(),
            out.len() == i + j,
            out@ == all.take(out.len() as int),
        decreases summary.malformed_after@.len() - j,
    {
        proof {
            assert(i == summary.malformed_before@.len());
        }
        out.push(summary.malformed_after[j]);
        proof {
            assert(all[(i + j) as int] == summary.malformed_after@[j as int]);
            assert(all.take(i + j + 1) =~= all.take((i + j) as int).push(all[(i + j) as int]));
        }
        j = j + 1;
    }
    proof {
        if all.len() <= 3 {
            assert(out.len() == all.len());
            assert(all.take(all.len() as int) =~= all);
        } else {
            assert(out.len() == 3);
        }
    }
    out
}

/// Records of five cells whose key cell, the second, never holds the key
/// separator: keys are written as shown, their parts separated by ` | `.
pub open spec fn keys_shown(records: Seq<Seq<Seq<char>>>) -> bool {
    forall|i: int|
        0 <= i < records.len() ==> (#[trigger] records[i]).len() == 5 && !records[i][1].contains(
            key_separator(),
        )
}

/// A key as shown holds no key separator.
proof fn lemma_shown_key_has_no_separator(key: Seq<char>)
    ensures
        !shown_key(key).contains(key_separator()),
    decreases key.len(),
{
    if key.len() > 0 {
        lemma_shown_key_has_no_separator(key.drop_last());
        let a = shown_key(key.drop_last());
        let b = if key.last() == key_separator() {
            seq![' ', '|', ' ']
        } else {
            seq![key.last()]
        };
        assert(shown_key(key) == a + b);
        if (a + b).contains(key_separator()) {
            let j = choose|j: int| 0 <= j < (a + b).len() && (a + b)[j] == key_separator();
            if j < a.len() {
                assert(a[j] == key_separator());
            } else {
                assert(b[j - a.len()] == key_separator());
            }
        }
    }
}

/// A shown key, made safe for a spreadsheet, still holds no key separator.
proof fn lemma_key_cell_has_no_separator(key: Seq<char>)
    ensures
        !neutralised(shown_key(key)).contains(key_separator()),
{
    lemma_shown_key_has_no_separator(key);
    let k = shown_key(key);
    if neutralised(k).contains(key_separator()) && k.len() > 0 && is_formula_start(k[0]) {
        let j = choose|j: int| 0 <= j < neutralised(k).len() && neutralised(k)[j] == key_separator();
        assert(neutralised(k)[j] == (seq!['\''] + k)[j]);
        assert(k[j - 1] == key_separator());
    }
}

proof fn lemma_keys_shown_concat(a: Seq<Seq<Seq<char>>>, b: Seq<Seq<Seq<char>>>)
    requires
        keys_shown(a),
        keys_shown(b),
    ensures
        keys_shown(a + b),
{
    assert forall|i: int| 0 <= i < (a + b).len() implies (#[trigger] (a + b)[i]).len() == 5 && !(a
        + b)[i][1].contains(key_separator()) by {
        if i < a.len() {
            assert((a + b)[i] == a[i]);
        } else {
            assert((a + b)[i] == b[i - a.len()]);
        }
    }
}

proof fn lemma_key_records_shown(word: Seq<char>, keys: Seq<Seq<char>>)
    ensures
        keys_shown(key_records(word, keys)),
    decreases keys.len(),
{
    if keys.len() > 0 {
        lemma_key_records_shown(word, keys.drop_last());
        lemma_key_cell_has_no_separator(keys.last());
        let earlier = key_records(word, keys.drop_last());
        let r = seq![word, neutralised(shown_key(keys.last())), Seq::<char>::empty(), Seq::<char>::empty(), Seq::<char>::empty()];
        assert forall|i: int| 0 <= i < earlier.push(r).len() implies (#[trigger] earlier.push(r)[i]).len() == 5
            && !earlier.push(r)[i][1].contains(key_separator()) by {
            if i < earlier.len() {
                assert(earlier.push(r)[i] == earlier[i]);
            }
        }
    }
}

proof fn lemma_change_records_shown(key: Seq<char>, changes: Seq<(Seq<char>, Seq<char>, Seq<char>)>)
    ensures
        keys_shown(change_records(key, changes)),
    decreases changes.len(),
{
    if changes.len() > 0 {
        lemma_change_records_shown(key, changes.drop_last());
        lemma_key_cell_has_no_separator(key);
        let c = changes.last();
        let earlier = change_records(key, changes.drop_last());
        let r = seq![word_changed(), neutralised(shown_key(key)), neutralised(c.0), neutralised(c.1), neutralised(c.2)];
        assert forall|i: int| 0 <= i < earlier.push(r).len() implies (#[trigger] earlier.push(r)[i]).len() == 5
            && !earlier.push(r)[i][1].contains(key_separator()) by {
            if i < earlier.len() {
                assert(earlier.push(r)[i] == earlier[i]);
            }
        }
    }
}

proof fn lemma_changed_records_shown(entries: Seq<(Seq<char>, Seq<(Seq<char>, Seq<char>, Seq<char>)>)>)
    ensures
        keys_shown(changed_records(entries)),
    decreases entries.len(),
{
    if entries.len() > 0 {
        lemma_changed_records_shown(entries.drop_last());
        lemma_change_records_shown(entries.last().0, entries.last().1);
        lemma_keys_shown_concat(changed_records(entries.drop_last()), change_records(entries.last().0, entries.last().1));
    }
}

/// Every record of the file of differences has five cells, and its key cell
/// never holds the key separator: keys of several columns are written as
/// shown, their parts separated by ` | `, for added, removed and changed keys
/// alike.
pub proof fn lemma_out_records_show_keys(summary: Summary)
    ensures
        keys_shown(out_records_spec(summary)),
{
    let h = seq![out_header()];
    assert(keys_shown(h)) by {
        assert forall|i: int| 0 <= i < h.len() implies (#[trigger] h[i]).len() == 5 && !h[i][1].contains(
            key_separator(),
        ) by {
            assert(h[i] == out_header());
            if out_header()[1].contains(key_separator()) {
                let j = choose|j: int| 0 <= j < out_header()[1].len() && out_header()[1][j] == key_separator();
                assert(out_header()[1] == seq!['k', 'e', 'y']);
            }
        }
    }
    let added = key_records(word_added(), texts(summary.added@));
    let removed = key_records(word_removed(), texts(summary.removed@));
    let changed = changed_records(entries_view(summary.changed@));
    lemma_key_records_shown(word_added(), texts(summary.added@));
    lemma_key_records_shown(word_removed(), texts(summary.removed@));
    lemma_changed_records_shown(entries_view(summary.changed@));
    lemma_keys_shown_concat(h, added);
    lemma_keys_shown_concat(h + added, removed);
    lemma_keys_shown_concat(h + added + removed, changed);
}

} // verus!
