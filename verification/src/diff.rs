//! Comparing two exports by key, in three passes so that memory holds little
//! more than the changed rows:
//!
//! 1. the older file, row by row: keep only, for each key, the hash of its
//!    last row there, where that row stands, and whether its field count is
//!    wrong;
//! 2. the newer file, row by row: a row with an unknown key is added, and for a
//!    known key the last row met decides: the same row hash means unchanged,
//!    a different one means changed, and the newer row is kept; a row whose
//!    field count is wrong, in either file, is flagged but never diffed; the
//!    keys of the older file never met are removed;
//! 3. the older file again, only the last row of each changed key: which
//!    columns moved.
//!
//! A key repeated in a file is counted as a duplicate, and only its last row
//! in each file is compared.
//!
//! The reading is done by the caller, which hands each row to the matching
//! step below.

use vstd::prelude::*;
use vstd::hash_map::StringHashMap;
use std::collections::hash_map::DefaultHasher;
use vstd::std_specs::hash::DefaultHasherAdditionalSpecFns;
use crate::compare::{
    FieldChange, Normalisation, changed_fields, field_changes, form_view, forms_view, hash_of,
    hash_writes, texts,
};
use crate::rows::{Rows, comparable, comparable_forms, key_of, row_key};
use crate::sort::{merge_sorted, sort_by_key, sort_keys, sorted_keys, lemma_sorted_keys_same_members};

verus! {

/// Which file the comparison is reading.
#[derive(PartialEq, Eq, Structural)]
pub enum Phase {
    /// Pass 1: the older file.
    ReadingBefore,
    /// Pass 2: the newer file.
    ReadingAfter,
    /// Pass 3: the older file again, for the changed keys.
    Revisiting,
}

/// What a comparison found.
pub struct Summary {
    /// Keys of the newer file that the older one does not have, one entry for
    /// each row of the newer file with such a key.
    pub added: Vec<String>,
    /// Keys of the older file that the newer one does not have.
    pub removed: Vec<String>,
    /// Keys whose last rows differ, each with the changed fields; rows whose
    /// field count is wrong are never diffed.
    pub changed: Vec<(String, Vec<FieldChange>)>,
    /// How many rows of the older file repeat a key seen before in it.
    pub duplicate_keys_before: usize,
    /// How many rows of the newer file repeat a key seen before in it.
    pub duplicate_keys_after: usize,
    /// Line and field count of each row of the older file whose field count
    /// is not that of its header.
    pub malformed_before: Vec<(usize, usize)>,
    /// The same for the newer file.
    pub malformed_after: Vec<(usize, usize)>,
    pub rows_before: usize,
    pub rows_after: usize,
}

/// A change entry as texts: the key, and each changed field.
pub open spec fn entry_view(e: (String, Vec<FieldChange>)) -> (Seq<char>, Seq<(Seq<char>, Seq<char>, Seq<char>)>) {
    (e.0@, e.1@.map_values(|c: FieldChange| c@))
}

pub open spec fn entries_view(entries: Seq<(String, Vec<FieldChange>)>) -> Seq<(Seq<char>, Seq<(Seq<char>, Seq<char>, Seq<char>)>)> {
    entries.map_values(|e: (String, Vec<FieldChange>)| entry_view(e))
}

/// The hash that a row gets: that of its comparable values.
pub open spec fn row_hash(
    columns: Seq<Seq<char>>,
    fields: Seq<Seq<char>>,
    numbers: Seq<Option<Seq<char>>>,
    ignore: Seq<Seq<char>>,
    rules: Normalisation,
) -> u64 {
    DefaultHasher::spec_finish(hash_writes(comparable_forms(columns, fields, numbers, ignore, rules)))
}

/// The keys in `keys` that `met` does not hold, in order.
pub open spec fn not_met<V>(keys: Seq<Seq<char>>, met: Map<Seq<char>, V>) -> Seq<Seq<char>>
    decreases keys.len(),
{
    if keys.len() == 0 {
        Seq::empty()
    } else {
        let earlier = not_met(keys.drop_last(), met);
        if met.contains_key(keys.last()) {
            earlier
        } else {
            earlier.push(keys.last())
        }
    }
}

/// Every key that `not_met` keeps is one of the keys, and not met.
proof fn lemma_not_met_members<V>(keys: Seq<Seq<char>>, met: Map<Seq<char>, V>, k: Seq<char>)
    requires
        not_met(keys, met).contains(k),
    ensures
        keys.contains(k),
        !met.contains_key(k),
    decreases keys.len(),
{
    if keys.len() > 0 {
        let earlier = not_met(keys.drop_last(), met);
        if !met.contains_key(keys.last()) && k == keys.last() {
            assert(keys[keys.len() - 1] == k);
        } else {
            if !met.contains_key(keys.last()) {
                let i = choose|i: int|
                    0 <= i < earlier.push(keys.last()).len() && earlier.push(keys.last())[i] == k;
                assert(earlier[i] == k);
            }
            lemma_not_met_members(keys.drop_last(), met, k);
            let j = choose|j: int| 0 <= j < keys.drop_last().len() && keys.drop_last()[j] == k;
            assert(keys[j] == k);
        }
    }
}

/// Every key that is listed and not met is kept by `not_met`.
proof fn lemma_not_met_complete<V>(keys: Seq<Seq<char>>, met: Map<Seq<char>, V>, k: Seq<char>)
    requires
        keys.contains(k),
        !met.contains_key(k),
    ensures
        not_met(keys, met).contains(k),
    decreases keys.len(),
{
    let earlier = not_met(keys.drop_last(), met);
    if keys.last() == k {
        assert(earlier.push(k)[earlier.len() as int] == k);
    } else {
        let i = choose|i: int| 0 <= i < keys.len() && keys[i] == k;
        assert(keys.drop_last()[i] == k);
        lemma_not_met_complete(keys.drop_last(), met, k);
        if !met.contains_key(keys.last()) {
            let j = choose|j: int| 0 <= j < earlier.len() && earlier[j] == k;
            assert(earlier.push(keys.last())[j] == k);
        }
    }
}

/// Keys listed once are removed at most once.
proof fn lemma_not_met_no_duplicates<V>(keys: Seq<Seq<char>>, met: Map<Seq<char>, V>)
    requires
        keys.no_duplicates(),
    ensures
        not_met(keys, met).no_duplicates(),
    decreases keys.len(),
{
    if keys.len() > 0 {
        let rest = keys.drop_last();
        assert(rest.no_duplicates()) by {
            assert forall|i: int, j: int| 0 <= i < rest.len() && 0 <= j < rest.len() && i != j implies rest[i] != rest[j] by {
                assert(rest[i] == keys[i] && rest[j] == keys[j]);
            }
        }
        lemma_not_met_no_duplicates(rest, met);
        let earlier = not_met(rest, met);
        if !met.contains_key(keys.last()) {
            if earlier.contains(keys.last()) {
                lemma_not_met_members(rest, met, keys.last());
                let j = choose|j: int| 0 <= j < rest.len() && rest[j] == keys.last();
                assert(keys[j] == keys[keys.len() - 1]);
            }
            let s = earlier.push(keys.last());
            assert forall|i: int, j: int| 0 <= i < s.len() && 0 <= j < s.len() && i != j implies s[i] != s[j] by {
                if i == s.len() - 1 {
                    assert(s[j] == earlier[j]);
                } else if j == s.len() - 1 {
                    assert(s[i] == earlier[i]);
                }
            }
        }
    }
}

/// The state of a comparison between its passes.
pub struct Diff {
    pub rules: Normalisation,
    pub ignore: Vec<String>,
    pub before: Rows,
    pub after: Rows,
    pub phase: Phase,
    /// Pass 1: for each key of the older file, its last row there: the row
    /// hash, the row's index, and whether its field count is wrong.
    pub last_before: StringHashMap<(u64, usize, bool)>,
    /// Each key of the older file once, in the order first met.
    pub old_keys: Vec<String>,
    /// The keys met in the newer file.
    pub seen_after: StringHashMap<()>,
    /// The keys whose last row in the newer file differs from their last row
    /// in the older one, both well formed, with that newer row and the number
    /// forms of its cells.
    pub changed_rows: StringHashMap<(Vec<String>, Vec<Option<String>>)>,
    pub summary: Summary,
}

/// One step of pass 1: `e` is `d` after the `index`-th row of the older file,
/// `values` with number forms `numbers`: the row's key now stands for its
/// row hash, index and whether its field count is wrong.
pub open spec fn before_step(
    d: Diff,
    e: Diff,
    index: usize,
    values: Seq<String>,
    numbers: Seq<Option<String>>,
) -> bool {
    let key = row_key(texts(values), d.before.key_indexes@);
    let hash = row_hash(
        texts(d.before.columns@),
        texts(values),
        forms_view(numbers),
        texts(d.ignore@),
        d.rules,
    );
    let malformed = values.len() != d.before.columns@.len();
    &&& e.last_before@ == d.last_before@.insert(key, (hash, index, malformed))
    &&& e.summary.rows_before == d.summary.rows_before + 1
    &&& e.before == d.before
    &&& e.after == d.after
    &&& e.ignore == d.ignore
    &&& e.rules == d.rules
}

/// One step of pass 2: `e` is `d` after a row of the newer file: its key is
/// met, and added when the older file does not have it.
pub open spec fn after_step(d: Diff, e: Diff, values: Seq<String>) -> bool {
    let key = row_key(texts(values), d.after.key_indexes@);
    &&& e.seen_after@ == d.seen_after@.insert(key, ())
    &&& texts(e.summary.added@) == if d.last_before@.contains_key(key) {
        texts(d.summary.added@)
    } else {
        texts(d.summary.added@).push(key)
    }
    &&& e.last_before@ == d.last_before@
    &&& e.summary.rows_after == d.summary.rows_after + 1
    &&& e.before == d.before
    &&& e.after == d.after
    &&& e.ignore == d.ignore
    &&& e.rules == d.rules
}

/// A copy of the number forms of a row.
fn copy_numbers(numbers: &[Option<String>]) -> (copy: Vec<Option<String>>)
    ensures
        forms_view(copy@) == forms_view(numbers@),
{
    let mut copy: Vec<Option<String>> = Vec::new();
    let mut i: usize = 0;
    while i < numbers.len()
        invariant
            i <= numbers@.len(),
            forms_view(copy@) == forms_view(numbers@).take(i as int),
        decreases numbers@.len() - i,
    {
        let n: Option<String> = match &numbers[i] {
            Some(s) => Some(s.clone()),
            None => None,
        };
        let ghost earlier = copy@;
        copy.push(n);
        proof {
            assert(form_view(n) == form_view(numbers@[i as int]));
            assert(forms_view(copy@) =~= forms_view(earlier).push(form_view(n)));
            assert(forms_view(numbers@).take(i + 1) =~= forms_view(numbers@).take(i as int).push(
                form_view(numbers@[i as int]),
            ));
        }
        i = i + 1;
    }
    proof {
        assert(forms_view(numbers@).take(numbers@.len() as int) =~= forms_view(numbers@));
    }
    copy
}

/// A copy of a row.
fn copy_row(values: &[String]) -> (copy: Vec<String>)
    ensures
        texts(copy@) == texts(values@),
{
    let mut copy: Vec<String> = Vec::new();
    let mut i: usize = 0;
    while i < values.len()
        invariant
            i <= values@.len(),
            texts(copy@) == texts(values@).take(i as int),
        decreases values@.len() - i,
    {
        let v = values[i].clone();
        let ghost earlier = copy@;
        copy.push(v);
        proof {
            assert(v@ == values@[i as int]@);
            assert(texts(copy@) =~= texts(earlier).push(v@));
            assert(texts(values@).take(i + 1) =~= texts(values@).take(i as int).push(
                values@[i as int]@,
            ));
        }
        i = i + 1;
    }
    proof {
        assert(texts(values@).take(values@.len() as int) =~= texts(values@));
    }
    copy
}

impl Diff {
    /// Every key of the older file is listed once, and those listed are the
    /// keys with a last row. Nothing is added while the older file is read,
    /// nothing removed or found changed before the newer one is done. An
    /// added key is met in the newer file and not in the older;
    /// a removed key is in the older file only; a changed key is in both,
    /// and so is every key of a change entry, which lists at least one field.
    pub open spec fn wf(&self) -> bool {
        &&& texts(self.old_keys@).no_duplicates()
        &&& forall|k: Seq<char>| #[trigger]
            self.last_before@.contains_key(k) <==> texts(self.old_keys@).contains(k)
        &&& self.phase == Phase::ReadingBefore ==> self.summary.added@.len() == 0
        &&& self.phase != Phase::Revisiting ==> self.summary.removed@.len() == 0
        &&& self.phase != Phase::Revisiting ==> self.summary.changed@.len() == 0
        &&& forall|k: Seq<char>| #[trigger]
            texts(self.summary.added@).contains(k) ==> !self.last_before@.contains_key(k)
                && self.seen_after@.contains_key(k)
        &&& texts(self.summary.removed@).no_duplicates()
        &&& forall|k: Seq<char>| #[trigger]
            texts(self.summary.removed@).contains(k) ==> self.last_before@.contains_key(k)
                && !self.seen_after@.contains_key(k)
        &&& forall|k: Seq<char>| #[trigger]
            self.seen_after@.contains_key(k) && !self.last_before@.contains_key(k)
                ==> texts(self.summary.added@).contains(k)
        &&& self.phase == Phase::ReadingBefore ==> self.seen_after@.dom().len() == 0
        &&& self.phase == Phase::Revisiting ==> forall|k: Seq<char>| #[trigger]
            texts(self.old_keys@).contains(k) && !self.seen_after@.contains_key(k)
                ==> texts(self.summary.removed@).contains(k)
        &&& forall|k: Seq<char>| #[trigger]
            self.changed_rows@.contains_key(k) ==> self.last_before@.contains_key(k)
                && self.seen_after@.contains_key(k)
        &&& forall|i: int|
            0 <= i < self.summary.changed@.len() ==> self.last_before@.contains_key(
                (#[trigger] self.summary.changed@[i]).0@,
            ) && self.seen_after@.contains_key(self.summary.changed@[i].0@)
                && self.summary.changed@[i].1@.len() > 0
    }

    /// A comparison that has read nothing yet.
    pub fn new(before: Rows, after: Rows, ignore: Vec<String>, rules: Normalisation) -> (d: Diff)
        ensures
            d.wf(),
            d.phase == Phase::ReadingBefore,
            d.before == before,
            d.after == after,
            d.ignore == ignore,
            d.rules == rules,
            d.last_before@ == Map::<Seq<char>, (u64, usize, bool)>::empty(),
            d.old_keys@.len() == 0,
            d.seen_after@ == Map::<Seq<char>, ()>::empty(),
            d.changed_rows@ == Map::<Seq<char>, (Vec<String>, Vec<Option<String>>)>::empty(),
            d.summary.added@.len() == 0,
            d.summary.removed@.len() == 0,
            d.summary.changed@.len() == 0,
            d.summary.duplicate_keys_before == 0,
            d.summary.duplicate_keys_after == 0,
            d.summary.malformed_before@.len() == 0,
            d.summary.malformed_after@.len() == 0,
            d.summary.rows_before == 0,
            d.summary.rows_after == 0,
    {
        let d = Diff {
            rules,
            ignore,
            before,
            after,
            phase: Phase::ReadingBefore,
            last_before: StringHashMap::new(),
            old_keys: Vec::new(),
            seen_after: StringHashMap::new(),
            changed_rows: StringHashMap::new(),
            summary: Summary {
                added: Vec::new(),
                removed: Vec::new(),
                changed: Vec::new(),
                duplicate_keys_before: 0,
                duplicate_keys_after: 0,
                malformed_before: Vec::new(),
                malformed_after: Vec::new(),
                rows_before: 0,
                rows_after: 0,
            },
        };
        proof {
            assert(texts(d.old_keys@).len() == 0);
            assert(texts(d.summary.added@).len() == 0);
        }
        d
    }

    /// Pass 1: a row of the older file, the `index`-th after the header (so
    /// on line `index + 2`), with the number forms of its cells. Its key now
    /// stands for this row: its row hash,
    /// its index and whether its field count is wrong replace what an earlier
    /// row of the key left, and such a repeat counts as a duplicate. A row
    /// whose field count is not that of the header is noted as malformed.
    pub fn observe_before(&mut self, index: usize, values: &[String], numbers: &[Option<String>])
        requires
            old(self).wf(),
            old(self).phase == Phase::ReadingBefore,
            old(self).summary.rows_before < usize::MAX,
            old(self).summary.duplicate_keys_before < usize::MAX,
            index <= usize::MAX - 2,
        ensures
            final(self).wf(),
            ({
                let key = row_key(texts(values@), old(self).before.key_indexes@);
                let hash = row_hash(
                    texts(old(self).before.columns@),
                    texts(values@),
                    forms_view(numbers@),
                    texts(old(self).ignore@),
                    old(self).rules,
                );
                let malformed = values@.len() != old(self).before.columns@.len();
                let seen = old(self).last_before@.contains_key(key);
                &&& final(self).last_before@ == old(self).last_before@.insert(key, (hash, index, malformed))
                &&& texts(final(self).old_keys@) == if seen {
                    texts(old(self).old_keys@)
                } else {
                    texts(old(self).old_keys@).push(key)
                }
                &&& final(self).summary.duplicate_keys_before == old(self).summary.duplicate_keys_before
                    + if seen { 1usize } else { 0usize }
            }),
            before_step(*old(self), *final(self), index, values@, numbers@),
            final(self).summary.rows_before == old(self).summary.rows_before + 1,
            final(self).summary.malformed_before@ == if values@.len()
                != old(self).before.columns@.len() {
                old(self).summary.malformed_before@.push(((index + 2) as usize, values@.len() as usize))
            } else {
                old(self).summary.malformed_before@
            },
            final(self).phase == old(self).phase,
            final(self).rules == old(self).rules,
            final(self).ignore == old(self).ignore,
            final(self).before == old(self).before,
            final(self).after == old(self).after,
            final(self).seen_after@ == old(self).seen_after@,
            final(self).changed_rows@ == old(self).changed_rows@,
            final(self).summary.added@ == old(self).summary.added@,
            final(self).summary.removed@ == old(self).summary.removed@,
            final(self).summary.changed@ == old(self).summary.changed@,
            final(self).summary.duplicate_keys_after == old(self).summary.duplicate_keys_after,
            final(self).summary.malformed_after@ == old(self).summary.malformed_after@,
            final(self).summary.rows_after == old(self).summary.rows_after,
    {
        self.summary.rows_before = self.summary.rows_before + 1;
        let malformed = values.len() != self.before.columns.len();
        if malformed {
            self.summary.malformed_before.push((index + 2, values.len()));
        }
        let key = key_of(values, self.before.key_indexes.as_slice());
        let forms = comparable(
            values,
            numbers,
            self.before.columns.as_slice(),
            self.ignore.as_slice(),
            self.rules,
        );
        let hash = hash_of(forms.as_slice());
        let ghost old_keys = texts(self.old_keys@);
        let ghost old_last = self.last_before@;
        if self.last_before.contains_key(key.as_str()) {
            self.summary.duplicate_keys_before = self.summary.duplicate_keys_before + 1;
        } else {
            proof {
                assert(!old_keys.contains(key@));
            }
            self.old_keys.push(key.clone());
            proof {
                assert(texts(self.old_keys@) =~= old_keys.push(key@));
                assert(texts(self.old_keys@).no_duplicates()) by {
                    let s = texts(self.old_keys@);
                    assert forall|i: int, j: int|
                        0 <= i < s.len() && 0 <= j < s.len() && i != j implies s[i] != s[j] by {
                        if i == s.len() - 1 {
                            assert(s[j] == old_keys[j]);
                        } else if j == s.len() - 1 {
                            assert(s[i] == old_keys[i]);
                        }
                    }
                }
            }
        }
        let ghost k0 = key@;
        self.last_before.insert(key, (hash, index, malformed));
        proof {
            let s = texts(self.old_keys@);
            assert forall|k: Seq<char>| #[trigger] self.last_before@.contains_key(k) <==> s.contains(k) by {
                if k == k0 {
                    if old_keys.contains(k0) {
                        let i = choose|i: int| 0 <= i < old_keys.len() && old_keys[i] == k0;
                        assert(s[i] == k);
                    } else {
                        assert(s[s.len() - 1] == k0);
                    }
                } else {
                    if old_keys.contains(k) {
                        let i = choose|i: int| 0 <= i < old_keys.len() && old_keys[i] == k;
                        assert(s[i] == k);
                    }
                    if s.contains(k) {
                        let i = choose|i: int| 0 <= i < s.len() && s[i] == k;
                        if i < old_keys.len() {
                            assert(old_keys[i] == k);
                        }
                        assert(old_keys.contains(k));
                    }
                    assert(old_last.contains_key(k) <==> old_keys.contains(k));
                }
            }
            assert forall|k: Seq<char>| #[trigger] self.changed_rows@.contains_key(k) implies self.last_before@.contains_key(k)
                && self.seen_after@.contains_key(k) by {
                assert(old_last.contains_key(k));
            }
        }
    }

    /// The older file has been read: the newer one comes next.
    pub fn start_after(&mut self)
        requires
            old(self).wf(),
            old(self).phase == Phase::ReadingBefore,
        ensures
            final(self).wf(),
            final(self).phase == Phase::ReadingAfter,
            final(self).rules == old(self).rules,
            final(self).ignore == old(self).ignore,
            final(self).before == old(self).before,
            final(self).after == old(self).after,
            final(self).last_before@ == old(self).last_before@,
            final(self).old_keys@ == old(self).old_keys@,
            final(self).seen_after@ == old(self).seen_after@,
            final(self).changed_rows@ == old(self).changed_rows@,
            final(self).summary == old(self).summary,
    {
        self.phase = Phase::ReadingAfter;
    }

    /// Pass 2: a row of the newer file, the `index`-th after the header, with
    /// the number forms of its cells. A
    /// key seen before in the newer file counts as a duplicate. A key that
    /// the older file does not have is added, once for each such row. For a
    /// key that the older file has, this row now decides: when both it and
    /// the older file's last row of the key are well formed and their row
    /// hashes differ, the key is changed and this row is kept; otherwise the
    /// key is not (or no longer) changed. A row whose field count is not that
    /// of the header is noted as malformed.
    pub fn observe_after(&mut self, index: usize, values: &[String], numbers: &[Option<String>])
        requires
            old(self).wf(),
            old(self).phase == Phase::ReadingAfter,
            old(self).summary.rows_after < usize::MAX,
            old(self).summary.duplicate_keys_after < usize::MAX,
            index <= usize::MAX - 2,
        ensures
            final(self).wf(),
            ({
                let key = row_key(texts(values@), old(self).after.key_indexes@);
                let held = old(self).last_before@.contains_key(key);
                let seen = old(self).seen_after@.contains_key(key);
                let malformed = values@.len() != old(self).after.columns@.len();
                let hash = row_hash(
                    texts(old(self).after.columns@),
                    texts(values@),
                    forms_view(numbers@),
                    texts(old(self).ignore@),
                    old(self).rules,
                );
                let differs = held && !old(self).last_before@[key].2 && !malformed && hash
                    != old(self).last_before@[key].0;
                &&& final(self).seen_after@ == old(self).seen_after@.insert(key, ())
                &&& final(self).summary.duplicate_keys_after == old(self).summary.duplicate_keys_after
                    + if seen { 1usize } else { 0usize }
                &&& texts(final(self).summary.added@) == if held {
                    texts(old(self).summary.added@)
                } else {
                    texts(old(self).summary.added@).push(key)
                }
                &&& if differs {
                    &&& final(self).changed_rows@.dom() == old(self).changed_rows@.dom().insert(key)
                    &&& texts(final(self).changed_rows@[key].0@) == texts(values@)
                    &&& forms_view(final(self).changed_rows@[key].1@) == forms_view(numbers@)
                    &&& forall|k: Seq<char>|
                        k != key && #[trigger] old(self).changed_rows@.contains_key(k)
                            ==> final(self).changed_rows@[k] == old(self).changed_rows@[k]
                } else if held {
                    final(self).changed_rows@ == old(self).changed_rows@.remove(key)
                } else {
                    final(self).changed_rows@ == old(self).changed_rows@
                }
            }),
            after_step(*old(self), *final(self), values@),
            final(self).summary.rows_after == old(self).summary.rows_after + 1,
            final(self).summary.malformed_after@ == if values@.len()
                != old(self).after.columns@.len() {
                old(self).summary.malformed_after@.push(((index + 2) as usize, values@.len() as usize))
            } else {
                old(self).summary.malformed_after@
            },
            final(self).phase == old(self).phase,
            final(self).rules == old(self).rules,
            final(self).ignore == old(self).ignore,
            final(self).before == old(self).before,
            final(self).after == old(self).after,
            final(self).last_before@ == old(self).last_before@,
            final(self).old_keys@ == old(self).old_keys@,
            final(self).summary.removed@ == old(self).summary.removed@,
            final(self).summary.changed@ == old(self).summary.changed@,
            final(self).summary.duplicate_keys_before == old(self).summary.duplicate_keys_before,
            final(self).summary.malformed_before@ == old(self).summary.malformed_before@,
            final(self).summary.rows_before == old(self).summary.rows_before,
    {
        self.summary.rows_after = self.summary.rows_after + 1;
        let malformed = values.len() != self.after.columns.len();
        if malformed {
            self.summary.malformed_after.push((index + 2, values.len()));
        }
        let key = key_of(values, self.after.key_indexes.as_slice());
        let ghost k0 = key@;
        let ghost old_seen = self.seen_after@;
        let ghost old_changed = self.changed_rows@;
        let ghost old_added = self.summary.added@;
        let seen = self.seen_after.contains_key(key.as_str());
        if seen {
            self.summary.duplicate_keys_after = self.summary.duplicate_keys_after + 1;
        }
        self.seen_after.insert(key.clone(), ());
        let last: Option<(u64, usize, bool)> = match self.last_before.get(key.as_str()) {
            Some(r) => Some(*r),
            None => None,
        };
        match last {
            None => {
                let ghost earlier = self.summary.added@;
                self.summary.added.push(key);
                proof {
                    let a = texts(self.summary.added@);
                    assert(a =~= texts(earlier).push(k0));
                    assert forall|k: Seq<char>| #[trigger] a.contains(k) implies !self.last_before@.contains_key(k)
                        && self.seen_after@.contains_key(k) by {
                        if k != k0 {
                            let i = choose|i: int| 0 <= i < a.len() && a[i] == k;
                            assert(texts(earlier)[i] == k);
                            assert(texts(earlier).contains(k));
                        }
                    }
                }
            },
            Some(row) => {
                let forms = comparable(
                    values,
                    numbers,
                    self.after.columns.as_slice(),
                    self.ignore.as_slice(),
                    self.rules,
                );
                let hash = hash_of(forms.as_slice());
                if !row.2 && !malformed && hash != row.0 {
                    let copy = copy_row(values);
                    let copied_numbers = copy_numbers(numbers);
                    self.changed_rows.insert(key, (copy, copied_numbers));
                } else {
                    self.changed_rows.remove(key.as_str());
                }
            },
        }
        proof {
            assert forall|k: Seq<char>| #[trigger] self.changed_rows@.contains_key(k) implies self.last_before@.contains_key(k)
                && self.seen_after@.contains_key(k) by {
                if k != k0 {
                    assert(old_changed.contains_key(k));
                }
            }
            assert forall|k: Seq<char>| #[trigger] texts(self.summary.added@).contains(k) implies !self.last_before@.contains_key(k)
                && self.seen_after@.contains_key(k) by {
                if k != k0 {
                    assert(old_seen.contains_key(k));
                }
            }
            assert forall|k: Seq<char>| #[trigger] self.seen_after@.contains_key(k) && !self.last_before@.contains_key(k)
                implies texts(self.summary.added@).contains(k) by {
                let a = texts(self.summary.added@);
                if k == k0 {
                    assert(a[a.len() - 1] == k0);
                } else {
                    assert(old_seen.contains_key(k));
                    assert(texts(old_added).contains(k));
                    let i = choose|i: int| 0 <= i < texts(old_added).len() && texts(old_added)[i] == k;
                    assert(a[i] == k);
                }
            }
        }
    }

    /// The newer file has been read: the older file's keys that it never met
    /// are removed, in the order the older file first had them.
    pub fn finish_after(&mut self)
        requires
            old(self).wf(),
            old(self).phase == Phase::ReadingAfter,
        ensures
            final(self).wf(),
            final(self).phase == Phase::Revisiting,
            texts(final(self).summary.removed@) == not_met(
                texts(old(self).old_keys@),
                old(self).seen_after@,
            ),
            final(self).rules == old(self).rules,
            final(self).ignore == old(self).ignore,
            final(self).before == old(self).before,
            final(self).after == old(self).after,
            final(self).last_before@ == old(self).last_before@,
            final(self).old_keys@ == old(self).old_keys@,
            final(self).seen_after@ == old(self).seen_after@,
            final(self).changed_rows@ == old(self).changed_rows@,
            final(self).summary.added@ == old(self).summary.added@,
            final(self).summary.changed@ == old(self).summary.changed@,
            final(self).summary.duplicate_keys_before == old(self).summary.duplicate_keys_before,
            final(self).summary.duplicate_keys_after == old(self).summary.duplicate_keys_after,
            final(self).summary.malformed_before@ == old(self).summary.malformed_before@,
            final(self).summary.malformed_after@ == old(self).summary.malformed_after@,
            final(self).summary.rows_before == old(self).summary.rows_before,
            final(self).summary.rows_after == old(self).summary.rows_after,
    {
        let mut removed: Vec<String> = Vec::new();
        let mut i: usize = 0;
        while i < self.old_keys.len()
            invariant
                i <= self.old_keys@.len(),
                texts(removed@) == not_met(texts(self.old_keys@).take(i as int), self.seen_after@),
            decreases self.old_keys@.len() - i,
        {
            proof {
                let done = texts(self.old_keys@).take(i + 1);
                assert(done.drop_last() =~= texts(self.old_keys@).take(i as int));
                assert(done.last() == self.old_keys@[i as int]@);
            }
            if !self.seen_after.contains_key(self.old_keys[i].as_str()) {
                let ghost earlier = removed@;
                removed.push(self.old_keys[i].clone());
                proof {
                    assert(texts(removed@) =~= texts(earlier).push(self.old_keys@[i as int]@));
                }
            }
            i = i + 1;
        }
        proof {
            assert(texts(self.old_keys@).take(self.old_keys@.len() as int) =~= texts(self.old_keys@));
            lemma_not_met_no_duplicates(texts(self.old_keys@), self.seen_after@);
            assert forall|k: Seq<char>| #[trigger] texts(self.old_keys@).contains(k) && !self.seen_after@.contains_key(k)
                implies texts(removed@).contains(k) by {
                lemma_not_met_complete(texts(self.old_keys@), self.seen_after@, k);
            }
            assert forall|k: Seq<char>| #[trigger] texts(removed@).contains(k) implies self.last_before@.contains_key(k)
                && !self.seen_after@.contains_key(k) by {
                lemma_not_met_members(texts(self.old_keys@), self.seen_after@, k);
            }
        }
        self.summary.removed = removed;
        self.phase = Phase::Revisiting;
    }

    /// Whether any key changed, so that pass 3 has work to do.
    pub fn needs_revisit(&self) -> (b: bool)
        ensures
            b == !self.changed_rows@.is_empty(),
    {
        !self.changed_rows.is_empty()
    }

    /// Pass 3: a row of the older file again, the `index`-th after the header
    /// as in pass 1, with the number forms of its cells. When its key changed and this is the last row of the key
    /// in the older file, its fields are compared with the kept newer row over
    /// the newer file's columns, and the changes, if any, are kept with the
    /// key. Any other row is passed over.
    pub fn revisit_before(&mut self, index: usize, values: &[String], numbers: &[Option<String>])
        requires
            old(self).wf(),
            old(self).phase == Phase::Revisiting,
        ensures
            final(self).wf(),
            ({
                let key = row_key(texts(values@), old(self).before.key_indexes@);
                if old(self).changed_rows@.contains_key(key) && old(self).last_before@[key].1 == index {
                    let changes = field_changes(
                        texts(old(self).after.columns@),
                        texts(values@),
                        forms_view(numbers@),
                        texts(old(self).changed_rows@[key].0@),
                        forms_view(old(self).changed_rows@[key].1@),
                        texts(old(self).ignore@),
                        old(self).rules,
                    );
                    entries_view(final(self).summary.changed@) == if changes.len() > 0 {
                        entries_view(old(self).summary.changed@).push((key, changes))
                    } else {
                        entries_view(old(self).summary.changed@)
                    }
                } else {
                    final(self).summary.changed@ == old(self).summary.changed@
                }
            }),
            final(self).phase == old(self).phase,
            final(self).rules == old(self).rules,
            final(self).ignore == old(self).ignore,
            final(self).before == old(self).before,
            final(self).after == old(self).after,
            final(self).last_before@ == old(self).last_before@,
            final(self).old_keys@ == old(self).old_keys@,
            final(self).seen_after@ == old(self).seen_after@,
            final(self).changed_rows@ == old(self).changed_rows@,
            final(self).summary.added@ == old(self).summary.added@,
            final(self).summary.removed@ == old(self).summary.removed@,
            final(self).summary.duplicate_keys_before == old(self).summary.duplicate_keys_before,
            final(self).summary.duplicate_keys_after == old(self).summary.duplicate_keys_after,
            final(self).summary.malformed_before@ == old(self).summary.malformed_before@,
            final(self).summary.malformed_after@ == old(self).summary.malformed_after@,
            final(self).summary.rows_before == old(self).summary.rows_before,
            final(self).summary.rows_after == old(self).summary.rows_after,
    {
        let key = key_of(values, self.before.key_indexes.as_slice());
        let last_index: Option<usize> = match self.last_before.get(key.as_str()) {
            Some(row) => Some(row.1),
            None => None,
        };
        let is_last = match last_index {
            Some(i) => i == index,
            None => false,
        };
        if !is_last {
            return;
        }
        match self.changed_rows.get(key.as_str()) {
            Some(new_row) => {
                let changes = changed_fields(
                    self.after.columns.as_slice(),
                    values,
                    numbers,
                    new_row.0.as_slice(),
                    new_row.1.as_slice(),
                    self.ignore.as_slice(),
                    self.rules,
                );
                if changes.len() > 0 {
                    let ghost earlier = self.summary.changed@;
                    let entry = (key, changes);
                    proof {
                        assert(entry_view(entry).1 == field_changes(
                            texts(self.after.columns@),
                            texts(values@),
                            forms_view(numbers@),
                            texts(self.changed_rows@[key@].0@),
                            forms_view(self.changed_rows@[key@].1@),
                            texts(self.ignore@),
                            self.rules,
                        ));
                    }
                    self.summary.changed.push(entry);
                    proof {
                        assert(entries_view(self.summary.changed@) =~= entries_view(earlier).push(
                            entry_view(entry),
                        ));
                        assert forall|i: int| 0 <= i < self.summary.changed@.len() implies self.last_before@.contains_key(
                            (#[trigger] self.summary.changed@[i]).0@,
                        ) && self.seen_after@.contains_key(self.summary.changed@[i].0@)
                            && self.summary.changed@[i].1@.len() > 0 by {
                            if i < earlier.len() {
                                assert(self.summary.changed@[i] == earlier[i]);
                            }
                        }
                    }
                }
            },
            None => {},
        }
    }

    /// The comparison is done: the added and removed keys sorted, and the
    /// changed entries sorted by key, entries of one key in the order found.
    pub fn finish(self) -> (summary: Summary)
        ensures
            summary.added@ == sorted_keys(self.summary.added@),
            summary.removed@ == sorted_keys(self.summary.removed@),
            summary.changed@ == merge_sorted(self.summary.changed@),
            summary.duplicate_keys_before == self.summary.duplicate_keys_before,
            summary.duplicate_keys_after == self.summary.duplicate_keys_after,
            summary.malformed_before@ == self.summary.malformed_before@,
            summary.malformed_after@ == self.summary.malformed_after@,
            summary.rows_before == self.summary.rows_before,
            summary.rows_after == self.summary.rows_after,
    {
        let summary = self.summary;
        let added = sort_keys(&summary.added);
        let removed = sort_keys(&summary.removed);
        let changed = sort_by_key(summary.changed);
        Summary {
            added,
            removed,
            changed,
            duplicate_keys_before: summary.duplicate_keys_before,
            duplicate_keys_after: summary.duplicate_keys_after,
            malformed_before: summary.malformed_before,
            malformed_after: summary.malformed_after,
            rows_before: summary.rows_before,
            rows_after: summary.rows_after,
        }
    }
}

/// No key is reported both as added and as removed, at any point of a
/// comparison and once its lists are sorted.
pub proof fn lemma_added_and_removed_are_apart(d: &Diff, k: Seq<char>)
    requires
        d.wf(),
    ensures
        !(texts(d.summary.added@).contains(k) && texts(d.summary.removed@).contains(k)),
        !(texts(sorted_keys(d.summary.added@)).contains(k) && texts(sorted_keys(d.summary.removed@)).contains(k)),
{
    lemma_sorted_keys_same_members(d.summary.added@, k);
    lemma_sorted_keys_same_members(d.summary.removed@, k);
}

/// Once the newer file is read, the removed keys are exactly the keys of
/// the older file that the newer file never met.
pub proof fn lemma_removed_are_the_unmet_keys(d: &Diff, k: Seq<char>)
    requires
        d.wf(),
        d.phase == Phase::Revisiting,
    ensures
        texts(d.summary.removed@).contains(k) <==> (texts(d.old_keys@).contains(k)
            && !d.seen_after@.contains_key(k)),
{
    if texts(d.summary.removed@).contains(k) {
        assert(d.last_before@.contains_key(k));
    }
}

/// The added keys are exactly the keys met in the newer file that the older
/// file does not have.
pub proof fn lemma_added_are_the_new_keys(d: &Diff, k: Seq<char>)
    requires
        d.wf(),
    ensures
        texts(d.summary.added@).contains(k) <==> (d.seen_after@.contains_key(k)
            && !texts(d.old_keys@).contains(k)),
{
    assert(d.last_before@.contains_key(k) <==> texts(d.old_keys@).contains(k));
}

/// What a comparison reports is consistent with the two files: an added key
/// is in the newer file only; a removed key is in the older file only, and
/// removed once; a changed key is in both and lists at least one changed
/// field.
pub proof fn lemma_reported_keys_are_where_they_belong(d: &Diff, k: Seq<char>, i: int)
    requires
        d.wf(),
    ensures
        texts(d.summary.added@).contains(k) ==> d.seen_after@.contains_key(k) && !texts(d.old_keys@).contains(k),
        texts(d.summary.removed@).no_duplicates(),
        texts(d.summary.removed@).contains(k) ==> texts(d.old_keys@).contains(k) && !d.seen_after@.contains_key(k),
        0 <= i < d.summary.changed@.len() ==> texts(d.old_keys@).contains(d.summary.changed@[i].0@)
            && d.seen_after@.contains_key(d.summary.changed@[i].0@) && d.summary.changed@[i].1@.len() > 0,
{
    if texts(d.summary.added@).contains(k) {
        assert(!d.last_before@.contains_key(k));
    }
    if texts(d.summary.removed@).contains(k) {
        assert(d.last_before@.contains_key(k));
    }
    if 0 <= i < d.summary.changed@.len() {
        assert(d.last_before@.contains_key(d.summary.changed@[i].0@));
    }
}

/// What pass 1 keeps of the older file's rows (each with its number forms):
/// for each key, the row hash, index and field-count flag of its last row.
pub open spec fn last_rows(
    before: Rows,
    ignore: Seq<String>,
    rules: Normalisation,
    rows: Seq<(Seq<String>, Seq<Option<String>>)>,
) -> Map<Seq<char>, (u64, usize, bool)>
    decreases rows.len(),
{
    if rows.len() == 0 {
        Map::empty()
    } else {
        let (values, numbers) = rows.last();
        let i = rows.len() - 1;
        last_rows(before, ignore, rules, rows.drop_last()).insert(
            row_key(texts(values), before.key_indexes@),
            (
                row_hash(texts(before.columns@), texts(values), forms_view(numbers), texts(ignore), rules),
                i as usize,
                values.len() != before.columns@.len(),
            ),
        )
    }
}

/// The keys of the newer file's rows that `held` does not have, one for each
/// such row, in order.
pub open spec fn new_keys<V>(after: Rows, held: Map<Seq<char>, V>, rows: Seq<Seq<String>>) -> Seq<Seq<char>>
    decreases rows.len(),
{
    if rows.len() == 0 {
        Seq::empty()
    } else {
        let key = row_key(texts(rows.last()), after.key_indexes@);
        let earlier = new_keys(after, held, rows.drop_last());
        if held.contains_key(key) {
            earlier
        } else {
            earlier.push(key)
        }
    }
}

/// The keys of the newer file's rows.
pub open spec fn keys_met(after: Rows, rows: Seq<Seq<String>>) -> Set<Seq<char>>
    decreases rows.len(),
{
    if rows.len() == 0 {
        Set::empty()
    } else {
        keys_met(after, rows.drop_last()).insert(row_key(texts(rows.last()), after.key_indexes@))
    }
}

/// Pass 1 over the whole older file: starting from a comparison that has
/// read nothing, the row `i` handed to the `i`-th step, every key ends up
/// standing for its last row (row hash, index, field-count flag), and every
/// row is counted.
pub proof fn lemma_first_pass(states: Seq<Diff>, rows: Seq<(Seq<String>, Seq<Option<String>>)>)
    requires
        states.len() == rows.len() + 1,
        states[0].last_before@ == Map::<Seq<char>, (u64, usize, bool)>::empty(),
        forall|i: int|
            0 <= i < rows.len() ==> before_step(
                #[trigger] states[i],
                states[i + 1],
                i as usize,
                rows[i].0,
                rows[i].1,
            ),
    ensures
        states.last().last_before@ == last_rows(states[0].before, states[0].ignore@, states[0].rules, rows),
        states.last().summary.rows_before == states[0].summary.rows_before + rows.len(),
        states.last().before == states[0].before,
        states.last().ignore == states[0].ignore,
        states.last().rules == states[0].rules,
    decreases rows.len(),
{
    if rows.len() > 0 {
        let n = rows.len() - 1;
        let s2 = states.drop_last();
        let r2 = rows.drop_last();
        assert forall|i: int| 0 <= i < r2.len() implies before_step(
            #[trigger] s2[i],
            s2[i + 1],
            i as usize,
            r2[i].0,
            r2[i].1,
        ) by {
            assert(before_step(states[i], states[i + 1], i as usize, rows[i].0, rows[i].1));
        }
        lemma_first_pass(s2, r2);
        assert(before_step(states[n], states[n + 1], n as usize, rows[n].0, rows[n].1));
        assert(s2.last() == states[n]);
    }
}

/// Pass 2 over the whole newer file: each row of the newer file whose key
/// the older file does not have adds that key, once per such row and in
/// order, every key of the newer file is met, and the older file's rows are
/// left as they were.
pub proof fn lemma_second_pass(states: Seq<Diff>, rows: Seq<Seq<String>>)
    requires
        states.len() == rows.len() + 1,
        forall|i: int| 0 <= i < rows.len() ==> after_step(#[trigger] states[i], states[i + 1], rows[i]),
    ensures
        texts(states.last().summary.added@) == texts(states[0].summary.added@) + new_keys(
            states[0].after,
            states[0].last_before@,
            rows,
        ),
        states.last().seen_after@.dom() == states[0].seen_after@.dom() + keys_met(states[0].after, rows),
        states.last().last_before@ == states[0].last_before@,
        states.last().summary.rows_after == states[0].summary.rows_after + rows.len(),
        states.last().after == states[0].after,
    decreases rows.len(),
{
    if rows.len() == 0 {
        assert(texts(states[0].summary.added@) + Seq::<Seq<char>>::empty() =~= texts(states[0].summary.added@));
        assert(states[0].seen_after@.dom() + Set::<Seq<char>>::empty() =~= states[0].seen_after@.dom());
    } else {
        let n = rows.len() - 1;
        let s2 = states.drop_last();
        let r2 = rows.drop_last();
        assert forall|i: int| 0 <= i < r2.len() implies after_step(#[trigger] s2[i], s2[i + 1], r2[i]) by {
            assert(after_step(states[i], states[i + 1], rows[i]));
        }
        lemma_second_pass(s2, r2);
        assert(after_step(states[n], states[n + 1], rows[n]));
        assert(s2.last() == states[n]);
        let key = row_key(texts(rows[n]), states[0].after.key_indexes@);
        assert(rows.last() == rows[n]);
        if states[0].last_before@.contains_key(key) {
            assert(texts(states.last().summary.added@) =~= texts(states[0].summary.added@) + new_keys(
                states[0].after,
                states[0].last_before@,
                rows,
            ));
        } else {
            assert(texts(states.last().summary.added@) =~= texts(states[0].summary.added@) + new_keys(
                states[0].after,
                states[0].last_before@,
                rows,
            ));
        }
        assert(states.last().seen_after@.dom() =~= states[0].seen_after@.dom() + keys_met(states[0].after, rows));
    }
}

} // verus!
