//! What moved, by column: for each column, how many changed rows touch it and
//! which transitions (`before -> after`, as shown in a summary) happened most.

use vstd::prelude::*;
use vstd::hash_map::StringHashMap;
use std::collections::VecDeque;
use crate::compare::FieldChange;
use crate::diff::entries_view;
use crate::rows::{short, shortened};
use crate::text::string_of;

verus! {

/// A changed field as texts: column, value before, value after.
pub type ChangeView = (Seq<char>, Seq<char>, Seq<char>);

/// A column's tally as texts: the column, how many changes touch it, and
/// each of its transitions with how often it happened, in the order first met.
pub type TallyView = (Seq<char>, nat, Seq<(Seq<char>, nat)>);

/// All changed fields of all changed keys, in order.
pub open spec fn all_changes(entries: Seq<(Seq<char>, Seq<ChangeView>)>) -> Seq<ChangeView>
    decreases entries.len(),
{
    if entries.len() == 0 {
        Seq::empty()
    } else {
        all_changes(entries.drop_last()) + entries.last().1
    }
}

pub open spec fn arrow() -> Seq<char> {
    seq![' ', '-', '>', ' ']
}

/// How a change is shown in a summary: `before -> after`, both shortened.
pub open spec fn transition(c: ChangeView) -> Seq<char> {
    shortened(c.1) + arrow() + shortened(c.2)
}

/// The position of the tally of `column`, or the number of tallies.
pub open spec fn find_tally(t: Seq<TallyView>, column: Seq<char>) -> int
    decreases t.len(),
{
    if t.len() == 0 {
        0
    } else if t[0].0 == column {
        0
    } else {
        1 + find_tally(t.drop_first(), column)
    }
}

/// The position of `text` among counted texts, or their number.
pub open spec fn find_text(s: Seq<(Seq<char>, nat)>, text: Seq<char>) -> int
    decreases s.len(),
{
    if s.len() == 0 {
        0
    } else if s[0].0 == text {
        0
    } else {
        1 + find_text(s.drop_first(), text)
    }
}

/// The texts counted: one more for `text`, at the end when it is new.
pub open spec fn count_text(s: Seq<(Seq<char>, nat)>, text: Seq<char>) -> Seq<(Seq<char>, nat)> {
    let j = find_text(s, text);
    if j == s.len() {
        s.push((text, 1nat))
    } else {
        s.update(j, (text, s[j].1 + 1))
    }
}

/// The tallies of all columns touched by `changes`, in the order first met.
pub open spec fn tally(changes: Seq<ChangeView>) -> Seq<TallyView>
    decreases changes.len(),
{
    if changes.len() == 0 {
        Seq::empty()
    } else {
        let t = tally(changes.drop_last());
        let c = changes.last();
        let i = find_tally(t, c.0);
        if i == t.len() {
            t.push((c.0, 1nat, seq![(transition(c), 1nat)]))
        } else {
            t.update(i, (c.0, t[i].1 + 1, count_text(t[i].2, transition(c))))
        }
    }
}

/// `x` placed into `s` after every entry of rank at least its own, scanning
/// from the end: in a sequence sorted by decreasing rank, the place that
/// keeps it sorted and keeps equal ranks in their order.
pub open spec fn insert_desc<A>(s: Seq<A>, x: A, rank: spec_fn(A) -> nat) -> Seq<A>
    decreases s.len(),
{
    if s.len() == 0 || rank(s.last()) >= rank(x) {
        s.push(x)
    } else {
        insert_desc(s.drop_last(), x, rank).push(s.last())
    }
}

/// `s` sorted by decreasing rank, equal ranks in their order.
pub open spec fn sort_desc<A>(s: Seq<A>, rank: spec_fn(A) -> nat) -> Seq<A>
    decreases s.len(),
{
    if s.len() == 0 {
        Seq::empty()
    } else {
        insert_desc(sort_desc(s.drop_last(), rank), s.last(), rank)
    }
}

/// The first `k` entries of `s`, or all of them when there are fewer.
pub open spec fn first<A>(s: Seq<A>, k: nat) -> Seq<A> {
    if s.len() <= k {
        s
    } else {
        s.take(k as int)
    }
}

pub open spec fn tally_rank(t: TallyView) -> nat {
    t.1
}

pub open spec fn count_rank(c: (Seq<char>, nat)) -> nat {
    c.1
}

/// What the summary shows of one column: the column, its number of changes,
/// its three most frequent transitions (ties in the order first met) and the
/// number of its distinct transitions.
pub open spec fn column_moves_view(t: TallyView) -> (Seq<char>, nat, Seq<(Seq<char>, nat)>, nat) {
    (t.0, t.1, first(sort_desc(t.2, |c: (Seq<char>, nat)| count_rank(c)), 3), t.2.len())
}

/// What moved, by column: the columns by decreasing number of changes (ties
/// in the order first met), each with its most frequent transitions.
pub open spec fn moves_spec(entries: Seq<(Seq<char>, Seq<ChangeView>)>) -> Seq<
    (Seq<char>, nat, Seq<(Seq<char>, nat)>, nat),
> {
    sort_desc(tally(all_changes(entries)), |t: TallyView| tally_rank(t)).map_values(
        |t: TallyView| column_moves_view(t),
    )
}

// ---------------------------------------------------------------------------

proof fn lemma_find_text_at(s: Seq<(Seq<char>, nat)>, text: Seq<char>, k: int)
    requires
        0 <= k <= s.len(),
        forall|j: int| 0 <= j < k ==> (#[trigger] s[j]).0 != text,
        k == s.len() || s[k].0 == text,
    ensures
        find_text(s, text) == k,
    decreases k,
{
    if k > 0 {
        let r = s.drop_first();
        assert forall|j: int| 0 <= j < k - 1 implies (#[trigger] r[j]).0 != text by {
            assert(r[j] == s[j + 1]);
        }
        if k - 1 < r.len() {
            assert(r[k - 1] == s[k]);
        }
        lemma_find_text_at(r, text, k - 1);
        assert(s[0].0 != text);
    }
}

proof fn lemma_find_tally_at(t: Seq<TallyView>, column: Seq<char>, k: int)
    requires
        0 <= k <= t.len(),
        forall|j: int| 0 <= j < k ==> (#[trigger] t[j]).0 != column,
        k == t.len() || t[k].0 == column,
    ensures
        find_tally(t, column) == k,
    decreases k,
{
    if k > 0 {
        let r = t.drop_first();
        assert forall|j: int| 0 <= j < k - 1 implies (#[trigger] r[j]).0 != column by {
            assert(r[j] == t[j + 1]);
        }
        if k - 1 < r.len() {
            assert(r[k - 1] == t[k]);
        }
        lemma_find_tally_at(r, column, k - 1);
        assert(t[0].0 != column);
    }
}

proof fn lemma_find_text_bound(s: Seq<(Seq<char>, nat)>, text: Seq<char>)
    ensures
        0 <= find_text(s, text) <= s.len(),
        find_text(s, text) < s.len() ==> s[find_text(s, text)].0 == text,
    decreases s.len(),
{
    if s.len() > 0 && s[0].0 != text {
        lemma_find_text_bound(s.drop_first(), text);
    }
}

proof fn lemma_find_tally_bound(t: Seq<TallyView>, column: Seq<char>)
    ensures
        0 <= find_tally(t, column) <= t.len(),
        find_tally(t, column) < t.len() ==> t[find_tally(t, column)].0 == column,
    decreases t.len(),
{
    if t.len() > 0 && t[0].0 != column {
        lemma_find_tally_bound(t.drop_first(), column);
    }
}

/// No count in a tally exceeds the number of changes tallied.
proof fn lemma_tally_bounded(changes: Seq<ChangeView>)
    ensures
        forall|i: int|
            0 <= i < tally(changes).len() ==> (#[trigger] tally(changes)[i]).1 <= changes.len()
                && forall|j: int|
                0 <= j < tally(changes)[i].2.len() ==> (#[trigger] tally(changes)[i].2[j]).1
                    <= changes.len(),
    decreases changes.len(),
{
    if changes.len() > 0 {
        let prev = changes.drop_last();
        lemma_tally_bounded(prev);
        let t = tally(prev);
        let c = changes.last();
        let i = find_tally(t, c.0);
        lemma_find_tally_bound(t, c.0);
        if i < t.len() {
            lemma_find_text_bound(t[i].2, transition(c));
        }
    }
}

// ---------------------------------------------------------------------------

/// The tally of one column, with an index from transition text to position.
pub struct ColumnTally {
    pub column: String,
    pub rows: usize,
    pub transitions: Vec<(String, usize)>,
    pub index: StringHashMap<usize>,
}

pub open spec fn counted_view(s: Seq<(String, usize)>) -> Seq<(Seq<char>, nat)> {
    s.map_values(|e: (String, usize)| (e.0@, e.1 as nat))
}

impl ColumnTally {
    pub open spec fn view_tally(&self) -> TallyView {
        (self.column@, self.rows as nat, counted_view(self.transitions@))
    }

    /// The index gives the position of each transition, and only of those.
    pub open spec fn wf(&self) -> bool {
        &&& forall|j: int|
            0 <= j < self.transitions@.len() ==> #[trigger] self.index@.contains_key(
                self.transitions@[j].0@,
            ) && self.index@[self.transitions@[j].0@] == j
        &&& forall|k: Seq<char>| #[trigger]
            self.index@.contains_key(k) ==> self.index@[k] < self.transitions@.len()
                && self.transitions@[self.index@[k] as int].0@ == k
    }
}

pub open spec fn tallies_view(t: Seq<ColumnTally>) -> Seq<TallyView> {
    t.map_values(|c: ColumnTally| c.view_tally())
}

/// The text of a transition.
fn transition_text(c: &FieldChange) -> (t: String)
    ensures
        t@ == transition(c@),
{
    let b = short(c.before.as_str());
    let a = short(c.after.as_str());
    let mut v: Vec<char> = Vec::new();
    let bc = crate::text::chars_of(b.as_str());
    let ac = crate::text::chars_of(a.as_str());
    let mut i: usize = 0;
    while i < bc.len()
        invariant
            i <= bc@.len(),
            v@ == bc@.take(i as int),
        decreases bc@.len() - i,
    {
        v.push(bc[i]);
        proof {
            assert(bc@.take(i + 1) =~= bc@.take(i as int).push(bc@[i as int]));
        }
        i = i + 1;
    }
    v.push(' ');
    v.push('-');
    v.push('>');
    v.push(' ');
    let ghost prefix = v@;
    proof {
        assert(bc@.take(bc@.len() as int) =~= bc@);
        assert(prefix =~= bc@ + arrow());
    }
    let mut j: usize = 0;
    while j < ac.len()
        invariant
            j <= ac@.len(),
            v@ == prefix + ac@.take(j as int),
        decreases ac@.len() - j,
    {
        v.push(ac[j]);
        proof {
            assert(ac@.take(j + 1) =~= ac@.take(j as int).push(ac@[j as int]));
        }
        j = j + 1;
    }
    proof {
        assert(ac@.take(ac@.len() as int) =~= ac@);
    }
    string_of(&v)
}

/// Counts one more change in the tallies.
fn record(tallies: &mut Vec<ColumnTally>, c: &FieldChange, Ghost(done): Ghost<Seq<ChangeView>>)
    requires
        forall|i: int| 0 <= i < old(tallies)@.len() ==> (#[trigger] old(tallies)@[i]).wf(),
        tallies_view(old(tallies)@) == tally(done),
        done.len() + 1 < usize::MAX,
    ensures
        forall|i: int| 0 <= i < final(tallies)@.len() ==> (#[trigger] final(tallies)@[i]).wf(),
        tallies_view(final(tallies)@) == tally(done.push(c@)),
{
    proof {
        lemma_tally_bounded(done);
        assert(done.push(c@).drop_last() =~= done);
    }
    let ghost t = tally(done);
    let text = transition_text(c);
    let n = tallies.len();
    let mut i: usize = 0;
    while i < n && tallies[i].column != c.column
        invariant
            i <= n == tallies@.len(),
            forall|j: int| 0 <= j < i ==> (#[trigger] tallies@[j]).column@ != c.column@,
        decreases n - i,
    {
        i = i + 1;
    }
    proof {
        assert forall|j: int| 0 <= j < i implies (#[trigger] t[j]).0 != c@.0 by {
            assert(t[j] == tallies@[j].view_tally());
        }
        if i < n {
            assert(t[i as int] == tallies@[i as int].view_tally());
        }
        lemma_find_tally_at(t, c@.0, i as int);
    }
    if i == n {
        let mut transitions: Vec<(String, usize)> = Vec::new();
        transitions.push((text.clone(), 1));
        let mut index: StringHashMap<usize> = StringHashMap::new();
        index.insert(text, 0);
        let fresh = ColumnTally { column: c.column.clone(), rows: 1, transitions, index };
        proof {
            assert(counted_view(fresh.transitions@) =~= seq![(transition(c@), 1nat)]);
            assert(fresh.wf());
        }
        let ghost earlier = tallies@;
        tallies.push(fresh);
        proof {
            assert(tallies_view(tallies@) =~= tallies_view(earlier).push(fresh.view_tally()));
            assert forall|j: int| 0 <= j < tallies@.len() implies (#[trigger] tallies@[j]).wf() by {
                if j < earlier.len() {
                    assert(tallies@[j] == earlier[j]);
                }
            }
        }
    } else {
        let ghost earlier = tallies@;
        let mut entry = tallies.remove(i);
        proof {
            assert(entry == earlier[i as int]);
            assert(entry.wf());
            assert(t[i as int] == entry.view_tally());
            assert(entry.rows as nat <= done.len());
        }
        entry.rows = entry.rows + 1;
        let ghost counted = counted_view(entry.transitions@);
        let ghost tx = transition(c@);
        match entry.index.get(text.as_str()) {
            Some(pos) => {
                let j = *pos;
                proof {
                    assert forall|m: int| 0 <= m < j implies (#[trigger] counted[m]).0 != tx by {
                        assert(counted[m].0 == entry.transitions@[m].0@);
                        if counted[m].0 == tx {
                            assert(entry.index@[entry.transitions@[m].0@] == m);
                        }
                    }
                    lemma_find_text_at(counted, tx, j as int);
                    assert(counted[j as int].1 <= done.len());
                }
                let old_count = entry.transitions[j].1;
                let label = entry.transitions[j].0.clone();
                entry.transitions.set(j, (label, old_count + 1));
                proof {
                    assert(counted_view(entry.transitions@) =~= count_text(counted, tx));
                    assert(entry.wf());
                }
            },
            None => {
                proof {
                    assert forall|m: int| 0 <= m < counted.len() implies (#[trigger] counted[m]).0
                        != tx by {
                        assert(counted[m].0 == entry.transitions@[m].0@);
                        assert(entry.index@.contains_key(entry.transitions@[m].0@));
                    }
                    lemma_find_text_at(counted, tx, counted.len() as int);
                }
                let pos = entry.transitions.len();
                entry.transitions.push((text.clone(), 1));
                entry.index.insert(text, pos);
                proof {
                    assert(counted_view(entry.transitions@) =~= count_text(counted, tx));
                    assert forall|m: int| 0 <= m < entry.transitions@.len() implies #[trigger] entry.index@.contains_key(
                        entry.transitions@[m].0@,
                    ) && entry.index@[entry.transitions@[m].0@] == m by {
                        if m < pos {
                            assert(entry.transitions@[m].0@ != tx);
                        }
                    }
                    assert(entry.wf());
                }
            },
        }
        let ghost updated = entry.view_tally();
        tallies.insert(i, entry);
        proof {
            assert(updated == (c@.0, t[i as int].1 + 1, count_text(t[i as int].2, tx)));
            assert(tallies_view(tallies@) =~= t.update(i as int, updated));
            assert forall|j: int| 0 <= j < tallies@.len() implies (#[trigger] tallies@[j]).wf() by {
                if j < i {
                    assert(tallies@[j] == earlier[j]);
                } else if j > i {
                    assert(tallies@[j] == earlier[j]);
                }
            }
        }
    }
}

// ---------------------------------------------------------------------------
// Ordering by decreasing rank

/// Sorted by decreasing rank.
pub open spec fn sorted_desc<A>(s: Seq<A>, rank: spec_fn(A) -> nat) -> bool {
    forall|i: int, j: int| 0 <= i < j < s.len() ==> rank(#[trigger] s[i]) >= rank(#[trigger] s[j])
}

/// Where `insert_desc` puts `x`: after the last entry of rank at least its
/// own.
pub proof fn lemma_insert_desc_at<A>(s: Seq<A>, x: A, rank: spec_fn(A) -> nat, p: int)
    requires
        0 <= p <= s.len(),
        forall|j: int| p <= j < s.len() ==> rank(#[trigger] s[j]) < rank(x),
        p == 0 || rank(s[p - 1]) >= rank(x),
    ensures
        insert_desc(s, x, rank) == s.take(p).push(x) + s.skip(p),
    decreases s.len(),
{
    if p == s.len() {
        assert(s.take(p) =~= s);
        assert(s.skip(p) =~= Seq::<A>::empty());
        assert(s.take(p).push(x) + s.skip(p) =~= s.push(x));
        if s.len() > 0 {
            assert(s.last() == s[p - 1]);
        }
    } else {
        assert(rank(s[s.len() - 1]) < rank(x));
        let s2 = s.drop_last();
        assert forall|j: int| p <= j < s2.len() implies rank(#[trigger] s2[j]) < rank(x) by {
            assert(s2[j] == s[j]);
        }
        if p > 0 {
            assert(s2[p - 1] == s[p - 1]);
        }
        lemma_insert_desc_at(s2, x, rank, p);
        assert(s2.take(p) =~= s.take(p));
        assert((s.take(p).push(x) + s2.skip(p)).push(s.last()) =~= s.take(p).push(x) + s.skip(p));
    }
}

proof fn lemma_insert_desc_sorted<A>(s: Seq<A>, x: A, rank: spec_fn(A) -> nat)
    requires
        sorted_desc(s, rank),
    ensures
        sorted_desc(insert_desc(s, x, rank), rank),
        insert_desc(s, x, rank).len() == s.len() + 1,
    decreases s.len(),
{
    if s.len() == 0 || rank(s.last()) >= rank(x) {
        let r = s.push(x);
        assert forall|i: int, j: int| 0 <= i < j < r.len() implies rank(#[trigger] r[i]) >= rank(
            #[trigger] r[j],
        ) by {
            if j == s.len() {
                assert(rank(s[i]) >= rank(s[s.len() - 1]));
            } else {
                assert(r[i] == s[i] && r[j] == s[j]);
            }
        }
    } else {
        let s2 = s.drop_last();
        assert(sorted_desc(s2, rank)) by {
            assert forall|i: int, j: int| 0 <= i < j < s2.len() implies rank(#[trigger] s2[i])
                >= rank(#[trigger] s2[j]) by {
                assert(s2[i] == s[i] && s2[j] == s[j]);
            }
        }
        lemma_insert_desc_sorted(s2, x, rank);
        let m = insert_desc(s2, x, rank);
        let r = m.push(s.last());
        // every entry of `m` is `x` or an entry of `s2`, all ranked at least `s.last()`
        assert forall|i: int| 0 <= i < m.len() implies rank(#[trigger] m[i]) >= rank(s.last()) by {
            lemma_insert_desc_members(s2, x, rank, i);
            if m[i] != x {
                let k = choose|k: int| 0 <= k < s2.len() && m[i] == s2[k];
                assert(s2[k] == s[k]);
            }
        }
        assert forall|i: int, j: int| 0 <= i < j < r.len() implies rank(#[trigger] r[i]) >= rank(
            #[trigger] r[j],
        ) by {
            if j == m.len() {
                assert(r[i] == m[i]);
            } else {
                assert(r[i] == m[i] && r[j] == m[j]);
            }
        }
    }
}

proof fn lemma_insert_desc_members<A>(s: Seq<A>, x: A, rank: spec_fn(A) -> nat, i: int)
    requires
        0 <= i < s.len() + 1,
    ensures
        insert_desc(s, x, rank).len() == s.len() + 1,
        insert_desc(s, x, rank)[i] == x || exists|k: int|
            0 <= k < s.len() && insert_desc(s, x, rank)[i] == s[k],
    decreases s.len(),
{
    if s.len() == 0 || rank(s.last()) >= rank(x) {
        if i < s.len() {
            assert(insert_desc(s, x, rank)[i] == s[i]);
        }
    } else {
        let s2 = s.drop_last();
        if i < s.len() {
            lemma_insert_desc_members(s2, x, rank, i);
            let m = insert_desc(s2, x, rank);
            assert(insert_desc(s, x, rank)[i] == m[i]);
            if m[i] != x {
                let k = choose|k: int| 0 <= k < s2.len() && m[i] == s2[k];
                assert(s2[k] == s[k]);
            }
        } else {
            lemma_insert_desc_members(s2, x, rank, 0);
            assert(insert_desc(s, x, rank)[i] == s[s.len() - 1]);
        }
    }
}

proof fn lemma_sort_desc_sorted<A>(s: Seq<A>, rank: spec_fn(A) -> nat)
    ensures
        sorted_desc(sort_desc(s, rank), rank),
        sort_desc(s, rank).len() == s.len(),
    decreases s.len(),
{
    if s.len() > 0 {
        lemma_sort_desc_sorted(s.drop_last(), rank);
        lemma_insert_desc_sorted(sort_desc(s.drop_last(), rank), s.last(), rank);
    }
}

/// Inserting into a sorted sequence and keeping the first `k` entries needs
/// only its first `k` entries.
proof fn lemma_insert_desc_first<A>(s: Seq<A>, x: A, rank: spec_fn(A) -> nat, k: nat)
    requires
        sorted_desc(s, rank),
    ensures
        first(insert_desc(s, x, rank), k) == first(insert_desc(first(s, k), x, rank), k),
{
    if k < s.len() {
        let p = place_witness(s, x, rank);
        lemma_insert_desc_at(s, x, rank, p);
        let t = s.take(k as int);
        assert(first(s, k) == t);
        if p < k {
            assert forall|j: int| p <= j < t.len() implies rank(#[trigger] t[j]) < rank(x) by {
                assert(t[j] == s[j]);
            }
            if p > 0 {
                assert(t[p - 1] == s[p - 1]);
            }
            lemma_insert_desc_at(t, x, rank, p);
            assert((s.take(p).push(x) + s.skip(p)).take(k as int) =~= (t.take(p).push(x) + t.skip(
                p,
            )).take(k as int));
        } else {
            // `x` lands after the first `k` entries of `s`, and after all of `t`
            if k > 0 {
                assert(rank(s[k - 1]) >= rank(s[p - 1]));
                assert(t[k - 1] == s[k - 1]);
            }
            lemma_insert_desc_at(t, x, rank, k as int);
            assert((s.take(p).push(x) + s.skip(p)).take(k as int) =~= t);
            assert((t.take(k as int).push(x) + t.skip(k as int)).take(k as int) =~= t);
        }
    }
}

/// The place found by scanning from the end.
proof fn place_witness<A>(s: Seq<A>, x: A, rank: spec_fn(A) -> nat) -> (p: int)
    ensures
        0 <= p <= s.len(),
        forall|j: int| p <= j < s.len() ==> rank(#[trigger] s[j]) < rank(x),
        p == 0 || rank(s[p - 1]) >= rank(x),
    decreases s.len(),
{
    if s.len() == 0 || rank(s.last()) >= rank(x) {
        s.len() as int
    } else {
        let s2 = s.drop_last();
        let p = place_witness(s2, x, rank);
        assert forall|j: int| p <= j < s.len() implies rank(#[trigger] s[j]) < rank(x) by {
            if j < s2.len() {
                assert(s2[j] == s[j]);
            }
        }
        if p > 0 {
            assert(s2[p - 1] == s[p - 1]);
        }
        p
    }
}

/// The entries of `ts` with the three highest counts, ties in their order.
fn top_three(ts: &Vec<(String, usize)>) -> (top: Vec<(String, usize)>)
    ensures
        counted_view(top@) == first(
            sort_desc(counted_view(ts@), |c: (Seq<char>, nat)| count_rank(c)),
            3,
        ),
{
    let ghost rank = |c: (Seq<char>, nat)| count_rank(c);
    let ghost all = counted_view(ts@);
    let mut top: Vec<(String, usize)> = Vec::new();
    let mut i: usize = 0;
    while i < ts.len()
        invariant
            i <= ts@.len(),
            all == counted_view(ts@),
            rank == (|c: (Seq<char>, nat)| count_rank(c)),
            top@.len() <= 3,
            counted_view(top@) == first(sort_desc(all.take(i as int), rank), 3),
        decreases ts@.len() - i,
    {
        let ghost x = all[i as int];
        let ghost sorted = sort_desc(all.take(i as int), rank);
        proof {
            assert(all.take(i + 1).drop_last() =~= all.take(i as int));
            assert(all.take(i + 1).last() == x);
            lemma_sort_desc_sorted(all.take(i as int), rank);
            lemma_insert_desc_first(sorted, x, rank, 3);
        }
        let count = ts[i].1;
        let mut p = top.len();
        while p > 0 && top[p - 1].1 < count
            invariant
                p <= top@.len(),
                forall|j: int| p <= j < top@.len() ==> top@[j].1 < count,
            decreases p,
        {
            p = p - 1;
        }
        let ghost before = counted_view(top@);
        proof {
            assert forall|j: int| p <= j < before.len() implies rank(#[trigger] before[j]) < rank(x) by {
                assert(before[j].1 == top@[j].1);
            }
            if p > 0 {
                assert(before[p - 1].1 == top@[p - 1].1);
            }
            lemma_insert_desc_at(before, x, rank, p as int);
        }
        let entry = (ts[i].0.clone(), count);
        top.insert(p, entry);
        proof {
            assert(counted_view(top@) =~= before.take(p as int).push(x) + before.skip(p as int));
        }
        if top.len() > 3 {
            top.truncate(3);
        }
        proof {
            assert(counted_view(top@) =~= first(insert_desc(before, x, rank), 3));
            assert(first(sorted, 3) == before);
        }
        i = i + 1;
    }
    proof {
        assert(all.take(ts@.len() as int) =~= all);
    }
    top
}

/// The tallies sorted by decreasing number of changes, ties in their order.
fn sort_tallies(tallies: Vec<ColumnTally>) -> (sorted: Vec<ColumnTally>)
    requires
        forall|i: int| 0 <= i < tallies@.len() ==> (#[trigger] tallies@[i]).wf(),
    ensures
        forall|i: int| 0 <= i < sorted@.len() ==> (#[trigger] sorted@[i]).wf(),
        tallies_view(sorted@) == sort_desc(tallies_view(tallies@), |t: TallyView| tally_rank(t)),
{
    let ghost rank = |t: TallyView| tally_rank(t);
    let ghost all = tallies_view(tallies@);
    let ghost input = tallies@;
    let mut rest = tallies;
    let mut queue: VecDeque<ColumnTally> = VecDeque::new();
    while rest.len() > 0
        invariant
            rest@ + queue@ == input,
        decreases rest@.len(),
    {
        let ghost before_r = rest@;
        let ghost before_q = queue@;
        if let Some(e) = rest.pop() {
            queue.push_front(e);
            proof {
                assert(rest@ + queue@ =~= before_r + before_q);
            }
        }
    }
    proof {
        assert(queue@ =~= input);
    }
    let mut sorted: Vec<ColumnTally> = Vec::new();
    let ghost mut taken: int = 0;
    while queue.len() > 0
        invariant
            0 <= taken <= input.len(),
            queue@ == input.skip(taken),
            all == tallies_view(input),
            rank == (|t: TallyView| tally_rank(t)),
            forall|i: int| 0 <= i < input.len() ==> (#[trigger] input[i]).wf(),
            forall|i: int| 0 <= i < sorted@.len() ==> (#[trigger] sorted@[i]).wf(),
            tallies_view(sorted@) == sort_desc(all.take(taken), rank),
        decreases queue@.len(),
    {
        let ghost before_q = queue@;
        if let Some(e) = queue.pop_front() {
            let ghost x = e.view_tally();
            proof {
                assert(e == input[taken]);
                assert(all.take(taken + 1).drop_last() =~= all.take(taken));
                assert(all.take(taken + 1).last() == x);
            }
            let rows = e.rows;
            let mut p = sorted.len();
            while p > 0 && sorted[p - 1].rows < rows
                invariant
                    p <= sorted@.len(),
                    forall|j: int| p <= j < sorted@.len() ==> sorted@[j].rows < rows,
                decreases p,
            {
                p = p - 1;
            }
            let ghost before = tallies_view(sorted@);
            let ghost before_sorted = sorted@;
            proof {
                assert forall|j: int| p <= j < before.len() implies rank(#[trigger] before[j]) < rank(
                    x,
                ) by {
                    assert(before[j].1 == sorted@[j].rows);
                }
                if p > 0 {
                    assert(before[p - 1].1 == sorted@[p - 1].rows);
                }
                lemma_insert_desc_at(before, x, rank, p as int);
            }
            sorted.insert(p, e);
            proof {
                assert(tallies_view(sorted@) =~= before.take(p as int).push(x) + before.skip(
                    p as int,
                ));
                assert(queue@ =~= input.skip(taken + 1));
                assert forall|i: int| 0 <= i < sorted@.len() implies (#[trigger] sorted@[i]).wf() by {
                    if i < p {
                        assert(sorted@[i] == before_sorted[i]);
                    } else if i > p {
                        assert(sorted@[i] == before_sorted[i - 1]);
                    }
                }
                taken = taken + 1;
            }
        }
    }
    proof {
        assert(all.take(input.len() as int) =~= all);
    }
    sorted
}

/// What the summary shows of one column.
pub struct ColumnMoves {
    pub column: String,
    /// How many changed rows touch the column.
    pub rows: usize,
    /// Its three most frequent transitions, with how often each happened.
    pub top: Vec<(String, usize)>,
    /// How many distinct transitions it had.
    pub transitions: usize,
}

impl ColumnMoves {
    pub open spec fn view_moves(&self) -> (Seq<char>, nat, Seq<(Seq<char>, nat)>, nat) {
        (self.column@, self.rows as nat, counted_view(self.top@), self.transitions as nat)
    }
}

/// What moved, by column: the columns by decreasing number of changes, ties
/// in the order first met, each with its three most frequent transitions.
pub fn moves_by_column(changed: &Vec<(String, Vec<FieldChange>)>) -> (moves: Vec<ColumnMoves>)
    requires
        all_changes(entries_view(changed@)).len() + 1 < usize::MAX,
    ensures
        moves@.map_values(|m: ColumnMoves| m.view_moves()) == moves_spec(entries_view(changed@)),
{
    let ghost entries = entries_view(changed@);
    let ghost total = all_changes(entries);
    let mut tallies: Vec<ColumnTally> = Vec::new();
    let mut e: usize = 0;
    while e < changed.len()
        invariant
            e <= changed@.len(),
            entries == entries_view(changed@),
            total == all_changes(entries),
            total.len() + 1 < usize::MAX,
            forall|i: int| 0 <= i < tallies@.len() ==> (#[trigger] tallies@[i]).wf(),
            tallies_view(tallies@) == tally(all_changes(entries.take(e as int))),
        decreases changed@.len() - e,
    {
        let changes = &changed[e].1;
        let ghost prefix = all_changes(entries.take(e as int));
        let ghost these = entries[e as int].1;
        proof {
            assert(entries.take(e + 1).drop_last() =~= entries.take(e as int));
            assert(all_changes(entries.take(e + 1)) == prefix + these);
            lemma_all_changes_prefix(entries, e + 1);
            assert(these == changes@.map_values(|c: FieldChange| c@));
        }
        let mut k: usize = 0;
        while k < changes.len()
            invariant
                k <= changes@.len(),
                these == changes@.map_values(|c: FieldChange| c@),
                (prefix + these).len() + 1 < usize::MAX,
                forall|i: int| 0 <= i < tallies@.len() ==> (#[trigger] tallies@[i]).wf(),
                tallies_view(tallies@) == tally(prefix + these.take(k as int)),
            decreases changes@.len() - k,
        {
            proof {
                assert((prefix + these.take(k as int)).push(these[k as int]) =~= prefix + these.take(
                    k + 1,
                ));
            }
            record(&mut tallies, &changes[k], Ghost(prefix + these.take(k as int)));
            k = k + 1;
        }
        proof {
            assert(these.take(changes@.len() as int) =~= these);
        }
        e = e + 1;
    }
    proof {
        assert(entries.take(changed@.len() as int) =~= entries);
    }
    let sorted = sort_tallies(tallies);
    let ghost sorted_view = tallies_view(sorted@);
    let mut moves: Vec<ColumnMoves> = Vec::new();
    let mut i: usize = 0;
    while i < sorted.len()
        invariant
            i <= sorted@.len(),
            sorted_view == tallies_view(sorted@),
            moves@.map_values(|m: ColumnMoves| m.view_moves()) == sorted_view.take(i as int).map_values(
                |t: TallyView| column_moves_view(t),
            ),
        decreases sorted@.len() - i,
    {
        let t = &sorted[i];
        let top = top_three(&t.transitions);
        let m = ColumnMoves {
            column: t.column.clone(),
            rows: t.rows,
            top,
            transitions: t.transitions.len(),
        };
        let ghost earlier = moves@;
        moves.push(m);
        proof {
            assert(m.view_moves() == column_moves_view(sorted_view[i as int]));
            assert(moves@.map_values(|m: ColumnMoves| m.view_moves()) =~= earlier.map_values(
                |m: ColumnMoves| m.view_moves(),
            ).push(m.view_moves()));
            assert(sorted_view.take(i + 1).map_values(|t: TallyView| column_moves_view(t))
                =~= sorted_view.take(i as int).map_values(|t: TallyView| column_moves_view(t)).push(
                column_moves_view(sorted_view[i as int]),
            ));
        }
        i = i + 1;
    }
    proof {
        assert(sorted_view.take(sorted@.len() as int) =~= sorted_view);
    }
    moves
}

/// The changes of the first entries are a prefix of all changes.
proof fn lemma_all_changes_prefix(entries: Seq<(Seq<char>, Seq<ChangeView>)>, n: int)
    requires
        0 <= n <= entries.len(),
    ensures
        all_changes(entries.take(n)).len() <= all_changes(entries).len(),
    decreases entries.len(),
{
    if n < entries.len() {
        lemma_all_changes_prefix(entries.drop_last(), n);
        assert(entries.drop_last().take(n) =~= entries.take(n));
    } else {
        assert(entries.take(n) =~= entries);
    }
}

// ---------------------------------------------------------------------------
// What the tallies count

/// How many of the changes touch `column`.
pub open spec fn changes_in(changes: Seq<ChangeView>, column: Seq<char>) -> nat
    decreases changes.len(),
{
    if changes.len() == 0 {
        0
    } else {
        changes_in(changes.drop_last(), column) + if changes.last().0 == column { 1nat } else { 0nat }
    }
}

/// How many of the changes touch `column` and are shown as the transition `text`.
pub open spec fn moves_in(changes: Seq<ChangeView>, column: Seq<char>, text: Seq<char>) -> nat
    decreases changes.len(),
{
    if changes.len() == 0 {
        0
    } else {
        moves_in(changes.drop_last(), column, text) + if changes.last().0 == column && transition(
            changes.last(),
        ) == text {
            1nat
        } else {
            0nat
        }
    }
}

proof fn lemma_moves_within_changes(changes: Seq<ChangeView>, column: Seq<char>, text: Seq<char>)
    ensures
        moves_in(changes, column, text) <= changes_in(changes, column),
    decreases changes.len(),
{
    if changes.len() > 0 {
        lemma_moves_within_changes(changes.drop_last(), column, text);
    }
}

proof fn lemma_find_tally_first(t: Seq<TallyView>, column: Seq<char>)
    ensures
        forall|j: int| 0 <= j < find_tally(t, column) && j < t.len() ==> (#[trigger] t[j]).0 != column,
    decreases t.len(),
{
    if t.len() > 0 && t[0].0 != column {
        let r = t.drop_first();
        lemma_find_tally_first(r, column);
        assert forall|j: int| 0 <= j < find_tally(t, column) && j < t.len() implies (#[trigger] t[j]).0 != column by {
            if j > 0 {
                assert(t[j] == r[j - 1]);
            }
        }
    }
}

proof fn lemma_find_text_first(s: Seq<(Seq<char>, nat)>, text: Seq<char>)
    ensures
        forall|j: int| 0 <= j < find_text(s, text) && j < s.len() ==> (#[trigger] s[j]).0 != text,
    decreases s.len(),
{
    if s.len() > 0 && s[0].0 != text {
        let r = s.drop_first();
        lemma_find_text_first(r, text);
        assert forall|j: int| 0 <= j < find_text(s, text) && j < s.len() implies (#[trigger] s[j]).0 != text by {
            if j > 0 {
                assert(s[j] == r[j - 1]);
            }
        }
    }
}

/// Where `column` is found after a change that leaves its matches where they were.
proof fn lemma_find_tally_moved(t: Seq<TallyView>, t2: Seq<TallyView>, column: Seq<char>)
    requires
        t.len() <= t2.len(),
        forall|j: int| 0 <= j < t.len() ==> ((#[trigger] t2[j]).0 == column <==> t[j].0 == column),
        forall|j: int| t.len() <= j < t2.len() ==> (#[trigger] t2[j]).0 != column,
    ensures
        find_tally(t2, column) == if find_tally(t, column) < t.len() {
            find_tally(t, column)
        } else {
            t2.len() as int
        },
{
    lemma_find_tally_bound(t, column);
    lemma_find_tally_first(t, column);
    let k = find_tally(t, column);
    if k < t.len() {
        assert forall|j: int| 0 <= j < k implies (#[trigger] t2[j]).0 != column by {
            assert(t[j].0 != column);
        }
        lemma_find_tally_at(t2, column, k);
    } else {
        assert forall|j: int| 0 <= j < t2.len() implies (#[trigger] t2[j]).0 != column by {
            if j < t.len() {
                assert(t[j].0 != column);
            }
        }
        lemma_find_tally_at(t2, column, t2.len() as int);
    }
}

/// Where `text` is found after a change that leaves its matches where they were.
proof fn lemma_find_text_moved(s: Seq<(Seq<char>, nat)>, s2: Seq<(Seq<char>, nat)>, text: Seq<char>)
    requires
        s.len() <= s2.len(),
        forall|j: int| 0 <= j < s.len() ==> ((#[trigger] s2[j]).0 == text <==> s[j].0 == text),
        forall|j: int| s.len() <= j < s2.len() ==> (#[trigger] s2[j]).0 != text,
    ensures
        find_text(s2, text) == if find_text(s, text) < s.len() {
            find_text(s, text)
        } else {
            s2.len() as int
        },
{
    lemma_find_text_bound(s, text);
    lemma_find_text_first(s, text);
    let k = find_text(s, text);
    if k < s.len() {
        assert forall|j: int| 0 <= j < k implies (#[trigger] s2[j]).0 != text by {
            assert(s[j].0 != text);
        }
        lemma_find_text_at(s2, text, k);
    } else {
        assert forall|j: int| 0 <= j < s2.len() implies (#[trigger] s2[j]).0 != text by {
            if j < s.len() {
                assert(s[j].0 != text);
            }
        }
        lemma_find_text_at(s2, text, s2.len() as int);
    }
}

/// What a column's transitions count after one more transition `tr` is counted.
proof fn lemma_count_text_counts(s: Seq<(Seq<char>, nat)>, tr: Seq<char>, text: Seq<char>)
    ensures
        ({
            let s2 = count_text(s, tr);
            let j = find_text(s, text);
            let j2 = find_text(s2, text);
            &&& (j2 < s2.len()) <==> (j < s.len() || tr == text)
            &&& j2 < s2.len() ==> s2[j2].1 == (if j < s.len() { s[j].1 } else { 0nat }) + (if tr == text { 1nat } else { 0nat })
        }),
{
    let s2 = count_text(s, tr);
    let jt = find_text(s, tr);
    lemma_find_text_bound(s, tr);
    lemma_find_text_bound(s, text);
    lemma_find_text_first(s, text);
    if tr == text {
        if jt == s.len() {
            assert forall|j: int| 0 <= j < s.len() implies (#[trigger] s2[j]).0 != text by {
                assert(s2[j] == s[j]);
            }
            lemma_find_text_at(s2, text, s.len() as int);
        } else {
            assert forall|j: int| 0 <= j < jt implies (#[trigger] s2[j]).0 != text by {
                assert(s2[j] == s[j]);
            }
            lemma_find_text_at(s2, text, jt);
        }
    } else {
        assert forall|j: int| 0 <= j < s.len() implies ((#[trigger] s2[j]).0 == text <==> s[j].0 == text) by {
            if j == jt {
                assert(s[jt].0 == tr);
            } else {
                assert(s2[j] == s[j]);
            }
        }
        lemma_find_text_moved(s, s2, text);
        let j = find_text(s, text);
        if j < s.len() {
            assert(s[j].0 == text);
            assert(j != jt);
            assert(s2[j] == s[j]);
        }
    }
}

/// The tallies count the changes: a column has a tally exactly when some
/// change touches it, the tally's number is how many changes touch it, and
/// each of its transitions is counted as often as it happened in that column.
pub proof fn lemma_tally_counts(changes: Seq<ChangeView>, column: Seq<char>, text: Seq<char>)
    ensures
        ({
            let t = tally(changes);
            let i = find_tally(t, column);
            &&& (i < t.len()) <==> changes_in(changes, column) > 0
            &&& i < t.len() ==> t[i].1 == changes_in(changes, column)
            &&& i < t.len() ==> ((find_text(t[i].2, text) < t[i].2.len()) <==> moves_in(changes, column, text) > 0)
            &&& i < t.len() && find_text(t[i].2, text) < t[i].2.len() ==> t[i].2[find_text(t[i].2, text)].1
                == moves_in(changes, column, text)
        }),
    decreases changes.len(),
{
    if changes.len() > 0 {
        let prev = changes.drop_last();
        lemma_tally_counts(prev, column, text);
        lemma_moves_within_changes(prev, column, text);
        let t = tally(prev);
        let c = changes.last();
        let tr = transition(c);
        let i = find_tally(t, c.0);
        let k = find_tally(t, column);
        let t2 = tally(changes);
        lemma_find_tally_bound(t, c.0);
        lemma_find_tally_bound(t, column);
        lemma_find_tally_first(t, column);
        if c.0 == column {
            if i == t.len() {
                assert forall|j: int| 0 <= j < t.len() implies (#[trigger] t2[j]).0 != column by {
                    assert(t2[j] == t[j]);
                }
                lemma_find_tally_at(t2, column, t.len() as int);
                let s2 = seq![(tr, 1nat)];
                assert(t2[t.len() as int].2 == s2);
                if tr == text {
                    lemma_find_text_at(s2, text, 0);
                } else {
                    assert forall|j: int| 0 <= j < 1 implies (#[trigger] s2[j]).0 != text by {}
                    lemma_find_text_at(s2, text, 1);
                }
            } else {
                assert forall|j: int| 0 <= j < k implies (#[trigger] t2[j]).0 != column by {
                    assert(t2[j] == t[j]);
                }
                lemma_find_tally_at(t2, column, k);
                lemma_count_text_counts(t[k].2, tr, text);
            }
        } else {
            assert forall|j: int| 0 <= j < t.len() implies ((#[trigger] t2[j]).0 == column <==> t[j].0 == column) by {
                if j == i {
                    assert(t2[j].0 == c.0);
                    assert(t[j].0 == c.0);
                } else {
                    assert(t2[j] == t[j]);
                }
            }
            assert forall|j: int| t.len() <= j < t2.len() implies (#[trigger] t2[j]).0 != column by {
                assert(t2[j].0 == c.0);
            }
            lemma_find_tally_moved(t, t2, column);
            if k < t.len() {
                assert(t[k].0 == column);
                assert(k != i);
                assert(t2[k] == t[k]);
            }
        }
    }
}

} // verus!
