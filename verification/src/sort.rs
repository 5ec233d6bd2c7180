//! Putting report entries in key order: keys compare by their UTF-8 bytes,
//! as `String`s do, and entries with equal keys keep their order.

use vstd::prelude::*;
use std::collections::VecDeque;
use vstd::utf8::encode_utf8;
use crate::compare::texts;

verus! {

/// Byte strings in lexicographic order: `a` comes before `b`.
pub open spec fn bytes_less(a: Seq<u8>, b: Seq<u8>) -> bool
    decreases a.len(),
{
    if a.len() == 0 {
        b.len() > 0
    } else if b.len() == 0 {
        false
    } else if a[0] != b[0] {
        a[0] < b[0]
    } else {
        bytes_less(a.drop_first(), b.drop_first())
    }
}

/// Texts in the order of their UTF-8 bytes.
pub open spec fn text_less(a: Seq<char>, b: Seq<char>) -> bool {
    bytes_less(encode_utf8(a), encode_utf8(b))
}

/// Two runs merged: at each step the first entry of either, the second run's
/// only when its key comes strictly first.
pub open spec fn merge<T>(a: Seq<(String, T)>, b: Seq<(String, T)>) -> Seq<(String, T)>
    decreases a.len() + b.len(),
{
    if a.len() == 0 {
        b
    } else if b.len() == 0 {
        a
    } else if text_less(b[0].0@, a[0].0@) {
        seq![b[0]] + merge(a, b.drop_first())
    } else {
        seq![a[0]] + merge(a.drop_first(), b)
    }
}

/// The entries sorted by key: the two halves sorted, then merged.
pub open spec fn merge_sorted<T>(s: Seq<(String, T)>) -> Seq<(String, T)>
    decreases s.len(),
{
    if s.len() <= 1 {
        s
    } else {
        let mid = s.len() / 2;
        merge(merge_sorted(s.take(mid as int)), merge_sorted(s.skip(mid as int)))
    }
}

proof fn lemma_bytes_less_skip(a: Seq<u8>, b: Seq<u8>, i: int)
    requires
        0 <= i <= a.len(),
        i <= b.len(),
        a.take(i) == b.take(i),
    ensures
        bytes_less(a, b) == bytes_less(a.skip(i), b.skip(i)),
    decreases i,
{
    if i > 0 {
        assert(a[0] == a.take(i)[0]);
        assert(b[0] == b.take(i)[0]);
        assert(a.drop_first().take(i - 1) =~= a.take(i).drop_first());
        assert(b.drop_first().take(i - 1) =~= b.take(i).drop_first());
        lemma_bytes_less_skip(a.drop_first(), b.drop_first(), i - 1);
        assert(a.drop_first().skip(i - 1) =~= a.skip(i));
        assert(b.drop_first().skip(i - 1) =~= b.skip(i));
    } else {
        assert(a.skip(0) =~= a);
        assert(b.skip(0) =~= b);
    }
}

/// Whether `a` comes strictly before `b` in the order of their UTF-8 bytes.
pub fn key_less(a: &str, b: &str) -> (less: bool)
    ensures
        less == text_less(a@, b@),
{
    let x = a.as_bytes();
    let y = b.as_bytes();
    let mut i: usize = 0;
    while i < x.len() && i < y.len() && x[i] == y[i]
        invariant
            i <= x@.len(),
            i <= y@.len(),
            x@ == encode_utf8(a@),
            y@ == encode_utf8(b@),
            x@.take(i as int) == y@.take(i as int),
        decreases x@.len() - i,
    {
        proof {
            assert(x@.take(i + 1) =~= x@.take(i as int).push(x@[i as int]));
            assert(y@.take(i + 1) =~= y@.take(i as int).push(y@[i as int]));
        }
        i = i + 1;
    }
    proof {
        lemma_bytes_less_skip(x@, y@, i as int);
        let xs = x@.skip(i as int);
        let ys = y@.skip(i as int);
        if i < x@.len() && i < y@.len() {
            assert(xs[0] == x@[i as int]);
            assert(ys[0] == y@[i as int]);
        }
    }
    if i < x.len() && i < y.len() {
        x[i] < y[i]
    } else {
        i == x.len() && i < y.len()
    }
}

/// Merges two runs.
fn merge_runs<T>(a: VecDeque<(String, T)>, b: VecDeque<(String, T)>) -> (out: VecDeque<(String, T)>)
    ensures
        out@ == merge(a@, b@),
{
    let ghost whole = merge(a@, b@);
    let mut a = a;
    let mut b = b;
    let mut out: VecDeque<(String, T)> = VecDeque::new();
    while a.len() > 0 && b.len() > 0
        invariant
            out@ + merge(a@, b@) == whole,
        decreases a@.len() + b@.len(),
    {
        let take_b = key_less(b[0].0.as_str(), a[0].0.as_str());
        let ghost before_a = a@;
        let ghost before_b = b@;
        let ghost before_out = out@;
        if take_b {
            if let Some(e) = b.pop_front() {
                out.push_back(e);
                proof {
                    assert(b@ =~= before_b.drop_first());
                    assert(merge(before_a, before_b) == seq![e] + merge(before_a, b@));
                    assert(out@ + merge(a@, b@) =~= before_out + (seq![e] + merge(a@, b@)));
                }
            }
        } else {
            if let Some(e) = a.pop_front() {
                out.push_back(e);
                proof {
                    assert(a@ =~= before_a.drop_first());
                    assert(merge(before_a, before_b) == seq![e] + merge(a@, before_b));
                    assert(out@ + merge(a@, b@) =~= before_out + (seq![e] + merge(a@, b@)));
                }
            }
        }
    }
    proof {
        if a@.len() == 0 {
            assert(merge(a@, b@) == b@);
        } else {
            assert(merge(a@, b@) == a@);
        }
    }
    let ghost rest = merge(a@, b@);
    while a.len() > 0
        invariant
            b@.len() == 0 || a@.len() == 0,
            out@ + a@ + b@ == whole,
        decreases a@.len(),
    {
        let ghost before_a = a@;
        let ghost before_out = out@;
        if let Some(e) = a.pop_front() {
            out.push_back(e);
            proof {
                assert(out@ + a@ + b@ =~= before_out + before_a + b@);
            }
        }
    }
    while b.len() > 0
        invariant
            a@.len() == 0,
            out@ + b@ == whole,
        decreases b@.len(),
    {
        let ghost before_b = b@;
        let ghost before_out = out@;
        if let Some(e) = b.pop_front() {
            out.push_back(e);
            proof {
                assert(out@ + b@ =~= before_out + before_b);
            }
        }
    }
    proof {
        assert(out@ + b@ =~= out@);
    }
    out
}

/// Sorts a run.
fn sort_run<T>(v: VecDeque<(String, T)>) -> (out: VecDeque<(String, T)>)
    ensures
        out@ == merge_sorted(v@),
    decreases v@.len(),
{
    let n = v.len();
    if n <= 1 {
        return v;
    }
    let mid = n / 2;
    let mut left = v;
    let right = left.split_off(mid);
    let left_sorted = sort_run(left);
    let right_sorted = sort_run(right);
    merge_runs(left_sorted, right_sorted)
}

/// The entries sorted by key, entries with equal keys in their order.
pub fn sort_by_key<T>(v: Vec<(String, T)>) -> (sorted: Vec<(String, T)>)
    ensures
        sorted@ == merge_sorted(v@),
        sorted_by_key(sorted@),
        sorted@.len() == v@.len(),
        forall|k: Seq<char>| #[trigger] with_key(sorted@, k) == with_key(v@, k),
{
    proof {
        lemma_merge_sorted_props(v@);
    }
    let ghost input = v@;
    let mut v = v;
    let mut queue: VecDeque<(String, T)> = VecDeque::new();
    while v.len() > 0
        invariant
            v@ + queue@ == input,
        decreases v@.len(),
    {
        let ghost before_v = v@;
        let ghost before_q = queue@;
        if let Some(e) = v.pop() {
            queue.push_front(e);
            proof {
                assert(v@ + queue@ =~= before_v + before_q);
            }
        }
    }
    proof {
        assert(queue@ =~= input);
    }
    let mut sorted_queue = sort_run(queue);
    let ghost result = sorted_queue@;
    let mut sorted: Vec<(String, T)> = Vec::new();
    while sorted_queue.len() > 0
        invariant
            sorted@ + sorted_queue@ == result,
        decreases sorted_queue@.len(),
    {
        let ghost before_s = sorted@;
        let ghost before_q = sorted_queue@;
        if let Some(e) = sorted_queue.pop_front() {
            sorted.push(e);
            proof {
                assert(sorted@ + sorted_queue@ =~= before_s + before_q);
            }
        }
    }
    proof {
        assert(sorted@ + sorted_queue@ =~= sorted@);
    }
    sorted
}

/// Keys as entries without data, for sorting.
pub open spec fn as_entries(keys: Seq<String>) -> Seq<(String, ())> {
    keys.map_values(|k: String| (k, ()))
}

/// The keys in the order of their UTF-8 bytes, equal keys in their order.
pub open spec fn sorted_keys(keys: Seq<String>) -> Seq<String> {
    merge_sorted(as_entries(keys)).map_values(|e: (String, ())| e.0)
}

/// The keys sorted by their UTF-8 bytes.
pub fn sort_keys(keys: &Vec<String>) -> (sorted: Vec<String>)
    ensures
        sorted@ == sorted_keys(keys@),
        sorted@.len() == keys@.len(),
        forall|i: int, j: int|
            0 <= i < j < sorted@.len() ==> !text_less(#[trigger] sorted@[j]@, #[trigger] sorted@[i]@),
{
    let mut entries: Vec<(String, ())> = Vec::new();
    let mut i: usize = 0;
    while i < keys.len()
        invariant
            i <= keys@.len(),
            entries@ == as_entries(keys@.take(i as int)),
        decreases keys@.len() - i,
    {
        let k = keys[i].clone();
        entries.push((k, ()));
        proof {
            assert(as_entries(keys@.take(i + 1)) =~= as_entries(keys@.take(i as int)).push((k, ())));
        }
        i = i + 1;
    }
    proof {
        assert(keys@.take(keys@.len() as int) =~= keys@);
    }
    let sorted_entries = sort_by_key(entries);
    proof {
        lemma_merge_sorted_props(as_entries(keys@));
    }
    let ghost result = sorted_entries@.map_values(|e: (String, ())| e.0);
    let mut sorted: Vec<String> = Vec::new();
    let mut j: usize = 0;
    while j < sorted_entries.len()
        invariant
            j <= sorted_entries@.len(),
            sorted@ == sorted_entries@.map_values(|e: (String, ())| e.0).take(j as int),
        decreases sorted_entries@.len() - j,
    {
        let k = sorted_entries[j].0.clone();
        sorted.push(k);
        proof {
            assert(sorted_entries@.map_values(|e: (String, ())| e.0).take(j + 1) =~= sorted_entries@.map_values(
                |e: (String, ())| e.0,
            ).take(j as int).push(k));
        }
        j = j + 1;
    }
    proof {
        assert(result.take(result.len() as int) =~= result);
        assert forall|i: int, j: int| 0 <= i < j < sorted@.len() implies !text_less(
            #[trigger] sorted@[j]@,
            #[trigger] sorted@[i]@,
        ) by {
            assert(sorted@[i] == sorted_entries@[i].0 && sorted@[j] == sorted_entries@[j].0);
        }
    }
    sorted
}

// ---------------------------------------------------------------------------
// The order of keys, and what sorting keeps

proof fn lemma_bytes_less_irreflexive(a: Seq<u8>)
    ensures
        !bytes_less(a, a),
    decreases a.len(),
{
    if a.len() > 0 {
        lemma_bytes_less_irreflexive(a.drop_first());
    }
}

proof fn lemma_bytes_less_transitive(a: Seq<u8>, b: Seq<u8>, c: Seq<u8>)
    requires
        bytes_less(a, b),
        bytes_less(b, c),
    ensures
        bytes_less(a, c),
    decreases a.len(),
{
    if a.len() > 0 && b.len() > 0 && c.len() > 0 && a[0] == b[0] && b[0] == c[0] {
        lemma_bytes_less_transitive(a.drop_first(), b.drop_first(), c.drop_first());
    }
}

proof fn lemma_bytes_less_total(a: Seq<u8>, b: Seq<u8>)
    ensures
        a == b || bytes_less(a, b) || bytes_less(b, a),
    decreases a.len(),
{
    if a.len() > 0 && b.len() > 0 && a[0] == b[0] {
        lemma_bytes_less_total(a.drop_first(), b.drop_first());
        if a.drop_first() == b.drop_first() {
            assert(a =~= seq![a[0]] + a.drop_first());
            assert(b =~= seq![b[0]] + b.drop_first());
        }
    } else if a.len() == 0 && b.len() == 0 {
        assert(a =~= b);
    }
}

/// Sorted by key: no entry's key comes before that of an entry before it.
pub open spec fn sorted_by_key<T>(s: Seq<(String, T)>) -> bool {
    forall|i: int, j: int| 0 <= i < j < s.len() ==> !text_less(#[trigger] s[j].0@, #[trigger] s[i].0@)
}

/// The entries whose key is `k`, in order.
pub open spec fn with_key<T>(s: Seq<(String, T)>, k: Seq<char>) -> Seq<(String, T)>
    decreases s.len(),
{
    if s.len() == 0 {
        Seq::empty()
    } else {
        (if s[0].0@ == k {
            seq![s[0]]
        } else {
            Seq::empty()
        }) + with_key(s.drop_first(), k)
    }
}

proof fn lemma_with_key_append<T>(a: Seq<(String, T)>, b: Seq<(String, T)>, k: Seq<char>)
    ensures
        with_key(a + b, k) == with_key(a, k) + with_key(b, k),
    decreases a.len(),
{
    if a.len() == 0 {
        assert(a + b =~= b);
    } else {
        lemma_with_key_append(a.drop_first(), b, k);
        assert((a + b).drop_first() =~= a.drop_first() + b);
        assert((a + b)[0] == a[0]);
    }
}

/// Every entry of a sorted run after the first has a key no smaller than the first's.
proof fn lemma_sorted_rest<T>(s: Seq<(String, T)>)
    requires
        sorted_by_key(s),
        s.len() > 0,
    ensures
        sorted_by_key(s.drop_first()),
{
    let r = s.drop_first();
    assert forall|i: int, j: int| 0 <= i < j < r.len() implies !text_less(#[trigger] r[j].0@, #[trigger] r[i].0@) by {
        assert(r[i] == s[i + 1] && r[j] == s[j + 1]);
    }
}

/// No entry of the sorted run `s` comes strictly before its first entry, and
/// so none comes before a key that comes before that first entry.
proof fn lemma_sorted_none_before<T>(s: Seq<(String, T)>, x: Seq<char>)
    requires
        sorted_by_key(s),
        s.len() > 0,
        !text_less(s[0].0@, x),
    ensures
        forall|i: int| 0 <= i < s.len() ==> !text_less(#[trigger] s[i].0@, x),
{
    assert forall|i: int| 0 <= i < s.len() implies !text_less(#[trigger] s[i].0@, x) by {
        if i > 0 && text_less(s[i].0@, x) {
            assert(!text_less(s[i].0@, s[0].0@));
            lemma_bytes_less_total(encode_utf8(s[i].0@), encode_utf8(s[0].0@));
            if encode_utf8(s[i].0@) != encode_utf8(s[0].0@) {
                lemma_bytes_less_transitive(
                    encode_utf8(s[0].0@),
                    encode_utf8(s[i].0@),
                    encode_utf8(x),
                );
            }
        }
    }
}

/// The merge of two sorted runs is sorted, holds each run's entries and keeps,
/// for every key, the entries of the first run before those of the second.
proof fn lemma_merge_props<T>(a: Seq<(String, T)>, b: Seq<(String, T)>)
    requires
        sorted_by_key(a),
        sorted_by_key(b),
    ensures
        sorted_by_key(merge(a, b)),
        merge(a, b).len() == a.len() + b.len(),
        forall|k: Seq<char>| #[trigger] with_key(merge(a, b), k) == with_key(a, k) + with_key(b, k),
        forall|i: int| 0 <= i < merge(a, b).len() ==> (exists|j: int| 0 <= j < a.len() && #[trigger] merge(a, b)[i] == a[j]) || (exists|j: int| 0 <= j < b.len() && merge(a, b)[i] == b[j]),
    decreases a.len() + b.len(),
{
    let m = merge(a, b);
    if a.len() == 0 {
        assert forall|k: Seq<char>| #[trigger] with_key(m, k) == with_key(a, k) + with_key(b, k) by {
            assert(with_key(a, k) =~= Seq::<(String, T)>::empty());
            assert(with_key(b, k) =~= Seq::<(String, T)>::empty() + with_key(b, k));
        }
    } else if b.len() == 0 {
        assert forall|k: Seq<char>| #[trigger] with_key(m, k) == with_key(a, k) + with_key(b, k) by {
            assert(with_key(b, k) =~= Seq::<(String, T)>::empty());
            assert(with_key(a, k) + with_key(b, k) =~= with_key(a, k));
        }
    } else if text_less(b[0].0@, a[0].0@) {
        let b2 = b.drop_first();
        lemma_sorted_rest(b);
        lemma_merge_props(a, b2);
        let rest = merge(a, b2);
        assert(m == seq![b[0]] + rest);
        // everything in `rest` comes from `a` or `b2`, none before `b[0]`
        lemma_bytes_less_irreflexive(encode_utf8(b[0].0@));
        assert forall|i: int| 0 <= i < a.len() implies !text_less(#[trigger] a[i].0@, b[0].0@) by {
            if text_less(a[i].0@, b[0].0@) {
                lemma_bytes_less_transitive(encode_utf8(a[i].0@), encode_utf8(b[0].0@), encode_utf8(a[0].0@));
                if i > 0 {
                    assert(!text_less(a[i].0@, a[0].0@));
                } else {
                    lemma_bytes_less_irreflexive(encode_utf8(a[0].0@));
                }
            }
        }
        assert forall|i: int, j: int| 0 <= i < j < m.len() implies !text_less(#[trigger] m[j].0@, #[trigger] m[i].0@) by {
            if i == 0 {
                assert(m[j] == rest[j - 1]);
                if exists|q: int| 0 <= q < a.len() && rest[j - 1] == a[q] {
                    let q = choose|q: int| 0 <= q < a.len() && rest[j - 1] == a[q];
                    assert(!text_less(a[q].0@, b[0].0@));
                } else {
                    let q = choose|q: int| 0 <= q < b2.len() && rest[j - 1] == b2[q];
                    assert(b2[q] == b[q + 1]);
                }
            } else {
                assert(m[i] == rest[i - 1] && m[j] == rest[j - 1]);
            }
        }
        assert forall|k: Seq<char>| #[trigger] with_key(m, k) == with_key(a, k) + with_key(b, k) by {
            assert(m.drop_first() =~= rest);
            assert(with_key(rest, k) == with_key(a, k) + with_key(b2, k));
            if b[0].0@ == k {
                // `a` holds nothing of key `k`: all its keys come after `b[0]`'s
                assert(with_key(a, k).len() == 0) by {
                    lemma_with_key_none_before(a, b[0].0@);
                }
                assert(with_key(a, k) =~= Seq::<(String, T)>::empty());
            }
            assert(with_key(b, k) == (if b[0].0@ == k { seq![b[0]] } else { Seq::<(String, T)>::empty() }) + with_key(b2, k));
            assert(with_key(m, k) =~= with_key(a, k) + with_key(b, k));
        }
        assert forall|i: int| 0 <= i < m.len() implies (exists|j: int| 0 <= j < a.len() && #[trigger] m[i] == a[j]) || (exists|j: int| 0 <= j < b.len() && m[i] == b[j]) by {
            if i == 0 {
                assert(m[0] == b[0]);
            } else {
                assert(m[i] == rest[i - 1]);
                if exists|q: int| 0 <= q < b2.len() && rest[i - 1] == b2[q] {
                    let q = choose|q: int| 0 <= q < b2.len() && rest[i - 1] == b2[q];
                    assert(b2[q] == b[q + 1]);
                }
            }
        }
    } else {
        let a2 = a.drop_first();
        lemma_sorted_rest(a);
        lemma_merge_props(a2, b);
        let rest = merge(a2, b);
        assert(m == seq![a[0]] + rest);
        lemma_sorted_none_before(b, a[0].0@);
        assert forall|i: int, j: int| 0 <= i < j < m.len() implies !text_less(#[trigger] m[j].0@, #[trigger] m[i].0@) by {
            if i == 0 {
                assert(m[j] == rest[j - 1]);
                if exists|q: int| 0 <= q < a2.len() && rest[j - 1] == a2[q] {
                    let q = choose|q: int| 0 <= q < a2.len() && rest[j - 1] == a2[q];
                    assert(a2[q] == a[q + 1]);
                } else {
                    let q = choose|q: int| 0 <= q < b.len() && rest[j - 1] == b[q];
                    assert(!text_less(b[q].0@, a[0].0@));
                }
            } else {
                assert(m[i] == rest[i - 1] && m[j] == rest[j - 1]);
            }
        }
        assert forall|k: Seq<char>| #[trigger] with_key(m, k) == with_key(a, k) + with_key(b, k) by {
            assert(m.drop_first() =~= rest);
            assert(with_key(rest, k) == with_key(a2, k) + with_key(b, k));
            assert(with_key(a, k) == (if a[0].0@ == k { seq![a[0]] } else { Seq::<(String, T)>::empty() }) + with_key(a2, k));
            assert(with_key(m, k) =~= with_key(a, k) + with_key(b, k));
        }
        assert forall|i: int| 0 <= i < m.len() implies (exists|j: int| 0 <= j < a.len() && #[trigger] m[i] == a[j]) || (exists|j: int| 0 <= j < b.len() && m[i] == b[j]) by {
            if i == 0 {
                assert(m[0] == a[0]);
            } else {
                assert(m[i] == rest[i - 1]);
                if exists|q: int| 0 <= q < a2.len() && rest[i - 1] == a2[q] {
                    let q = choose|q: int| 0 <= q < a2.len() && rest[i - 1] == a2[q];
                    assert(a2[q] == a[q + 1]);
                }
            }
        }
    }
}

/// A sorted run whose first key comes after `x` holds no entry of key `x`.
proof fn lemma_with_key_none_before<T>(s: Seq<(String, T)>, x: Seq<char>)
    requires
        sorted_by_key(s),
        s.len() > 0,
        text_less(x, s[0].0@),
    ensures
        with_key(s, x).len() == 0,
    decreases s.len(),
{
    lemma_bytes_less_irreflexive(encode_utf8(x));
    assert(s[0].0@ != x);
    if s.len() > 1 {
        let r = s.drop_first();
        lemma_sorted_rest(s);
        assert(!text_less(r[0].0@, s[0].0@));
        lemma_bytes_less_total(encode_utf8(r[0].0@), encode_utf8(s[0].0@));
        if encode_utf8(r[0].0@) == encode_utf8(s[0].0@) {
            assert(text_less(x, r[0].0@));
        } else {
            lemma_bytes_less_transitive(encode_utf8(x), encode_utf8(s[0].0@), encode_utf8(r[0].0@));
        }
        lemma_with_key_none_before(r, x);
    } else {
        assert(with_key(s.drop_first(), x) =~= Seq::<(String, T)>::empty());
    }
}

/// Sorting puts the entries in key order, and for every key keeps exactly its
/// entries, in their order: nothing is lost, added or reordered among equal
/// keys.
pub proof fn lemma_merge_sorted_props<T>(s: Seq<(String, T)>)
    ensures
        sorted_by_key(merge_sorted(s)),
        merge_sorted(s).len() == s.len(),
        forall|k: Seq<char>| #[trigger] with_key(merge_sorted(s), k) == with_key(s, k),
    decreases s.len(),
{
    if s.len() <= 1 {
    } else {
        let mid = s.len() / 2;
        let left = s.take(mid as int);
        let right = s.skip(mid as int);
        lemma_merge_sorted_props(left);
        lemma_merge_sorted_props(right);
        lemma_merge_props(merge_sorted(left), merge_sorted(right));
        assert(s =~= left + right);
        assert forall|k: Seq<char>| #[trigger] with_key(merge_sorted(s), k) == with_key(s, k) by {
            lemma_with_key_append(left, right, k);
        }
    }
}

/// A run holds an entry of key `k` exactly when `with_key` finds one.
proof fn lemma_with_key_found<T>(s: Seq<(String, T)>, k: Seq<char>)
    ensures
        with_key(s, k).len() > 0 <==> exists|i: int| 0 <= i < s.len() && #[trigger] s[i].0@ == k,
    decreases s.len(),
{
    if s.len() > 0 {
        lemma_with_key_found(s.drop_first(), k);
        if exists|i: int| 0 <= i < s.len() && #[trigger] s[i].0@ == k {
            let i = choose|i: int| 0 <= i < s.len() && #[trigger] s[i].0@ == k;
            if i > 0 {
                assert(s.drop_first()[i - 1].0@ == k);
            }
        }
        if exists|i: int| 0 <= i < s.drop_first().len() && #[trigger] s.drop_first()[i].0@ == k {
            let i = choose|i: int| 0 <= i < s.drop_first().len() && #[trigger] s.drop_first()[i].0@ == k;
            assert(s[i + 1].0@ == k);
        }
    }
}

/// Sorting keys keeps exactly the keys there were: a key is among the sorted
/// keys when it is among the keys.
pub proof fn lemma_sorted_keys_same_members(keys: Seq<String>, k: Seq<char>)
    ensures
        texts(sorted_keys(keys)).contains(k) <==> texts(keys).contains(k),
{
    let entries = as_entries(keys);
    let sorted = merge_sorted(entries);
    lemma_merge_sorted_props(entries);
    lemma_with_key_found(entries, k);
    lemma_with_key_found(sorted, k);
    assert(with_key(sorted, k) == with_key(entries, k));
    if texts(keys).contains(k) {
        let i = choose|i: int| 0 <= i < texts(keys).len() && texts(keys)[i] == k;
        assert(entries[i].0@ == k);
        let j = choose|j: int| 0 <= j < sorted.len() && #[trigger] sorted[j].0@ == k;
        assert(texts(sorted_keys(keys))[j] == k);
    }
    if texts(sorted_keys(keys)).contains(k) {
        let j = choose|j: int| 0 <= j < texts(sorted_keys(keys)).len() && texts(sorted_keys(keys))[j] == k;
        assert(sorted[j].0@ == k);
        let i = choose|i: int| 0 <= i < entries.len() && #[trigger] entries[i].0@ == k;
        assert(texts(keys)[i] == k);
    }
}

} // verus!
