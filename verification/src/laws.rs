//! What holds of every comparison: when two cells count as the same value,
//! which changes a row comparison reports, and how row hashes separate values.

use vstd::prelude::*;
use vstd::utf8::{encode_utf8, encode_utf8_decode_utf8, encode_scalar};
use crate::compare::{
    Normalisation, cell, field_changes, form_at, hash_writes, is_ignored, is_null_spelling,
    normalised,
};
use crate::number::{
    all_digits, all_number_chars, count_char, decimal_parts, first_index, is_digit, last_index, lemma_first_index_at,
    lemma_last_index_bounds, number_char, number_parts, remove_char, replace_char, resolve_separators,
};
use crate::rows::{comparable_forms, join, key_separator, row_key, shortened, shown_key};
use crate::text::{same_ignoring_ascii_case, unicode_lower, ascii_lower, ascii_lower_char, lemma_trim_idempotent, trim};

verus! {

// ---------------------------------------------------------------------------
// Empty cells

/// Under the null rule every spelling of an empty cell (nothing, blanks,
/// `NULL`, `nil`, `None`, `NaN`, `\N`, in any ASCII case) compares as the empty
/// text.
pub proof fn lemma_null_spellings_collapse(value: Seq<char>, number: Option<Seq<char>>, rules: Normalisation)
    requires
        rules.nulls,
        is_null_spelling(trim(value)),
    ensures
        normalised(value, number, rules) == Seq::<char>::empty(),
{
}

/// A cell compares as the empty text exactly when it is blank, or under the
/// null rule a spelling of an empty cell, or a number whose given number form
/// is empty: other text never becomes empty. For text put in lower case this
/// rests on the lower case of a text being empty only when the text is,
/// which the call that computes it states; `normalise` states the whole law.
pub(crate) proof fn lemma_empty_exactly_for_null_spellings(
    value: Seq<char>,
    number: Option<Seq<char>>,
    rules: Normalisation,
)
    requires
        ({
            let t = trim(value);
            rules.loose_text && !(rules.nulls && is_null_spelling(t)) && !(rules.numbers
                && number_parts(t) is Some && number is Some) ==> (unicode_lower(t).len() == 0
                <==> t.len() == 0)
        }),
    ensures
        normalised(value, number, rules).len() == 0 <==> (trim(value).len() == 0 || (rules.nulls
            && is_null_spelling(trim(value))) || (rules.numbers && number_parts(trim(value)) is Some
            && number is Some && number->0.len() == 0)),
{
    let t = trim(value);
    if t.len() == 0 {
        assert(is_null_spelling(t)) by {
            assert(ascii_lower(t).len() == 0);
        }
        lemma_null_spelling_is_no_number(t);
    }
}

/// A spelling of an empty cell is never a number.
pub proof fn lemma_null_spelling_is_no_number(t: Seq<char>)
    requires
        is_null_spelling(t),
    ensures
        number_parts(t) is None,
{
    let l = ascii_lower(t);
    if t.len() == 0 {
        let c = remove_char(t, ' ');
        assert(c.len() == 0);
        assert(last_index(c, ',') == -1);
        assert(resolve_separators(c) == c);
        assert(c.take(first_index(c, '.')).len() == 0);
    } else {
        assert(l[0] == ascii_lower_char(t[0]));
        assert(l[0] == 'n' || l[0] == '\\');
        assert(!number_char(t[0]));
    }
}

// ---------------------------------------------------------------------------
// Numbers and text

/// Under the number rule, two cells that hold numbers (and are no spelling of
/// an empty cell) compare equal exactly when their number forms are equal:
/// `1000`, `1000.00` and `1,000.00` are one value because they have the same
/// literal, and so the same number form.
pub proof fn lemma_numbers_compare_by_form(
    a: Seq<char>,
    na: Seq<char>,
    b: Seq<char>,
    nb: Seq<char>,
    rules: Normalisation,
)
    requires
        rules.numbers,
        number_parts(trim(a)) is Some,
        number_parts(trim(b)) is Some,
    ensures
        normalised(a, Some(na), rules) == normalised(b, Some(nb), rules) <==> na == nb,
{
    if is_null_spelling(trim(a)) {
        lemma_null_spelling_is_no_number(trim(a));
    }
    if is_null_spelling(trim(b)) {
        lemma_null_spelling_is_no_number(trim(b));
    }
}

/// Removing a character that a text does not hold leaves the text.
proof fn lemma_remove_absent(s: Seq<char>, x: char)
    requires
        !s.contains(x),
    ensures
        remove_char(s, x) == s,
        last_index(s, x) == -1,
        count_char(s, x) == 0,
    decreases s.len(),
{
    if s.len() > 0 {
        assert(!s.drop_last().contains(x)) by {
            if s.drop_last().contains(x) {
                let j = choose|j: int| 0 <= j < s.drop_last().len() && s.drop_last()[j] == x;
                assert(s[j] == x);
            }
        }
        lemma_remove_absent(s.drop_last(), x);
        assert(s[s.len() - 1] != x);
        assert(s.drop_last().push(s.last()) =~= s);
    }
}

/// A text that holds `x` has a last `x`.
proof fn lemma_last_index_found(s: Seq<char>, x: char)
    requires
        s.contains(x),
    ensures
        last_index(s, x) >= 0,
    decreases s.len(),
{
    if s.last() != x {
        let j = choose|j: int| 0 <= j < s.len() && s[j] == x;
        assert(s.drop_last()[j] == x);
        lemma_last_index_found(s.drop_last(), x);
    }
}

/// Removing a character is keeping all the others, in order; counting it is
/// counting what a filter keeps of it.
proof fn lemma_remove_is_filter(s: Seq<char>, x: char)
    ensures
        remove_char(s, x) == s.filter(|c: char| c != x),
        count_char(s, x) == s.filter(|c: char| c == x).len(),
    decreases s.len(),
{
    reveal(Seq::filter);
    if s.len() > 0 {
        lemma_remove_is_filter(s.drop_last(), x);
    }
}

/// Under the number rule, a text of digits and commas with at least one
/// digit, whose commas do not make a decimal comma (a single comma followed
/// by exactly two characters), holds the whole number whose digits are all
/// its digits in order: the commas separate thousands, so `1,234,567` is
/// `1234567`, and so are `12,34567` and `1234,567`.
pub proof fn lemma_commas_separate_thousands(t: Seq<char>)
    requires
        forall|i: int| 0 <= i < t.len() ==> is_digit(#[trigger] t[i]) || t[i] == ',',
        exists|i: int| 0 <= i < t.len() && is_digit(#[trigger] t[i]),
        t.filter(|c: char| c == ',').len() >= 2 || t.len() < 3 || t[t.len() - 3] != ',',
    ensures
        number_parts(t) == Some((false, t.filter(|c: char| c != ','), Seq::<char>::empty())),
{
    let keep = |c: char| c != ',';
    let w = t.filter(keep);
    assert(!t.contains(' ')) by {
        if t.contains(' ') {
            let j = choose|j: int| 0 <= j < t.len() && t[j] == ' ';
        }
    }
    assert(!t.contains('.')) by {
        if t.contains('.') {
            let j = choose|j: int| 0 <= j < t.len() && t[j] == '.';
        }
    }
    lemma_remove_absent(t, ' ');
    lemma_remove_absent(t, '.');
    lemma_remove_is_filter(t, ',');
    assert forall|i: int| 0 <= i < t.len() implies number_char(#[trigger] t[i]) by {}
    if t.contains(',') {
        lemma_last_index_bounds(t, ',');
        lemma_last_index_found(t, ',');
        let comma = last_index(t, ',');
        assert(t[comma] == ',');
        assert(resolve_separators(t) == remove_char(t, ','));
    } else {
        lemma_remove_absent(t, ',');
        assert(resolve_separators(t) == t);
    }
    assert(resolve_separators(remove_char(t, ' ')) == w);
    // what is left is digits only, at least one
    assert forall|i: int| 0 <= i < w.len() implies is_digit(#[trigger] w[i]) by {
        t.lemma_filter_pred(keep, i);
        assert(w[i] != ',');
        assert(w.contains(w[i]));
        t.lemma_filter_contains_rev(keep, w[i]);
        let j = choose|j: int| 0 <= j < t.len() && t[j] == w[i];
        assert(is_digit(t[j]) || t[j] == ',');
    }
    let d = choose|i: int| 0 <= i < t.len() && is_digit(#[trigger] t[i]);
    t.lemma_filter_contains(keep, d);
    assert(w.len() > 0);
    assert(!w.contains('.')) by {
        if w.contains('.') {
            let j = choose|j: int| 0 <= j < w.len() && w[j] == '.';
            assert(is_digit(w[j]));
        }
    }
    assert forall|j: int| 0 <= j < w.len() implies #[trigger] w[j] != '.' by {
        assert(is_digit(w[j]));
    }
    lemma_first_index_at(w, '.', w.len() as int);
    assert(w.take(w.len() as int) =~= w);
    assert(all_digits(w));
    assert(all_digits(Seq::<char>::empty()));
    assert(!(w[0] == '-' || w[0] == '+')) by {
        assert(is_digit(w[0]));
    }
}

/// Keeping what all of a text's characters satisfy keeps the text.
proof fn lemma_filter_keeps_all(s: Seq<char>, keep: spec_fn(char) -> bool)
    requires
        forall|i: int| 0 <= i < s.len() ==> keep(#[trigger] s[i]),
    ensures
        s.filter(keep) == s,
    decreases s.len(),
{
    reveal(Seq::filter);
    if s.len() > 0 {
        lemma_filter_keeps_all(s.drop_last(), keep);
        assert(s.drop_last().push(s.last()) =~= s);
    }
}

/// Appending what holds no `x` leaves the last `x` where it was.
proof fn lemma_last_index_append(a: Seq<char>, b: Seq<char>, x: char)
    requires
        !b.contains(x),
    ensures
        last_index(a + b, x) == last_index(a, x),
    decreases b.len(),
{
    if b.len() == 0 {
        assert(a + b =~= a);
    } else {
        assert(!b.drop_last().contains(x)) by {
            if b.drop_last().contains(x) {
                let j = choose|j: int| 0 <= j < b.drop_last().len() && b.drop_last()[j] == x;
                assert(b[j] == x);
            }
        }
        lemma_last_index_append(a, b.drop_last(), x);
        assert((a + b).drop_last() =~= a + b.drop_last());
        assert((a + b).last() == b.last());
        assert(b[b.len() - 1] != x);
    }
}

/// Digits, a point and digits, with at least one digit, are the plain
/// decimal number they show.
proof fn lemma_plain_decimal(whole: Seq<char>, frac: Seq<char>)
    requires
        all_digits(whole),
        all_digits(frac),
        whole.len() + frac.len() > 0,
    ensures
        decimal_parts(whole + seq!['.'] + frac) == Some((false, whole, frac)),
{
    let r = whole + seq!['.'] + frac;
    let n = whole.len();
    assert forall|j: int| 0 <= j < n implies #[trigger] r[j] != '.' by {
        assert(r[j] == whole[j]);
    }
    lemma_first_index_at(r, '.', n as int);
    assert(r.take(n as int) =~= whole);
    assert(r.skip(n as int + 1) =~= frac);
    if n > 0 {
        assert(r[0] == whole[0]);
    }
}

/// Under the number rule, when a text holds both a comma and a point, the
/// rightmost of them is the decimal point and the other kind separates
/// thousands: digits and `q`s, then `p`, then digits hold the number whose
/// whole part is the digits before `p` and whose decimals are those after it
/// (`1.234,56` and `1,234.56` are both `1234.56`).
pub proof fn lemma_rightmost_separator_is_the_point(g: Seq<char>, p: char, q: char, f: Seq<char>)
    requires
        (p == ',' && q == '.') || (p == '.' && q == ','),
        forall|i: int| 0 <= i < g.len() ==> is_digit(#[trigger] g[i]) || g[i] == q,
        g.contains(q),
        all_digits(f),
        (exists|i: int| 0 <= i < g.len() && is_digit(#[trigger] g[i])) || f.len() > 0,
    ensures
        number_parts(g + seq![p] + f) == Some((false, g.filter(|c: char| c != q), f)),
{
    let t = g + seq![p] + f;
    let n = g.len();
    let keep = |c: char| c != q;
    let w = g.filter(keep);
    assert forall|i: int| 0 <= i < t.len() implies number_char(#[trigger] t[i]) by {
        if i < n {
            assert(t[i] == g[i]);
        } else if i > n {
            assert(t[i] == f[i - n - 1]);
        }
    }
    assert(!t.contains(' ')) by {
        if t.contains(' ') {
            let j = choose|j: int| 0 <= j < t.len() && t[j] == ' ';
            if j < n {
                assert(t[j] == g[j]);
            } else if j > n {
                assert(t[j] == f[j - n - 1]);
            }
        }
    }
    lemma_remove_absent(t, ' ');
    // the last `p` is the one between the parts, the last `q` is in `g`
    assert(!f.contains(p) && !f.contains(q)) by {
        if f.contains(p) || f.contains(q) {
            let j = choose|j: int| 0 <= j < f.len() && (f[j] == p || f[j] == q);
        }
    }
    assert(!seq![p].contains(q)) by {
        if seq![p].contains(q) {
            assert(seq![p][0] == q);
        }
    }
    assert(t =~= (g + seq![p]) + f);
    lemma_last_index_append(g + seq![p], f, p);
    assert((g + seq![p]).last() == p);
    assert(last_index(g + seq![p], p) == n);
    lemma_last_index_append(g + seq![p], f, q);
    lemma_last_index_append(g, seq![p], q);
    lemma_last_index_found(g, q);
    lemma_last_index_bounds(g, q);
    assert(last_index(t, p) == n);
    assert(0 <= last_index(t, q) < n);
    // the other kind of separator goes, the point becomes `.`
    lemma_remove_is_filter(t, q);
    Seq::filter_distributes_over_add(g + seq![p], f, keep);
    Seq::filter_distributes_over_add(g, seq![p], keep);
    lemma_filter_keeps_all(seq![p], keep);
    assert forall|i: int| 0 <= i < f.len() implies keep(#[trigger] f[i]) by {
        assert(f[i] != q) by {
            if f[i] == q {
                assert(f.contains(q));
            }
        }
    }
    lemma_filter_keeps_all(f, keep);
    assert(remove_char(t, q) == w + seq![p] + f);
    assert forall|i: int| 0 <= i < w.len() implies is_digit(#[trigger] w[i]) by {
        g.lemma_filter_pred(keep, i);
        assert(w.contains(w[i]));
        g.lemma_filter_contains_rev(keep, w[i]);
        let j = choose|j: int| 0 <= j < g.len() && g[j] == w[i];
        assert(is_digit(g[j]) || g[j] == q);
    }
    if f.len() == 0 {
        let d = choose|i: int| 0 <= i < g.len() && is_digit(#[trigger] g[i]);
        assert(keep(g[d]));
        g.lemma_filter_contains(keep, d);
    }
    let point = w + seq!['.'] + f;
    if p == ',' {
        let r = replace_char(w + seq![p] + f, ',', '.');
        assert forall|i: int| 0 <= i < r.len() implies r[i] == #[trigger] point[i] by {
            if i < w.len() {
                assert(is_digit(w[i]));
            } else if i > w.len() {
                assert(is_digit(f[i - w.len() - 1]));
            }
        }
        assert(r =~= point);
        assert(resolve_separators(t) == point);
    } else {
        assert(resolve_separators(t) == point);
    }
    lemma_plain_decimal(w, f);
}

/// A character in front moves every position of `x` by one.
proof fn lemma_last_index_prefix(s: char, c: Seq<char>, x: char)
    requires
        s != x,
    ensures
        last_index(seq![s] + c, x) == if last_index(c, x) >= 0 { 1 + last_index(c, x) } else { -1 },
        count_char(seq![s] + c, x) == count_char(c, x),
        remove_char(seq![s] + c, x) == seq![s] + remove_char(c, x),
    decreases c.len(),
{
    if c.len() == 0 {
        let one = seq![s];
        assert(one + c =~= one);
        assert(one.drop_last() =~= Seq::<char>::empty());
        assert(one.last() == s);
        assert(last_index(one, x) == last_index(one.drop_last(), x));
        assert(count_char(one, x) == count_char(one.drop_last(), x));
        assert(remove_char(one, x) == remove_char(one.drop_last(), x).push(s));
        assert(remove_char(one.drop_last(), x) == Seq::<char>::empty());
        assert(remove_char(c, x) == Seq::<char>::empty());
        assert(remove_char(one, x) =~= one + remove_char(c, x));
    } else {
        lemma_last_index_prefix(s, c.drop_last(), x);
        assert((seq![s] + c).drop_last() =~= seq![s] + c.drop_last());
        assert((seq![s] + c).last() == c.last());
        if c.last() != x {
            assert((seq![s] + remove_char(c.drop_last(), x)).push(c.last()) =~= seq![s] + remove_char(c.drop_last(), x).push(c.last()));
        }
    }
}

/// A text without signs keeps none when its separators are resolved.
proof fn lemma_resolved_has_no_sign(c: Seq<char>)
    requires
        !c.contains('-'),
        !c.contains('+'),
    ensures
        !resolve_separators(c).contains('-'),
        !resolve_separators(c).contains('+'),
{
    let r = resolve_separators(c);
    lemma_remove_is_filter(c, ',');
    lemma_remove_is_filter(c, '.');
    if r.contains('-') || r.contains('+') {
        let j = choose|j: int| 0 <= j < r.len() && (r[j] == '-' || r[j] == '+');
        let x = r[j];
        let rc = remove_char(c, ',');
        let rd = remove_char(c, '.');
        assert(r.contains(x));
        if r == rc {
            c.lemma_filter_contains_rev(|ch: char| ch != ',', x);
        } else if r == rd {
            c.lemma_filter_contains_rev(|ch: char| ch != '.', x);
        } else if r == c {
        } else if r == replace_char(rd, ',', '.') {
            assert(rd[j] == x);
            assert(rd.contains(x));
            c.lemma_filter_contains_rev(|ch: char| ch != '.', x);
        } else {
            assert(r == replace_char(c, ',', '.'));
            assert(c[j] == x);
        }
    }
}

/// A leading sign only says whether the number is negative: `-` in front of
/// a text without signs gives the same digits, negative, and `+` gives the
/// same number as the text alone.
pub proof fn lemma_sign_leads(s: char, t: Seq<char>)
    requires
        s == '-' || s == '+',
        !t.contains('-'),
        !t.contains('+'),
    ensures
        number_parts(seq![s] + t) == match number_parts(t) {
            Some((negative, whole, frac)) => Some((s == '-', whole, frac)),
            None => None,
        },
{
    let st = seq![s] + t;
    if all_number_chars(t) {
        assert forall|i: int| 0 <= i < st.len() implies number_char(#[trigger] st[i]) by {
            if i > 0 {
                assert(st[i] == t[i - 1]);
            }
        }
    }
    if all_number_chars(st) {
        assert forall|i: int| 0 <= i < t.len() implies number_char(#[trigger] t[i]) by {
            assert(t[i] == st[i + 1]);
        }
    }
    lemma_last_index_prefix(s, t, ' ');
    let c = remove_char(t, ' ');
    lemma_remove_is_filter(t, ' ');
    assert(!c.contains('-') && !c.contains('+')) by {
        if c.contains('-') {
            t.lemma_filter_contains_rev(|ch: char| ch != ' ', '-');
        }
        if c.contains('+') {
            t.lemma_filter_contains_rev(|ch: char| ch != ' ', '+');
        }
    }
    lemma_last_index_prefix(s, c, ',');
    lemma_last_index_prefix(s, c, '.');
    let sc = seq![s] + c;
    assert(replace_char(sc, ',', '.') =~= seq![s] + replace_char(c, ',', '.'));
    lemma_last_index_prefix(s, remove_char(c, '.'), ',');
    assert(replace_char(seq![s] + remove_char(c, '.'), ',', '.') =~= seq![s] + replace_char(
        remove_char(c, '.'),
        ',',
        '.',
    ));
    assert(resolve_separators(sc) == seq![s] + resolve_separators(c));
    let d = resolve_separators(c);
    lemma_resolved_has_no_sign(c);
    let sd = seq![s] + d;
    assert(sd.drop_first() =~= d);
    if d.len() > 0 {
        assert(d[0] != '-' && d[0] != '+') by {
            assert(d.contains(d[0]));
        }
    }
}

/// Spaces between digit groups never matter: a text holds the number that it
/// holds without its spaces (`1 000,5` is `1000,5`).
pub proof fn lemma_spaces_do_not_count(t: Seq<char>)
    ensures
        number_parts(t) == number_parts(t.filter(|c: char| c != ' ')),
{
    let keep = |c: char| c != ' ';
    let u = t.filter(keep);
    lemma_remove_is_filter(t, ' ');
    assert(!u.contains(' ')) by {
        if u.contains(' ') {
            let j = choose|j: int| 0 <= j < u.len() && u[j] == ' ';
            t.lemma_filter_pred(keep, j);
        }
    }
    lemma_remove_absent(u, ' ');
    if all_number_chars(t) {
        assert forall|i: int| 0 <= i < u.len() implies number_char(#[trigger] u[i]) by {
            assert(u.contains(u[i]));
            t.lemma_filter_contains_rev(keep, u[i]);
            let j = choose|j: int| 0 <= j < t.len() && t[j] == u[i];
            assert(number_char(t[j]));
        }
    }
    if all_number_chars(u) {
        assert forall|i: int| 0 <= i < t.len() implies number_char(#[trigger] t[i]) by {
            if t[i] != ' ' {
                t.lemma_filter_contains(keep, i);
                let j = choose|j: int| 0 <= j < u.len() && u[j] == t[i];
                assert(number_char(u[j]));
            }
        }
    }
}

/// Under the number rule, digits, one comma and exactly two more digits make
/// a decimal comma: `0,50` is the number with whole part `0` and decimals
/// `50`, and the digits before the comma are its whole part.
pub proof fn lemma_decimal_comma(whole: Seq<char>, x: char, y: char)
    requires
        all_digits(whole),
        is_digit(x),
        is_digit(y),
    ensures
        number_parts(whole + seq![',', x, y]) == Some((false, whole, seq![x, y])),
{
    let t = whole + seq![',', x, y];
    let n = whole.len();
    assert forall|i: int| 0 <= i < t.len() implies number_char(#[trigger] t[i]) by {
        if i < n {
            assert(t[i] == whole[i]);
        }
    }
    assert(!t.contains(' ')) by {
        if t.contains(' ') {
            let j = choose|j: int| 0 <= j < t.len() && t[j] == ' ';
            if j < n {
                assert(t[j] == whole[j]);
            }
        }
    }
    assert(!t.contains('.')) by {
        if t.contains('.') {
            let j = choose|j: int| 0 <= j < t.len() && t[j] == '.';
            if j < n {
                assert(t[j] == whole[j]);
            }
        }
    }
    assert(!whole.contains(',')) by {
        if whole.contains(',') {
            let j = choose|j: int| 0 <= j < n && whole[j] == ',';
        }
    }
    lemma_remove_absent(t, ' ');
    lemma_remove_absent(t, '.');
    lemma_remove_absent(whole, ',');
    // the last comma is the one before the two digits, and the only one
    let t1 = whole + seq![','];
    let t2 = whole + seq![',', x];
    assert(t1.drop_last() =~= whole);
    assert(t2.drop_last() =~= t1);
    assert(t.drop_last() =~= t2);
    assert(t1.last() == ',');
    assert(t2.last() == x && x != ',');
    assert(t.last() == y && y != ',');
    assert(last_index(t1, ',') == n);
    assert(last_index(t2, ',') == n);
    assert(last_index(t, ',') == n);
    assert(count_char(t1, ',') == 1);
    assert(count_char(t2, ',') == 1);
    assert(count_char(t, ',') == 1);
    let r = replace_char(t, ',', '.');
    assert(r =~= whole + seq!['.', x, y]);
    assert(resolve_separators(remove_char(t, ' ')) == r);
    assert forall|j: int| 0 <= j < n implies #[trigger] r[j] != '.' by {
        assert(r[j] == whole[j]);
    }
    lemma_first_index_at(r, '.', n as int);
    assert(r.take(n as int) =~= whole);
    assert(r.skip(n as int + 1) =~= seq![x, y]);
    assert(all_digits(seq![x, y]));
    if n > 0 {
        assert(r[0] == whole[0]);
    }
    assert(decimal_parts(r) == Some((false, whole, seq![x, y])));
}

/// Normalising twice is normalising once for a cell that holds no number,
/// when text is not lower-cased (the lower case of a text is named, not
/// stated): empty cells stay empty and text stays trimmed. For a number the
/// second round goes through its number form, which is computed outside this
/// library.
pub proof fn lemma_normalise_idempotent(value: Seq<char>, rules: Normalisation)
    requires
        !rules.loose_text,
        number_parts(trim(value)) is None,
    ensures
        normalised(normalised(value, None, rules), None, rules) == normalised(value, None, rules),
{
    let t = trim(value);
    let n = normalised(value, None, rules);
    if rules.nulls && is_null_spelling(t) {
        assert(n.len() == 0);
        assert(trim(n) =~= n);
        assert(ascii_lower(n).len() == 0);
    } else {
        lemma_trim_idempotent(value);
    }
}

// ---------------------------------------------------------------------------
// Rows

/// A row compared with itself has no changes.
pub proof fn lemma_unchanged_row_has_no_changes(
    columns: Seq<Seq<char>>,
    row: Seq<Seq<char>>,
    forms: Seq<Option<Seq<char>>>,
    ignore: Seq<Seq<char>>,
    rules: Normalisation,
)
    ensures
        field_changes(columns, row, forms, row, forms, ignore, rules).len() == 0,
    decreases columns.len(),
{
    if columns.len() > 0 {
        lemma_unchanged_row_has_no_changes(columns.drop_last(), row, forms, ignore, rules);
    }
}

/// Adding a name to the ignore list only takes out the changes of the
/// columns of that name (ignoring ASCII case): the other changes stay, in
/// their order.
pub proof fn lemma_ignoring_one_more_column(
    columns: Seq<Seq<char>>,
    before: Seq<Seq<char>>,
    before_forms: Seq<Option<Seq<char>>>,
    after: Seq<Seq<char>>,
    after_forms: Seq<Option<Seq<char>>>,
    ignore: Seq<Seq<char>>,
    name: Seq<char>,
    rules: Normalisation,
)
    ensures
        field_changes(columns, before, before_forms, after, after_forms, ignore.push(name), rules) == field_changes(
            columns,
            before,
            before_forms,
            after,
            after_forms,
            ignore,
            rules,
        ).filter(|c: (Seq<char>, Seq<char>, Seq<char>)| !same_ignoring_ascii_case(name, c.0)),
    decreases columns.len(),
{
    reveal(Seq::filter);
    if columns.len() > 0 {
        lemma_ignoring_one_more_column(columns.drop_last(), before, before_forms, after, after_forms, ignore, name, rules);
        let col = columns[columns.len() - 1];
        let more = ignore.push(name);
        if is_ignored(ignore, col) {
            let j = choose|j: int| 0 <= j < ignore.len() && same_ignoring_ascii_case(#[trigger] ignore[j], col);
            assert(more[j] == ignore[j]);
        }
        if same_ignoring_ascii_case(name, col) {
            assert(more[ignore.len() as int] == name);
        }
        if is_ignored(more, col) {
            let j = choose|j: int| 0 <= j < more.len() && same_ignoring_ascii_case(#[trigger] more[j], col);
            if j < ignore.len() {
                assert(more[j] == ignore[j]);
            }
        }
        assert(is_ignored(more, col) <==> (is_ignored(ignore, col) || same_ignoring_ascii_case(name, col)));
        let p = |c: (Seq<char>, Seq<char>, Seq<char>)| !same_ignoring_ascii_case(name, c.0);
        let e = field_changes(columns.drop_last(), before, before_forms, after, after_forms, ignore, rules);
        let i = columns.len() - 1;
        let x = (col, cell(before, i), cell(after, i));
        assert(e.push(x).drop_last() =~= e);
        assert(e.push(x).last() == x);
        assert(e.push(x).filter(p) == if p(x) { e.filter(p).push(x) } else { e.filter(p) });
    }
}

/// Every reported change is a real one: its column is one of the columns and
/// is not ignored, its cells are that column's cells as written, and they
/// normalise differently.
pub proof fn lemma_changes_are_differences(
    columns: Seq<Seq<char>>,
    before: Seq<Seq<char>>,
    before_forms: Seq<Option<Seq<char>>>,
    after: Seq<Seq<char>>,
    after_forms: Seq<Option<Seq<char>>>,
    ignore: Seq<Seq<char>>,
    rules: Normalisation,
    k: int,
)
    requires
        0 <= k < field_changes(columns, before, before_forms, after, after_forms, ignore, rules).len(),
    ensures
        ({
            let (column, old, new) = field_changes(columns, before, before_forms, after, after_forms, ignore, rules)[k];
            &&& !is_ignored(ignore, column)
            &&& exists|i: int|
                0 <= i < columns.len() && column == columns[i] && old == cell(before, i) && new
                    == cell(after, i) && normalised(cell(before, i), form_at(before_forms, i), rules)
                    != normalised(cell(after, i), form_at(after_forms, i), rules)
        }),
    decreases columns.len(),
{
    let earlier = field_changes(columns.drop_last(), before, before_forms, after, after_forms, ignore, rules);
    let i = columns.len() - 1;
    if k < earlier.len() {
        lemma_changes_are_differences(columns.drop_last(), before, before_forms, after, after_forms, ignore, rules, k);
        let (column, old, new) = earlier[k];
        let j = choose|j: int|
            0 <= j < columns.drop_last().len() && column == columns.drop_last()[j] && old == cell(
                before,
                j,
            ) && new == cell(after, j) && normalised(cell(before, j), form_at(before_forms, j), rules)
                != normalised(cell(after, j), form_at(after_forms, j), rules);
        assert(columns[j] == columns.drop_last()[j]);
    } else {
        assert(field_changes(columns, before, before_forms, after, after_forms, ignore, rules)[k] == (
            columns[i],
            cell(before, i),
            cell(after, i),
        ));
    }
}

/// No difference is missed: every column that is not ignored and whose cells
/// normalise differently is reported, with both cells as written.
pub proof fn lemma_differences_are_reported(
    columns: Seq<Seq<char>>,
    before: Seq<Seq<char>>,
    before_forms: Seq<Option<Seq<char>>>,
    after: Seq<Seq<char>>,
    after_forms: Seq<Option<Seq<char>>>,
    ignore: Seq<Seq<char>>,
    rules: Normalisation,
    i: int,
)
    requires
        0 <= i < columns.len(),
        !is_ignored(ignore, columns[i]),
        normalised(cell(before, i), form_at(before_forms, i), rules) != normalised(
            cell(after, i),
            form_at(after_forms, i),
            rules,
        ),
    ensures
        field_changes(columns, before, before_forms, after, after_forms, ignore, rules).contains(
            (columns[i], cell(before, i), cell(after, i)),
        ),
    decreases columns.len(),
{
    let all = field_changes(columns, before, before_forms, after, after_forms, ignore, rules);
    let earlier = field_changes(columns.drop_last(), before, before_forms, after, after_forms, ignore, rules);
    if i < columns.len() - 1 {
        assert(columns.drop_last()[i] == columns[i]);
        lemma_differences_are_reported(columns.drop_last(), before, before_forms, after, after_forms, ignore, rules, i);
        let k = choose|k: int|
            0 <= k < earlier.len() && earlier[k] == (columns[i], cell(before, i), cell(after, i));
        assert(all[k] == earlier[k]);
    } else {
        assert(all[all.len() - 1] == (columns[i], cell(before, i), cell(after, i)));
    }
}

// ---------------------------------------------------------------------------
// Row hashes

/// The bytes that `hash_of` feeds to the hasher, in order.
pub open spec fn hash_stream(values: Seq<Seq<char>>) -> Seq<u8>
    decreases values.len(),
{
    if values.len() == 0 {
        Seq::empty()
    } else {
        hash_stream(values.drop_last()) + encode_utf8(values.last()) + seq![0xffu8, 0xffu8]
    }
}

/// `hash_stream` is what the writes of `hash_of` hold, joined.
pub proof fn lemma_hash_stream_is_the_writes(values: Seq<Seq<char>>)
    ensures
        hash_writes(values).flatten() == hash_stream(values),
    decreases values.len(),
{
    let w = hash_writes(values);
    w.lemma_flatten_and_flatten_alt_are_equivalent();
    if values.len() > 0 {
        lemma_hash_stream_is_the_writes(values.drop_last());
        let w0 = hash_writes(values.drop_last());
        w0.lemma_flatten_and_flatten_alt_are_equivalent();
        let e = encode_utf8(values.last());
        let w1 = w.drop_last();
        let w2 = w1.drop_last();
        let w3 = w2.drop_last();
        assert(w1 =~= w0 + seq![e, seq![0xffu8]]);
        assert(w2 =~= w0 + seq![e]);
        assert(w3 =~= w0);
        assert(w.flatten_alt() == w1.flatten_alt() + w.last());
        assert(w1.flatten_alt() == w2.flatten_alt() + w1.last());
        assert(w2.flatten_alt() == w3.flatten_alt() + w2.last());
        assert(w.last() == seq![0xffu8]);
        assert(w1.last() == seq![0xffu8]);
        assert(w2.last() == e);
        assert(w.flatten_alt() =~= w0.flatten_alt() + e + seq![0xffu8] + seq![0xffu8]);
        assert(hash_stream(values) =~= w0.flatten_alt() + e + seq![0xffu8, 0xffu8]);
    }
}

proof fn lemma_scalar_has_no_ff(c: char)
    ensures
        forall|i: int|
            0 <= i < encode_scalar(c as u32).len() ==> #[trigger] encode_scalar(c as u32)[i]
                != 0xffu8,
{
    let s = c as u32;
    assert((s & 0x7F) as u8 != 0xffu8) by (bit_vector);
    assert(0xC0u8 | ((s >> 6) & 0x1F) as u8 != 0xffu8) by (bit_vector);
    assert(0xE0u8 | ((s >> 12) & 0x0F) as u8 != 0xffu8) by (bit_vector);
    assert(0xF0u8 | ((s >> 18) & 0x7) as u8 != 0xffu8) by (bit_vector);
    assert(0x80u8 | (s & 0x3F) as u8 != 0xffu8) by (bit_vector);
    assert(0x80u8 | ((s >> 6) & 0x3F) as u8 != 0xffu8) by (bit_vector);
    assert(0x80u8 | ((s >> 12) & 0x3F) as u8 != 0xffu8) by (bit_vector);
}

/// UTF-8 never holds the byte 0xFF.
pub proof fn lemma_utf8_has_no_ff(chars: Seq<char>)
    ensures
        forall|i: int| 0 <= i < encode_utf8(chars).len() ==> #[trigger] encode_utf8(chars)[i] != 0xffu8,
    decreases chars.len(),
{
    if chars.len() > 0 {
        lemma_scalar_has_no_ff(chars[0]);
        lemma_utf8_has_no_ff(chars.drop_first());
        let a = encode_scalar(chars[0] as u32);
        let b = encode_utf8(chars.drop_first());
        assert(encode_utf8(chars) == a + b);
        assert forall|i: int| 0 <= i < encode_utf8(chars).len() implies #[trigger] encode_utf8(
            chars,
        )[i] != 0xffu8 by {
            if i < a.len() {
                assert(encode_utf8(chars)[i] == a[i]);
            } else {
                assert(encode_utf8(chars)[i] == b[i - a.len()]);
            }
        }
    }
}

proof fn lemma_hash_stream_ends_with_ff(values: Seq<Seq<char>>)
    requires
        values.len() > 0,
    ensures
        hash_stream(values).len() > 0,
        hash_stream(values).last() == 0xffu8,
{
}

/// The bytes fed to the hasher tell the values apart, boundaries included:
/// `["ab", "c"]` and `["a", "bc"]` feed different bytes. Two lists feed the
/// same bytes only when they are the same list.
pub proof fn lemma_hash_stream_separates_values(a: Seq<Seq<char>>, b: Seq<Seq<char>>)
    requires
        hash_stream(a) == hash_stream(b),
    ensures
        a == b,
    decreases a.len(),
{
    if a.len() == 0 {
        if b.len() > 0 {
            lemma_hash_stream_ends_with_ff(b);
        }
        assert(b.len() == 0);
        assert(a =~= b);
    } else {
        if b.len() == 0 {
            lemma_hash_stream_ends_with_ff(a);
        }
        let a0 = a.drop_last();
        let b0 = b.drop_last();
        let ea = encode_utf8(a.last());
        let eb = encode_utf8(b.last());
        let sa = hash_stream(a0);
        let sb = hash_stream(b0);
        let u = sa + ea;
        assert(hash_stream(a) =~= u + seq![0xffu8, 0xffu8]);
        assert(hash_stream(b) =~= (sb + eb) + seq![0xffu8, 0xffu8]);
        assert(u =~= hash_stream(a).take(hash_stream(a).len() - 2));
        assert(sb + eb =~= hash_stream(b).take(hash_stream(b).len() - 2));
        assert(u == sb + eb);
        lemma_utf8_has_no_ff(a.last());
        lemma_utf8_has_no_ff(b.last());
        if ea.len() < eb.len() {
            // just before the value of `a` stands a separator, inside that of `b`
            let pos = u.len() - ea.len() - 1;
            if a0.len() > 0 {
                lemma_hash_stream_ends_with_ff(a0);
                assert(u[pos] == sa.last());
            } else {
                assert(sa.len() == 0);
            }
            assert(u[pos] == eb[pos - sb.len()]);
        } else if eb.len() < ea.len() {
            let pos = u.len() - eb.len() - 1;
            if b0.len() > 0 {
                lemma_hash_stream_ends_with_ff(b0);
                assert((sb + eb)[pos] == sb.last());
            } else {
                assert(sb.len() == 0);
            }
            assert(u[pos] == ea[pos - sa.len()]);
        }
        assert(ea.len() == eb.len());
        assert(ea =~= u.skip(sa.len() as int));
        assert(eb =~= u.skip(sb.len() as int));
        assert(sa =~= u.take(sa.len() as int));
        assert(sb =~= u.take(sb.len() as int));
        encode_utf8_decode_utf8(a.last());
        encode_utf8_decode_utf8(b.last());
        lemma_hash_stream_separates_values(a0, b0);
        assert(a =~= a0.push(a.last()));
        assert(b =~= b0.push(b.last()));
    }
}

// ---------------------------------------------------------------------------
// Keys, ignored columns and shown values

/// Parts that hold no separator are told apart by their join: two lists of
/// as many such parts join to the same text only when they are the same.
pub proof fn lemma_join_unambiguous(a: Seq<Seq<char>>, b: Seq<Seq<char>>, sep: char)
    requires
        a.len() == b.len(),
        forall|i: int| 0 <= i < a.len() ==> !(#[trigger] a[i]).contains(sep),
        forall|i: int| 0 <= i < b.len() ==> !(#[trigger] b[i]).contains(sep),
        join(a, sep) == join(b, sep),
    ensures
        a == b,
    decreases a.len(),
{
    if a.len() == 1 {
        assert(a =~= b);
    } else if a.len() > 1 {
        let x = join(a.drop_last(), sep);
        let y = join(b.drop_last(), sep);
        let whole = join(a, sep);
        assert(whole == x + seq![sep] + a.last());
        assert(whole == y + seq![sep] + b.last());
        if x.len() < y.len() {
            assert(whole[y.len() as int] == sep);
            assert(whole[y.len() as int] == a.last()[y.len() - x.len() - 1]);
            assert(a[a.len() - 1].contains(sep));
        } else if y.len() < x.len() {
            assert(whole[x.len() as int] == sep);
            assert(whole[x.len() as int] == b.last()[x.len() - y.len() - 1]);
            assert(b[b.len() - 1].contains(sep));
        }
        assert(x =~= whole.take(x.len() as int));
        assert(y =~= whole.take(y.len() as int));
        assert(a.last() =~= whole.skip(x.len() as int + 1));
        assert(b.last() =~= whole.skip(y.len() as int + 1));
        assert forall|i: int| 0 <= i < a.drop_last().len() implies !(#[trigger] a.drop_last()[i]).contains(sep) by {
            assert(a.drop_last()[i] == a[i]);
        }
        assert forall|i: int| 0 <= i < b.drop_last().len() implies !(#[trigger] b.drop_last()[i]).contains(sep) by {
            assert(b.drop_last()[i] == b[i]);
        }
        lemma_join_unambiguous(a.drop_last(), b.drop_last(), sep);
        assert(a =~= a.drop_last().push(a.last()));
        assert(b =~= b.drop_last().push(b.last()));
    }
}

/// Keys of several columns are unambiguous: when no key cell holds the key
/// separator, two rows get the same key exactly when their key cells agree,
/// once trimmed, column by column. A `|` inside a value is ordinary text.
pub proof fn lemma_row_keys_unambiguous(
    fields1: Seq<Seq<char>>,
    fields2: Seq<Seq<char>>,
    indexes: Seq<usize>,
)
    requires
        forall|j: int| 0 <= j < indexes.len() ==> !trim(#[trigger] cell(fields1, indexes[j] as int)).contains(key_separator()),
        forall|j: int| 0 <= j < indexes.len() ==> !trim(#[trigger] cell(fields2, indexes[j] as int)).contains(key_separator()),
    ensures
        row_key(fields1, indexes) == row_key(fields2, indexes) <==> forall|j: int|
            0 <= j < indexes.len() ==> trim(#[trigger] cell(fields1, indexes[j] as int)) == trim(cell(fields2, indexes[j] as int)),
{
    let a = indexes.map_values(|i: usize| trim(cell(fields1, i as int)));
    let b = indexes.map_values(|i: usize| trim(cell(fields2, i as int)));
    if row_key(fields1, indexes) == row_key(fields2, indexes) {
        assert forall|i: int| 0 <= i < a.len() implies !(#[trigger] a[i]).contains(key_separator()) by {
            assert(a[i] == trim(cell(fields1, indexes[i] as int)));
        }
        assert forall|i: int| 0 <= i < b.len() implies !(#[trigger] b[i]).contains(key_separator()) by {
            assert(b[i] == trim(cell(fields2, indexes[i] as int)));
        }
        lemma_join_unambiguous(a, b, key_separator());
        assert forall|j: int| 0 <= j < indexes.len() implies trim(#[trigger] cell(fields1, indexes[j] as int)) == trim(cell(fields2, indexes[j] as int)) by {
            assert(a[j] == b[j]);
        }
    }
    if forall|j: int| 0 <= j < indexes.len() ==> trim(#[trigger] cell(fields1, indexes[j] as int)) == trim(cell(fields2, indexes[j] as int)) {
        assert(a =~= b);
    }
}

/// The parts one after another, with ` | ` between them.
pub open spec fn bar_joined(parts: Seq<Seq<char>>) -> Seq<char>
    decreases parts.len(),
{
    if parts.len() == 0 {
        Seq::empty()
    } else if parts.len() == 1 {
        parts[0]
    } else {
        bar_joined(parts.drop_last()) + seq![' ', '|', ' '] + parts.last()
    }
}

/// A text without the key separator is shown as it is.
proof fn lemma_shown_key_plain(s: Seq<char>)
    requires
        !s.contains(key_separator()),
    ensures
        shown_key(s) == s,
    decreases s.len(),
{
    if s.len() > 0 {
        assert(!s.drop_last().contains(key_separator())) by {
            if s.drop_last().contains(key_separator()) {
                let j = choose|j: int| 0 <= j < s.drop_last().len() && s.drop_last()[j] == key_separator();
                assert(s[j] == key_separator());
            }
        }
        lemma_shown_key_plain(s.drop_last());
        assert(s[s.len() - 1] != key_separator());
        assert(s.drop_last() + seq![s.last()] =~= s);
    }
}

/// Showing a key is done character by character, so it goes over a join.
proof fn lemma_shown_key_append(a: Seq<char>, b: Seq<char>)
    ensures
        shown_key(a + b) == shown_key(a) + shown_key(b),
    decreases b.len(),
{
    if b.len() == 0 {
        assert(a + b =~= a);
        assert(shown_key(a) + shown_key(b) =~= shown_key(a));
    } else {
        lemma_shown_key_append(a, b.drop_last());
        assert((a + b).drop_last() =~= a + b.drop_last());
        assert((a + b).last() == b.last());
    }
}

/// A key of several columns is shown as its parts with ` | ` between them:
/// the key of `A|B` and `C` is shown as `A|B | C`, whatever the parts hold but
/// the key separator.
pub proof fn lemma_keys_show_their_parts(parts: Seq<Seq<char>>)
    requires
        forall|i: int| 0 <= i < parts.len() ==> !(#[trigger] parts[i]).contains(key_separator()),
    ensures
        shown_key(join(parts, key_separator())) == bar_joined(parts),
    decreases parts.len(),
{
    if parts.len() == 1 {
        lemma_shown_key_plain(parts[0]);
    } else if parts.len() > 1 {
        let rest = parts.drop_last();
        assert forall|i: int| 0 <= i < rest.len() implies !(#[trigger] rest[i]).contains(key_separator()) by {
            assert(rest[i] == parts[i]);
        }
        lemma_keys_show_their_parts(rest);
        let j = join(rest, key_separator());
        lemma_shown_key_append(j + seq![key_separator()], parts.last());
        lemma_shown_key_append(j, seq![key_separator()]);
        lemma_shown_key_plain(parts.last());
        let one = seq![key_separator()];
        assert(one.drop_last() =~= Seq::<char>::empty());
        assert(one.last() == key_separator());
        assert(shown_key(Seq::<char>::empty()) == Seq::<char>::empty());
        assert(shown_key(one) == shown_key(one.drop_last()) + seq![' ', '|', ' ']);
        assert(shown_key(one) =~= seq![' ', '|', ' ']);
    }
}

/// Ignored columns never make two rows differ: rows whose cells (and number
/// forms) agree on every column that is not ignored have the same comparable
/// values, and so the same row hash.
pub proof fn lemma_ignored_columns_do_not_count(
    columns: Seq<Seq<char>>,
    fields1: Seq<Seq<char>>,
    forms1: Seq<Option<Seq<char>>>,
    fields2: Seq<Seq<char>>,
    forms2: Seq<Option<Seq<char>>>,
    ignore: Seq<Seq<char>>,
    rules: Normalisation,
)
    requires
        forall|i: int| 0 <= i < columns.len() && !is_ignored(ignore, #[trigger] columns[i]) ==> cell(fields1, i) == cell(fields2, i)
            && form_at(forms1, i) == form_at(forms2, i),
    ensures
        comparable_forms(columns, fields1, forms1, ignore, rules) == comparable_forms(columns, fields2, forms2, ignore, rules),
    decreases columns.len(),
{
    if columns.len() > 0 {
        let c = columns.drop_last();
        assert forall|i: int| 0 <= i < c.len() && !is_ignored(ignore, #[trigger] c[i]) implies cell(fields1, i) == cell(fields2, i)
            && form_at(forms1, i) == form_at(forms2, i) by {
            assert(c[i] == columns[i]);
        }
        lemma_ignored_columns_do_not_count(c, fields1, forms1, fields2, forms2, ignore, rules);
        let i = columns.len() - 1;
        if !is_ignored(ignore, columns[i]) {
            assert(cell(fields1, i) == cell(fields2, i));
            assert(form_at(forms1, i) == form_at(forms2, i));
        }
    }
}

/// The changes of a row follow its columns: the `k`-th change comes from a
/// column `idx[k]`, the columns strictly increase, so no column is reported
/// twice and there are never more changes than columns, and each change is
/// that column's name and its two cells as written, the column not ignored
/// and its cells normalising differently.
pub proof fn lemma_changes_follow_columns(
    columns: Seq<Seq<char>>,
    before: Seq<Seq<char>>,
    before_forms: Seq<Option<Seq<char>>>,
    after: Seq<Seq<char>>,
    after_forms: Seq<Option<Seq<char>>>,
    ignore: Seq<Seq<char>>,
    rules: Normalisation,
) -> (idx: Seq<int>)
    ensures
        ({
            let changes = field_changes(columns, before, before_forms, after, after_forms, ignore, rules);
            &&& idx.len() == changes.len()
            &&& changes.len() <= columns.len()
            &&& forall|k: int, l: int| 0 <= k < l < idx.len() ==> #[trigger] idx[k] < #[trigger] idx[l]
            &&& forall|k: int|
                0 <= k < idx.len() ==> {
                    let i = #[trigger] idx[k];
                    &&& 0 <= i < columns.len()
                    &&& changes[k] == (columns[i], cell(before, i), cell(after, i))
                    &&& !is_ignored(ignore, columns[i])
                    &&& normalised(cell(before, i), form_at(before_forms, i), rules) != normalised(
                        cell(after, i),
                        form_at(after_forms, i),
                        rules,
                    )
                }
        }),
    decreases columns.len(),
{
    if columns.len() == 0 {
        Seq::empty()
    } else {
        let c = columns.drop_last();
        let n = columns.len() - 1;
        let earlier = lemma_changes_follow_columns(c, before, before_forms, after, after_forms, ignore, rules);
        let e = field_changes(c, before, before_forms, after, after_forms, ignore, rules);
        assert forall|k: int| 0 <= k < earlier.len() implies 0 <= #[trigger] earlier[k] < n
            && columns[earlier[k]] == c[earlier[k]] by {}
        if !is_ignored(ignore, columns[n]) && normalised(cell(before, n), form_at(before_forms, n), rules)
            != normalised(cell(after, n), form_at(after_forms, n), rules) {
            let idx = earlier.push(n);
            let changes = e.push((columns[n], cell(before, n), cell(after, n)));
            assert forall|k: int, l: int| 0 <= k < l < idx.len() implies #[trigger] idx[k] < #[trigger] idx[l] by {
                if l < earlier.len() {
                    assert(idx[k] == earlier[k] && idx[l] == earlier[l]);
                } else {
                    assert(idx[k] == earlier[k]);
                }
            }
            assert forall|k: int| 0 <= k < idx.len() implies {
                let i = #[trigger] idx[k];
                &&& 0 <= i < columns.len()
                &&& changes[k] == (columns[i], cell(before, i), cell(after, i))
                &&& !is_ignored(ignore, columns[i])
                &&& normalised(cell(before, i), form_at(before_forms, i), rules) != normalised(
                    cell(after, i),
                    form_at(after_forms, i),
                    rules,
                )
            } by {
                if k < earlier.len() {
                    assert(idx[k] == earlier[k]);
                    assert(changes[k] == e[k]);
                    assert(columns[earlier[k]] == c[earlier[k]]);
                }
            }
            idx
        } else {
            assert forall|k: int| 0 <= k < earlier.len() implies {
                let i = #[trigger] earlier[k];
                &&& 0 <= i < columns.len()
                &&& e[k] == (columns[i], cell(before, i), cell(after, i))
                &&& !is_ignored(ignore, columns[i])
                &&& normalised(cell(before, i), form_at(before_forms, i), rules) != normalised(
                    cell(after, i),
                    form_at(after_forms, i),
                    rules,
                )
            } by {
                assert(columns[earlier[k]] == c[earlier[k]]);
            }
            earlier
        }
    }
}

/// The row hash and the field comparison agree: two rows (with their number
/// forms) have the same comparable values exactly when comparing them field
/// by field, under the same rules and ignore list, finds no change.
pub proof fn lemma_same_forms_exactly_when_no_changes(
    columns: Seq<Seq<char>>,
    fields1: Seq<Seq<char>>,
    forms1: Seq<Option<Seq<char>>>,
    fields2: Seq<Seq<char>>,
    forms2: Seq<Option<Seq<char>>>,
    ignore: Seq<Seq<char>>,
    rules: Normalisation,
)
    ensures
        comparable_forms(columns, fields1, forms1, ignore, rules) == comparable_forms(
            columns,
            fields2,
            forms2,
            ignore,
            rules,
        ) <==> field_changes(columns, fields1, forms1, fields2, forms2, ignore, rules).len() == 0,
    decreases columns.len(),
{
    if columns.len() > 0 {
        let c = columns.drop_last();
        let i = columns.len() - 1;
        lemma_same_forms_exactly_when_no_changes(c, fields1, forms1, fields2, forms2, ignore, rules);
        let a = comparable_forms(c, fields1, forms1, ignore, rules);
        let b = comparable_forms(c, fields2, forms2, ignore, rules);
        let x = normalised(cell(fields1, i), form_at(forms1, i), rules);
        let y = normalised(cell(fields2, i), form_at(forms2, i), rules);
        if !is_ignored(ignore, columns[i]) {
            if a.push(x) == b.push(y) {
                assert(a =~= a.push(x).drop_last());
                assert(b =~= b.push(y).drop_last());
                assert(x == a.push(x).last());
            }
            if a == b && x == y {
                assert(a.push(x) =~= b.push(y));
            }
        }
    }
}

/// A value shown in a summary is never longer than 24 characters.
pub proof fn lemma_shortened_fits(value: Seq<char>)
    ensures
        shortened(value).len() <= 24,
{
}

} // verus!
