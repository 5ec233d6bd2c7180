//! Recognising a number in a cell, written with either decimal convention:
//! `1,000.50` and `1.000,50` both mean one thousand and a half, and writing
//! it as a plain decimal literal, `1000.50`.

use vstd::prelude::*;
use crate::text::{chars_of, string_of, trim, trim_chars};

verus! {

/// An ASCII decimal digit.
pub open spec fn is_digit(c: char) -> bool {
    '0' <= c && c <= '9'
}

pub open spec fn all_digits(s: Seq<char>) -> bool {
    forall|i: int| 0 <= i < s.len() ==> is_digit(#[trigger] s[i])
}

/// The characters a written number may hold: digits, a sign, separators and
/// spaces between digit groups.
pub open spec fn number_char(c: char) -> bool {
    is_digit(c) || c == '+' || c == '-' || c == '.' || c == ',' || c == ' '
}

pub open spec fn all_number_chars(s: Seq<char>) -> bool {
    forall|i: int| 0 <= i < s.len() ==> number_char(#[trigger] s[i])
}

/// `s` without the character `x`.
pub open spec fn remove_char(s: Seq<char>, x: char) -> Seq<char>
    decreases s.len(),
{
    if s.len() == 0 {
        s
    } else if s.last() == x {
        remove_char(s.drop_last(), x)
    } else {
        remove_char(s.drop_last(), x).push(s.last())
    }
}

/// `s` with every `from` replaced by `to`.
pub open spec fn replace_char(s: Seq<char>, from: char, to: char) -> Seq<char> {
    s.map_values(|c: char| if c == from { to } else { c })
}

/// How often `x` occurs in `s`.
pub open spec fn count_char(s: Seq<char>, x: char) -> nat
    decreases s.len(),
{
    if s.len() == 0 {
        0
    } else {
        count_char(s.drop_last(), x) + if s.last() == x { 1nat } else { 0nat }
    }
}

/// The position of the last `x` in `s`, or -1.
pub open spec fn last_index(s: Seq<char>, x: char) -> int
    decreases s.len(),
{
    if s.len() == 0 {
        -1
    } else if s.last() == x {
        s.len() - 1
    } else {
        last_index(s.drop_last(), x)
    }
}

/// The position of the first `x` in `s`, or the length of `s`.
pub open spec fn first_index(s: Seq<char>, x: char) -> int
    decreases s.len(),
{
    if s.len() == 0 {
        0
    } else if s[0] == x {
        0
    } else {
        1 + first_index(s.drop_first(), x)
    }
}

/// Turns the separators of a number without spaces into at most one decimal
/// point. With both a comma and a dot, the rightmost one is the decimal point
/// and the other separates thousands. A lone comma followed by exactly two
/// digits is a decimal comma; other commas separate thousands.
pub open spec fn resolve_separators(c: Seq<char>) -> Seq<char> {
    let comma = last_index(c, ',');
    let dot = last_index(c, '.');
    if comma >= 0 && dot >= 0 {
        if comma > dot {
            replace_char(remove_char(c, '.'), ',', '.')
        } else {
            remove_char(c, ',')
        }
    } else if comma >= 0 {
        if c.len() - comma - 1 == 2 && count_char(c, ',') == 1 {
            replace_char(c, ',', '.')
        } else {
            remove_char(c, ',')
        }
    } else {
        c
    }
}

/// The parts of a plain decimal number: an optional sign, then digits with at
/// most one decimal point and at least one digit. Gives whether it is
/// negative, the digits before the point and the digits after it.
pub open spec fn decimal_parts(d: Seq<char>) -> Option<(bool, Seq<char>, Seq<char>)> {
    let signed = d.len() > 0 && (d[0] == '-' || d[0] == '+');
    let negative = d.len() > 0 && d[0] == '-';
    let body = if signed {
        d.drop_first()
    } else {
        d
    };
    let k = first_index(body, '.');
    let whole = body.take(k);
    let frac = if k < body.len() {
        body.skip(k + 1)
    } else {
        Seq::empty()
    };
    if all_digits(whole) && all_digits(frac) && whole.len() + frac.len() > 0 {
        Some((negative, whole, frac))
    } else {
        None
    }
}

/// The number that a trimmed cell holds, if it holds one: only number
/// characters, and after removing the spaces and resolving the separators,
/// a plain decimal number. Text such as `12 units` or `2026-08-22` is no
/// number.
pub open spec fn number_parts(t: Seq<char>) -> Option<(bool, Seq<char>, Seq<char>)> {
    if all_number_chars(t) {
        decimal_parts(resolve_separators(remove_char(t, ' ')))
    } else {
        None
    }
}

pub proof fn lemma_first_index_at(s: Seq<char>, x: char, k: int)
    requires
        0 <= k <= s.len(),
        forall|j: int| 0 <= j < k ==> #[trigger] s[j] != x,
        k == s.len() || s[k] == x,
    ensures
        first_index(s, x) == k,
    decreases k,
{
    if k > 0 {
        let s2 = s.drop_first();
        assert forall|j: int| 0 <= j < k - 1 implies #[trigger] s2[j] != x by {
            assert(s2[j] == s[j + 1]);
        }
        if k - 1 < s2.len() {
            assert(s2[k - 1] == s[k]);
        }
        lemma_first_index_at(s2, x, k - 1);
        assert(s[0] != x);
    }
}

pub(crate) proof fn lemma_last_index_bounds(s: Seq<char>, x: char)
    ensures
        -1 <= last_index(s, x) < s.len(),
        last_index(s, x) >= 0 ==> s[last_index(s, x)] == x,
    decreases s.len(),
{
    if s.len() > 0 {
        lemma_last_index_bounds(s.drop_last(), x);
    }
}

/// The characters of `s` without `x`.
fn remove_char_exec(s: &Vec<char>, x: char) -> (r: Vec<char>)
    ensures
        r@ == remove_char(s@, x),
{
    let mut r: Vec<char> = Vec::new();
    let mut i: usize = 0;
    while i < s.len()
        invariant
            i <= s@.len(),
            r@ == remove_char(s@.take(i as int), x),
        decreases s@.len() - i,
    {
        proof {
            assert(s@.take(i + 1).drop_last() =~= s@.take(i as int));
        }
        if s[i] != x {
            r.push(s[i]);
        }
        i = i + 1;
    }
    proof {
        assert(s@.take(s@.len() as int) =~= s@);
    }
    r
}

/// The characters of `s` with every `from` replaced by `to`.
fn replace_char_exec(s: &Vec<char>, from: char, to: char) -> (r: Vec<char>)
    ensures
        r@ == replace_char(s@, from, to),
{
    let mut r: Vec<char> = Vec::new();
    let mut i: usize = 0;
    while i < s.len()
        invariant
            i <= s@.len(),
            r@ == replace_char(s@.take(i as int), from, to),
        decreases s@.len() - i,
    {
        let c = if s[i] == from {
            to
        } else {
            s[i]
        };
        r.push(c);
        proof {
            assert(replace_char(s@.take(i + 1), from, to) =~= replace_char(
                s@.take(i as int),
                from,
                to,
            ).push(c));
        }
        i = i + 1;
    }
    proof {
        assert(s@.take(s@.len() as int) =~= s@);
    }
    r
}

/// The last position of `x` (or -1, as `None`) and how often `x` occurs.
fn scan_char(s: &Vec<char>, x: char) -> (r: (Option<usize>, usize))
    ensures
        match r.0 {
            Some(i) => last_index(s@, x) == i,
            None => last_index(s@, x) == -1,
        },
        r.1 == count_char(s@, x),
{
    let mut last: Option<usize> = None;
    let mut count: usize = 0;
    let mut i: usize = 0;
    while i < s.len()
        invariant
            i <= s@.len(),
            count == count_char(s@.take(i as int), x),
            count <= i,
            match last {
                Some(j) => last_index(s@.take(i as int), x) == j,
                None => last_index(s@.take(i as int), x) == -1,
            },
        decreases s@.len() - i,
    {
        proof {
            assert(s@.take(i + 1).drop_last() =~= s@.take(i as int));
        }
        if s[i] == x {
            last = Some(i);
            count = count + 1;
        }
        i = i + 1;
    }
    proof {
        assert(s@.take(s@.len() as int) =~= s@);
    }
    (last, count)
}

/// Whether every character of `s` from `start` up to `end` is a digit.
fn digits_between(s: &Vec<char>, start: usize, end: usize) -> (b: bool)
    requires
        start <= end <= s@.len(),
    ensures
        b == all_digits(s@.subrange(start as int, end as int)),
{
    let mut i = start;
    while i < end
        invariant
            start <= i <= end <= s@.len(),
            forall|j: int| start <= j < i ==> is_digit(#[trigger] s@[j]),
        decreases end - i,
    {
        if !(s[i] >= '0' && s[i] <= '9') {
            proof {
                let sub = s@.subrange(start as int, end as int);
                assert(sub[i - start] == s@[i as int]);
            }
            return false;
        }
        i = i + 1;
    }
    proof {
        let sub = s@.subrange(start as int, end as int);
        assert forall|j: int| 0 <= j < sub.len() implies is_digit(#[trigger] sub[j]) by {
            assert(sub[j] == s@[j + start]);
        }
    }
    true
}

/// The parts of a plain decimal number.
fn decimal_parts_exec(d: &Vec<char>) -> (r: Option<(bool, Vec<char>, Vec<char>)>)
    ensures
        match r {
            Some((negative, whole, frac)) => decimal_parts(d@) == Some((negative, whole@, frac@)),
            None => decimal_parts(d@) is None,
        },
{
    let n = d.len();
    let signed = n > 0 && (d[0] == '-' || d[0] == '+');
    let negative = n > 0 && d[0] == '-';
    let start: usize = if signed {
        1
    } else {
        0
    };
    let ghost body = if signed {
        d@.drop_first()
    } else {
        d@
    };
    assert(body =~= d@.subrange(start as int, n as int));
    let mut k = start;
    while k < n && d[k] != '.'
        invariant
            start <= k <= n == d@.len(),
            forall|j: int| start <= j < k ==> #[trigger] d@[j] != '.',
        decreases n - k,
    {
        k = k + 1;
    }
    proof {
        assert forall|j: int| 0 <= j < k - start implies #[trigger] body[j] != '.' by {
            assert(body[j] == d@[j + start]);
        }
        if k < n {
            assert(body[k - start] == d@[k as int]);
        }
        lemma_first_index_at(body, '.', k - start);
    }
    let whole_ok = digits_between(d, start, k);
    let frac_start = if k < n {
        k + 1
    } else {
        n
    };
    let frac_ok = digits_between(d, frac_start, n);
    proof {
        let kk = k - start;
        assert(body.take(kk) =~= d@.subrange(start as int, k as int));
        if kk < body.len() {
            assert(body.skip(kk + 1) =~= d@.subrange(frac_start as int, n as int));
        } else {
            assert(d@.subrange(frac_start as int, n as int) =~= Seq::<char>::empty());
        }
    }
    if whole_ok && frac_ok && (k - start) + (n - frac_start) > 0 {
        let whole = crate::text::sub_chars(d, start, k);
        let frac = crate::text::sub_chars(d, frac_start, n);
        Some((negative, whole, frac))
    } else {
        None
    }
}

/// The number that a trimmed cell holds, if it holds one.
pub fn number_parts_exec(t: &Vec<char>) -> (r: Option<(bool, Vec<char>, Vec<char>)>)
    ensures
        match r {
            Some((negative, whole, frac)) => number_parts(t@) == Some((negative, whole@, frac@)),
            None => number_parts(t@) is None,
        },
{
    let mut i: usize = 0;
    while i < t.len()
        invariant
            i <= t@.len(),
            forall|j: int| 0 <= j < i ==> number_char(#[trigger] t@[j]),
        decreases t@.len() - i,
    {
        let c = t[i];
        if !((c >= '0' && c <= '9') || c == '+' || c == '-' || c == '.' || c == ',' || c == ' ') {
            return None;
        }
        i = i + 1;
    }
    let compact = remove_char_exec(t, ' ');
    let (comma, commas) = scan_char(&compact, ',');
    let (dot, _dots) = scan_char(&compact, '.');
    let resolved = match (comma, dot) {
        (Some(c), Some(d)) => {
            if c > d {
                let no_dots = remove_char_exec(&compact, '.');
                replace_char_exec(&no_dots, ',', '.')
            } else {
                remove_char_exec(&compact, ',')
            }
        },
        (Some(c), None) => {
            proof {
                lemma_last_index_bounds(compact@, ',');
            }
            if compact.len() - c - 1 == 2 && commas == 1 {
                replace_char_exec(&compact, ',', '.')
            } else {
                remove_char_exec(&compact, ',')
            }
        },
        _ => compact,
    };
    assert(resolved@ == resolve_separators(remove_char(t@, ' ')));
    decimal_parts_exec(&resolved)
}

/// A number written as a plain decimal literal: a minus sign when it is
/// negative, the digits before the point, a point, the digits after it.
pub open spec fn literal_text(negative: bool, whole: Seq<char>, frac: Seq<char>) -> Seq<char> {
    (if negative { seq!['-'] } else { Seq::<char>::empty() }) + whole + seq!['.'] + frac
}

/// The plain decimal literal of the number that a cell holds, if it holds
/// one (surrounding whitespace aside).
pub open spec fn cell_literal(value: Seq<char>) -> Option<Seq<char>> {
    match number_parts(trim(value)) {
        Some((negative, whole, frac)) => Some(literal_text(negative, whole, frac)),
        None => None,
    }
}

/// The number a cell holds, as a plain decimal literal: `1.234,56` gives
/// `1234.56`, `-5` gives `-5.`, and text gives nothing.
pub fn number_literal(value: &str) -> (literal: Option<String>)
    ensures
        match literal {
            Some(l) => cell_literal(value@) == Some(l@),
            None => cell_literal(value@) is None,
        },
{
    let t = trim_chars(&chars_of(value));
    match number_parts_exec(&t) {
        Some((negative, whole, frac)) => {
            let mut v: Vec<char> = Vec::new();
            if negative {
                v.push('-');
            }
            let ghost start = v@;
            let mut i: usize = 0;
            while i < whole.len()
                invariant
                    i <= whole@.len(),
                    v@ == start + whole@.take(i as int),
                decreases whole@.len() - i,
            {
                v.push(whole[i]);
                proof {
                    assert(whole@.take(i + 1) =~= whole@.take(i as int).push(whole@[i as int]));
                }
                i = i + 1;
            }
            v.push('.');
            let ghost middle = v@;
            proof {
                assert(whole@.take(whole@.len() as int) =~= whole@);
            }
            let mut j: usize = 0;
            while j < frac.len()
                invariant
                    j <= frac@.len(),
                    v@ == middle + frac@.take(j as int),
                decreases frac@.len() - j,
            {
                v.push(frac[j]);
                proof {
                    assert(frac@.take(j + 1) =~= frac@.take(j as int).push(frac@[j as int]));
                }
                j = j + 1;
            }
            proof {
                assert(frac@.take(frac@.len() as int) =~= frac@);
                assert(v@ =~= literal_text(negative, whole@, frac@));
            }
            Some(string_of(&v))
        },
        None => None,
    }
}

} // verus!
