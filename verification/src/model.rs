//! The mathematical model of URL decomposition: where the scheme separator
//! and the field delimiters sit in a sequence of characters, and what each
//! field of a parsed URL is as a function of the raw input.

use vstd::prelude::*;

verus! {

/// The scheme separator "://" occurs in `s` at position `i`.
pub open spec fn sep_at(s: Seq<char>, i: int) -> bool {
    &&& 0 <= i
    &&& i + 3 <= s.len()
    &&& s[i] == ':'
    &&& s[i + 1] == '/'
    &&& s[i + 2] == '/'
}

/// The position of the first occurrence of "://" at or after `i`, if any.
pub open spec fn find_sep_from(s: Seq<char>, i: int) -> Option<int>
    decreases s.len() - i,
{
    if i < 0 || i + 3 > s.len() {
        None
    } else if sep_at(s, i) {
        Some(i)
    } else {
        find_sep_from(s, i + 1)
    }
}

/// The position of the first occurrence of "://" in `s`, if any.
pub open spec fn find_sep(s: Seq<char>) -> Option<int> {
    find_sep_from(s, 0)
}

pub open spec fn has_sep(s: Seq<char>) -> bool {
    find_sep(s) is Some
}

/// `find_sep_from` returns the least separator position at or after `i`.
pub proof fn lemma_find_sep_from(s: Seq<char>, i: int)
    requires
        0 <= i,
    ensures
        match find_sep_from(s, i) {
            Some(j) => i <= j && sep_at(s, j) && (forall|k: int| i <= k < j ==> !sep_at(s, k)),
            None => forall|k: int| i <= k ==> !sep_at(s, k),
        },
    decreases s.len() - i,
{
    if i + 3 > s.len() {
        assert forall|k: int| i <= k implies !sep_at(s, k) by {
            assert(k + 3 > s.len());
        }
    } else if !sep_at(s, i) {
        lemma_find_sep_from(s, i + 1);
    }
}

/// If "://" occurs at `j` and nowhere earlier, the first occurrence is `j`.
pub proof fn lemma_find_sep_exact(s: Seq<char>, j: int)
    requires
        sep_at(s, j),
        forall|k: int| 0 <= k < j ==> !sep_at(s, k),
    ensures
        find_sep(s) == Some(j),
{
    lemma_find_sep_from(s, 0);
    match find_sep(s) {
        Some(j2) => {
            if j2 < j {
                assert(!sep_at(s, j2));
            } else if j < j2 {
                assert(!sep_at(s, j));
            }
        },
        None => {
            assert(!sep_at(s, j));
        },
    }
}

/// If "://" occurs nowhere in `s`, there is no first occurrence.
pub proof fn lemma_find_sep_none(s: Seq<char>)
    requires
        forall|k: int| 0 <= k ==> !sep_at(s, k),
    ensures
        find_sep(s) is None,
{
    lemma_find_sep_from(s, 0);
    if find_sep(s) is Some {
        let j = find_sep(s)->Some_0;
        assert(!sep_at(s, j));
    }
}

/// The position of the first character of `s` at or after `i` that lies in
/// `cs`, if any.
pub open spec fn find_in_from(s: Seq<char>, cs: Set<char>, i: int) -> Option<int>
    decreases s.len() - i,
{
    if i < 0 || i >= s.len() {
        None
    } else if cs.contains(s[i]) {
        Some(i)
    } else {
        find_in_from(s, cs, i + 1)
    }
}

/// The position of the first occurrence of `c` in `s`, if any.
pub open spec fn find_char(s: Seq<char>, c: char) -> Option<int> {
    find_in_from(s, set![c], 0)
}

/// The position of the first character of `s` that ends a port field,
/// a '/' or a '?', if any.
pub open spec fn find_port_end(s: Seq<char>) -> Option<int> {
    find_in_from(s, set!['/', '?'], 0)
}

/// `find_in_from` returns the least matching position at or after `i`.
pub proof fn lemma_find_in_from(s: Seq<char>, cs: Set<char>, i: int)
    requires
        0 <= i,
    ensures
        match find_in_from(s, cs, i) {
            Some(j) => i <= j < s.len() && cs.contains(s[j]) && (forall|k: int|
                i <= k < j ==> !cs.contains(#[trigger] s[k])),
            None => forall|k: int| i <= k < s.len() ==> !cs.contains(#[trigger] s[k]),
        },
    decreases s.len() - i,
{
    if i < s.len() && !cs.contains(s[i]) {
        lemma_find_in_from(s, cs, i + 1);
    }
}

/// If `s[j]` lies in `cs` and no earlier character does, the first matching
/// position is `j`.
pub proof fn lemma_find_in_exact(s: Seq<char>, cs: Set<char>, j: int)
    requires
        0 <= j < s.len(),
        cs.contains(s[j]),
        forall|k: int| 0 <= k < j ==> !cs.contains(#[trigger] s[k]),
    ensures
        find_in_from(s, cs, 0) == Some(j),
{
    lemma_find_in_from(s, cs, 0);
    match find_in_from(s, cs, 0) {
        Some(j2) => {
            if j2 < j {
                assert(!cs.contains(s[j2]));
            } else if j < j2 {
                assert(!cs.contains(s[j]));
            }
        },
        None => {
            assert(!cs.contains(s[j]));
        },
    }
}

/// If no character of `s` lies in `cs`, there is no first matching position.
pub proof fn lemma_find_in_none(s: Seq<char>, cs: Set<char>)
    requires
        forall|k: int| 0 <= k < s.len() ==> !cs.contains(#[trigger] s[k]),
    ensures
        find_in_from(s, cs, 0) is None,
{
    lemma_find_in_from(s, cs, 0);
    if find_in_from(s, cs, 0) is Some {
        let j = find_in_from(s, cs, 0)->Some_0;
        assert(!cs.contains(s[j]));
    }
}

/// The scheme the parser accepts.
pub open spec fn http_scheme() -> Seq<char> {
    "http"@
}

/// The scheme of `s`: what precedes the first "://", or empty when there is
/// no separator.
pub open spec fn scheme_of(s: Seq<char>) -> Seq<char> {
    match find_sep(s) {
        Some(i) => s.subrange(0, i),
        None => Seq::empty(),
    }
}

/// What follows the first "://" of `s`: the authority together with any path
/// and query, or empty when there is no separator.
pub open spec fn rest_of(s: Seq<char>) -> Seq<char> {
    match find_sep(s) {
        Some(i) => s.subrange(i + 3, s.len() as int),
        None => Seq::empty(),
    }
}

/// The host of `s`: the prefix of the rest up to the first ':' when one
/// occurs, else up to the first '/' when one occurs, else the whole rest.
pub open spec fn host_of(s: Seq<char>) -> Seq<char> {
    if !has_sep(s) {
        Seq::empty()
    } else {
        let r = rest_of(s);
        match find_char(r, ':') {
            Some(j) => r.subrange(0, j),
            None => match find_char(r, '/') {
                Some(j) => r.subrange(0, j),
                None => r,
            },
        }
    }
}

/// `c` is a decimal digit.
pub open spec fn is_digit(c: char) -> bool {
    48 <= c as int && c as int <= 57
}

/// The value of the decimal digit `c`.
pub open spec fn digit_val(c: char) -> int {
    c as int - 48
}

/// Every character of `t` is a decimal digit.
pub open spec fn all_digits(t: Seq<char>) -> bool {
    forall|k: int| 0 <= k < t.len() ==> is_digit(#[trigger] t[k])
}

/// The number denoted by the digit string `t`, read in base ten.
pub open spec fn dec_val(t: Seq<char>) -> int
    decreases t.len(),
{
    if t.len() == 0 {
        0
    } else {
        dec_val(t.drop_last()) * 10 + digit_val(t.last())
    }
}

/// What parsing `t` as an unsigned 16-bit port number yields: its decimal
/// value when `t` is a non-empty string of digits denoting at most 65535,
/// and nothing otherwise.
pub open spec fn port_from_digits(t: Seq<char>) -> Option<u16> {
    if t.len() > 0 && all_digits(t) && dec_val(t) <= 65535 {
        Some(dec_val(t) as u16)
    } else {
        None
    }
}

/// The digit string naming the port of `s`: what follows the first ':' of
/// the rest, up to the first '/' or '?' after it; nothing when the rest has
/// no ':'.
pub open spec fn port_text_of(s: Seq<char>) -> Option<Seq<char>> {
    if !has_sep(s) {
        None
    } else {
        let r = rest_of(s);
        match find_char(r, ':') {
            Some(j) => {
                let after = r.subrange(j + 1, r.len() as int);
                match find_port_end(after) {
                    Some(k) => Some(after.subrange(0, k)),
                    None => Some(after),
                }
            },
            None => None,
        }
    }
}

/// The port of `s`: the value of its port text when that parses as a 16-bit
/// number, and 80 otherwise.
pub open spec fn port_of(s: Seq<char>) -> u16 {
    match port_text_of(s) {
        Some(t) => match port_from_digits(t) {
            Some(p) => p,
            None => 80,
        },
        None => 80,
    }
}

/// The path of `s`: the rest from its first '/' on, cut at the first '?'
/// that follows that '/'; "/" when the rest has no '/'.
pub open spec fn path_of(s: Seq<char>) -> Seq<char> {
    if !has_sep(s) {
        seq!['/']
    } else {
        let r = rest_of(s);
        match find_char(r, '/') {
            Some(j) => {
                let pq = r.subrange(j, r.len() as int);
                match find_char(pq, '?') {
                    Some(k) => pq.subrange(0, k),
                    None => pq,
                }
            },
            None => seq!['/'],
        }
    }
}

/// The query of `s`: what follows the first '?' of the rest, possibly empty;
/// nothing when the rest has no '?'.
pub open spec fn query_of(s: Seq<char>) -> Option<Seq<char>> {
    if !has_sep(s) {
        None
    } else {
        let r = rest_of(s);
        match find_char(r, '?') {
            Some(k) => Some(r.subrange(k + 1, r.len() as int)),
            None => None,
        }
    }
}

/// The message reported for a rejected scheme.
pub open spec fn scheme_error_message(found: Seq<char>) -> Seq<char> {
    "Unsupported scheme: "@ + found + ". Only 'http' is allowed."@
}

/// A digit string denotes a number of at least zero.
pub proof fn lemma_dec_val_nonneg(t: Seq<char>)
    requires
        all_digits(t),
    ensures
        dec_val(t) >= 0,
    decreases t.len(),
{
    if t.len() > 0 {
        assert(all_digits(t.drop_last())) by {
            assert forall|k: int| 0 <= k < t.drop_last().len() implies is_digit(
                #[trigger] t.drop_last()[k],
            ) by {
                assert(t.drop_last()[k] == t[k]);
            }
        }
        lemma_dec_val_nonneg(t.drop_last());
        assert(is_digit(t.last()));
    }
}

/// Extending a digit string on the right by one digit multiplies its value
/// by ten and adds that digit.
pub proof fn lemma_dec_val_step(t: Seq<char>, i: int)
    requires
        0 <= i < t.len(),
    ensures
        dec_val(t.subrange(0, i + 1)) == dec_val(t.subrange(0, i)) * 10 + digit_val(t[i]),
{
    let p = t.subrange(0, i + 1);
    assert(p.drop_last() =~= t.subrange(0, i));
    assert(p.last() == t[i]);
}

/// A digit string denotes at least as much as any of its prefixes.
pub proof fn lemma_dec_val_prefix(t: Seq<char>, m: int)
    requires
        all_digits(t),
        0 <= m <= t.len(),
    ensures
        dec_val(t) >= dec_val(t.subrange(0, m)),
    decreases t.len() - m,
{
    if m == t.len() {
        assert(t.subrange(0, m) =~= t);
    } else {
        let p = t.subrange(0, m);
        assert(all_digits(p)) by {
            assert forall|k: int| 0 <= k < p.len() implies is_digit(#[trigger] p[k]) by {
                assert(p[k] == t[k]);
            }
        }
        lemma_dec_val_nonneg(p);
        lemma_dec_val_step(t, m);
        assert(is_digit(t[m]));
        lemma_dec_val_prefix(t, m + 1);
    }
}

} // verus!
