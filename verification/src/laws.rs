//! General properties of the parser's model, stated and proved once for all
//! inputs: rejection of separator-less inputs, the default port and path,
//! when a query is present, and the round trip through the canonical
//! reconstruction of a parsed URL.

use vstd::prelude::*;

use crate::model::all_digits;
use crate::model::dec_val;
use crate::model::digit_val;
use crate::model::find_char;
use crate::model::has_sep;
use crate::model::host_of;
use crate::model::http_scheme;
use crate::model::is_digit;
use crate::model::lemma_find_in_exact;
use crate::model::lemma_find_in_from;
use crate::model::lemma_find_in_none;
use crate::model::lemma_find_sep_exact;
use crate::model::lemma_find_sep_none;
use crate::model::path_of;
use crate::model::port_from_digits;
use crate::model::port_of;
use crate::model::port_text_of;
use crate::model::query_of;
use crate::model::rest_of;
use crate::model::scheme_of;
use crate::model::sep_at;

verus! {

/// An input in which "://" occurs nowhere has the empty scheme, and the
/// empty scheme is not "http", so parsing such an input must fail.
pub proof fn lemma_missing_separator_rejected(s: Seq<char>)
    requires
        forall|i: int| !sep_at(s, i),
    ensures
        !has_sep(s),
        scheme_of(s) == Seq::<char>::empty(),
        scheme_of(s) != http_scheme(),
{
    lemma_find_sep_none(s);
    reveal_strlit("http");
    assert(scheme_of(s).len() != http_scheme().len());
}

/// A URL whose authority part has no ':' carries no explicit port, so it
/// gets the default port 80.
pub proof fn lemma_default_port(s: Seq<char>)
    requires
        has_sep(s),
        forall|k: int| 0 <= k < rest_of(s).len() ==> #[trigger] rest_of(s)[k] != ':',
    ensures
        port_of(s) == 80,
{
    lemma_find_in_none(rest_of(s), set![':']);
}

/// A URL in whose rest no '/' occurs has no path segment, so it gets the
/// default path "/".
pub proof fn lemma_default_path(s: Seq<char>)
    requires
        has_sep(s),
        forall|k: int| 0 <= k < rest_of(s).len() ==> #[trigger] rest_of(s)[k] != '/',
    ensures
        path_of(s) == seq!['/'],
{
    lemma_find_in_none(rest_of(s), set!['/']);
}

/// A parsed URL carries a query exactly when a '?' occurs after the
/// separator; a trailing '?' thus yields a present, empty query, while a
/// URL without '?' yields none.
pub proof fn lemma_query_presence(s: Seq<char>)
    requires
        has_sep(s),
    ensures
        query_of(s) is Some <==> exists|k: int|
            0 <= k < rest_of(s).len() && #[trigger] rest_of(s)[k] == '?',
{
    let r = rest_of(s);
    lemma_find_in_from(r, set!['?'], 0);
    match find_char(r, '?') {
        Some(j) => {
            assert(r[j] == '?');
        },
        None => {
            assert forall|k: int| 0 <= k < r.len() implies #[trigger] r[k] != '?' by {
                assert(!set!['?'].contains(r[k]));
            }
        },
    }
}

/// A parsed path always begins with '/' and never holds a '?': either it is
/// the default "/", or it starts at the first '/' of the rest and is cut
/// before the first '?' that follows.
pub proof fn lemma_path_shape(s: Seq<char>)
    requires
        has_sep(s),
    ensures
        path_of(s).len() > 0,
        path_of(s)[0] == '/',
        forall|k: int| 0 <= k < path_of(s).len() ==> #[trigger] path_of(s)[k] != '?',
{
    let r = rest_of(s);
    lemma_find_in_from(r, set!['/'], 0);
    match find_char(r, '/') {
        Some(j) => {
            let pq = r.subrange(j, r.len() as int);
            assert(pq[0] == r[j]);
            assert(set!['/'].contains(r[j]));
            lemma_find_in_from(pq, set!['?'], 0);
            match find_char(pq, '?') {
                Some(k) => {
                    assert(set!['?'].contains(pq[k]));
                    assert(k != 0);
                    let p = pq.subrange(0, k);
                    assert(path_of(s) == p);
                    assert forall|m: int| 0 <= m < p.len() implies #[trigger] p[m] != '?' by {
                        assert(p[m] == pq[m]);
                        assert(!set!['?'].contains(pq[m]));
                    }
                },
                None => {
                    assert(path_of(s) == pq);
                    assert forall|m: int| 0 <= m < pq.len() implies #[trigger] pq[m] != '?' by {
                        assert(!set!['?'].contains(pq[m]));
                    }
                },
            }
        },
        None => {
            assert(path_of(s) == seq!['/']);
        },
    }
}

/// A parsed host never holds a ':': either it ends before the first ':' of
/// the rest, or the rest holds none at all.
pub proof fn lemma_host_no_colon(s: Seq<char>)
    requires
        has_sep(s),
    ensures
        forall|k: int| 0 <= k < host_of(s).len() ==> #[trigger] host_of(s)[k] != ':',
{
    let r = rest_of(s);
    let h = host_of(s);
    lemma_find_in_from(r, set![':'], 0);
    match find_char(r, ':') {
        Some(j) => {
            assert forall|k: int| 0 <= k < h.len() implies #[trigger] h[k] != ':' by {
                assert(h[k] == r[k]);
                assert(!set![':'].contains(r[k]));
            }
        },
        None => {
            lemma_find_in_from(r, set!['/'], 0);
            assert forall|k: int| 0 <= k < h.len() implies #[trigger] h[k] != ':' by {
                assert(h[k] == r[k]);
                assert(!set![':'].contains(r[k]));
            }
        },
    }
}

/// The digit character denoting `d`, for `d` between 0 and 9.
pub open spec fn digit_char(d: int) -> char {
    if d == 0 {
        '0'
    } else if d == 1 {
        '1'
    } else if d == 2 {
        '2'
    } else if d == 3 {
        '3'
    } else if d == 4 {
        '4'
    } else if d == 5 {
        '5'
    } else if d == 6 {
        '6'
    } else if d == 7 {
        '7'
    } else if d == 8 {
        '8'
    } else {
        '9'
    }
}

/// The decimal rendering of `n`: the digit string that writing `n` in base
/// ten produces.
pub open spec fn dec_digits(n: int) -> Seq<char>
    decreases n,
{
    if n < 10 {
        seq![digit_char(n)]
    } else {
        dec_digits(n / 10).push(digit_char(n % 10))
    }
}

/// The decimal rendering of `n` is a non-empty digit string denoting `n`.
pub proof fn lemma_dec_digits(n: int)
    requires
        0 <= n,
    ensures
        dec_digits(n).len() >= 1,
        all_digits(dec_digits(n)),
        dec_val(dec_digits(n)) == n,
    decreases n,
{
    if n < 10 {
        let t = dec_digits(n);
        assert(t.drop_last() =~= Seq::<char>::empty());
        assert(is_digit(digit_char(n)));
        assert(digit_val(digit_char(n)) == n);
        assert(dec_val(t) == dec_val(t.drop_last()) * 10 + digit_val(t.last()));
    } else {
        lemma_dec_digits(n / 10);
        vstd::arithmetic::div_mod::lemma_fundamental_div_mod(n, 10);
        let x = dec_digits(n / 10);
        let d = n % 10;
        let t = dec_digits(n);
        assert(t == x.push(digit_char(d)));
        assert(t.drop_last() =~= x);
        assert(0 <= d < 10);
        assert(is_digit(digit_char(d)));
        assert(digit_val(digit_char(d)) == d);
        assert(dec_val(t) == dec_val(x) * 10 + d);
        assert(all_digits(t)) by {
            assert forall|k: int| 0 <= k < t.len() implies is_digit(#[trigger] t[k]) by {
                if k < x.len() {
                    assert(t[k] == x[k]);
                } else {
                    assert(t[k] == digit_char(d));
                }
            }
        }
    }
}

/// What a present query contributes to a reconstructed URL: its text behind
/// a '?', and nothing when the query is absent.
pub open spec fn query_suffix(query: Option<Seq<char>>) -> Seq<char> {
    match query {
        Some(q) => seq!['?'] + q,
        None => Seq::empty(),
    }
}

/// The canonical reconstruction "http://{host}:{port}{path}" of parsed
/// components, with "?{query}" appended when a query is present.
pub open spec fn canonical_of(
    host: Seq<char>,
    port: u16,
    path: Seq<char>,
    query: Option<Seq<char>>,
) -> Seq<char> {
    seq!['h', 't', 't', 'p', ':', '/', '/'] + host + seq![':'] + dec_digits(port as int) + path
        + query_suffix(query)
}

/// Re-parsing the canonical reconstruction of parsed components yields those
/// components again, whenever the host holds none of the delimiters ':',
/// '/' and '?' and the path begins with '/' and holds no '?'. (A host or
/// path that embeds a delimiter shifts where the reconstruction is cut:
/// parsing "http://a/b:c" gives host "a/b", whose reconstruction no longer
/// re-parses to it.)
pub proof fn lemma_reparse_canonical(
    host: Seq<char>,
    port: u16,
    path: Seq<char>,
    query: Option<Seq<char>>,
)
    requires
        forall|k: int|
            0 <= k < host.len() ==> #[trigger] host[k] != ':' && host[k] != '/' && host[k] != '?',
        path.len() > 0,
        path[0] == '/',
        forall|k: int| 0 <= k < path.len() ==> #[trigger] path[k] != '?',
    ensures
        has_sep(canonical_of(host, port, path, query)),
        scheme_of(canonical_of(host, port, path, query)) == http_scheme(),
        host_of(canonical_of(host, port, path, query)) == host,
        port_of(canonical_of(host, port, path, query)) == port,
        path_of(canonical_of(host, port, path, query)) == path,
        query_of(canonical_of(host, port, path, query)) == query,
{
    let pre = seq!['h', 't', 't', 'p', ':', '/', '/'];
    let digits = dec_digits(port as int);
    let qs = query_suffix(query);
    let c = canonical_of(host, port, path, query);
    let hl = host.len() as int;
    let dl = digits.len() as int;
    let pl = path.len() as int;

    lemma_dec_digits(port as int);
    assert(forall|k: int| 0 <= k < dl ==> is_digit(#[trigger] digits[k]));

    // The separator written by the reconstruction is the first one.
    assert(c[4] == ':' && c[5] == '/' && c[6] == '/');
    assert(sep_at(c, 4));
    assert forall|k: int| 0 <= k < 4 implies !sep_at(c, k) by {
        assert(c[k] == pre[k]);
    }
    lemma_find_sep_exact(c, 4);
    reveal_strlit("http");
    assert(scheme_of(c) =~= http_scheme());

    let r = rest_of(c);
    assert(r =~= host + seq![':'] + digits + path + qs);
    let sl = hl + 1 + dl;

    // The ':' written after the host is the first ':' of the rest.
    assert(r[hl] == ':');
    assert forall|k: int| 0 <= k < hl implies !set![':'].contains(r[k]) by {
        assert(r[k] == host[k]);
    }
    lemma_find_in_exact(r, set![':'], hl);
    assert(host_of(c) =~= host);

    // The '/' starting the path ends the port text, which is the rendering
    // of the port and so parses back to it.
    let after = r.subrange(hl + 1, r.len() as int);
    assert(after =~= digits + path + qs);
    assert(after[dl] == path[0]);
    assert forall|k: int| 0 <= k < dl implies !set!['/', '?'].contains(after[k]) by {
        assert(after[k] == digits[k]);
        assert(is_digit(digits[k]));
    }
    lemma_find_in_exact(after, set!['/', '?'], dl);
    assert(after.subrange(0, dl) =~= digits);
    assert(port_from_digits(digits) == Some(port));
    assert(port_of(c) == port);

    // The '/' starting the path is the first '/' of the rest.
    assert(r[sl] == path[0]);
    assert forall|k: int| 0 <= k < sl implies !set!['/'].contains(r[k]) by {
        if k < hl {
            assert(r[k] == host[k]);
        } else if k == hl {
            assert(r[k] == ':');
        } else {
            assert(r[k] == digits[k - hl - 1]);
            assert(is_digit(digits[k - hl - 1]));
        }
    }
    lemma_find_in_exact(r, set!['/'], sl);
    let pq = r.subrange(sl, r.len() as int);
    assert(pq =~= path + qs);

    match query {
        Some(q) => {
            // The '?' written before the query cuts the path and starts the
            // query.
            assert(pq[pl] == '?');
            assert forall|k: int| 0 <= k < pl implies !set!['?'].contains(pq[k]) by {
                assert(pq[k] == path[k]);
            }
            lemma_find_in_exact(pq, set!['?'], pl);
            assert(pq.subrange(0, pl) =~= path);
            assert(path_of(c) == path);
            let ql = sl + pl;
            assert(r[ql] == '?');
            assert forall|k: int| 0 <= k < ql implies !set!['?'].contains(r[k]) by {
                if k < hl {
                    assert(r[k] == host[k]);
                } else if k == hl {
                    assert(r[k] == ':');
                } else if k < sl {
                    assert(r[k] == digits[k - hl - 1]);
                    assert(is_digit(digits[k - hl - 1]));
                } else {
                    assert(r[k] == path[k - sl]);
                }
            }
            lemma_find_in_exact(r, set!['?'], ql);
            assert(r.subrange(ql + 1, r.len() as int) =~= q);
            assert(query_of(c) == Some(q));
        },
        None => {
            // No '?' occurs anywhere, so the path runs to the end and no
            // query is present.
            assert(qs.len() == 0);
            assert forall|k: int| 0 <= k < pq.len() implies !set!['?'].contains(pq[k]) by {
                assert(pq[k] == path[k]);
            }
            lemma_find_in_none(pq, set!['?']);
            assert(pq =~= path);
            assert(path_of(c) == path);
            assert forall|k: int| 0 <= k < r.len() implies !set!['?'].contains(r[k]) by {
                if k < hl {
                    assert(r[k] == host[k]);
                } else if k == hl {
                    assert(r[k] == ':');
                } else if k < sl {
                    assert(r[k] == digits[k - hl - 1]);
                    assert(is_digit(digits[k - hl - 1]));
                } else {
                    assert(r[k] == path[k - sl]);
                }
            }
            lemma_find_in_none(r, set!['?']);
            assert(query_of(c) is None);
        },
    }
}

/// Host extraction is idempotent over parse results: when a parse yields a
/// host free of '/' and '?', re-parsing the canonical reconstruction of
/// what it yielded gives back the same host, port, path and query. A parsed
/// host is free of ':' by construction, and a parsed path always starts
/// with '/' and holds no '?', so no more is needed. (The two conditions
/// exclude inputs such as "http://a/b:c", whose parsed host "a/b" embeds a
/// '/'.)
pub proof fn lemma_reparse_of_parse(s: Seq<char>)
    requires
        has_sep(s),
        forall|k: int|
            0 <= k < host_of(s).len() ==> #[trigger] host_of(s)[k] != '/' && host_of(s)[k] != '?',
    ensures
        host_of(canonical_of(host_of(s), port_of(s), path_of(s), query_of(s))) == host_of(s),
        port_of(canonical_of(host_of(s), port_of(s), path_of(s), query_of(s))) == port_of(s),
        path_of(canonical_of(host_of(s), port_of(s), path_of(s), query_of(s))) == path_of(s),
        query_of(canonical_of(host_of(s), port_of(s), path_of(s), query_of(s))) == query_of(s),
{
    lemma_host_no_colon(s);
    lemma_path_shape(s);
    lemma_reparse_canonical(host_of(s), port_of(s), path_of(s), query_of(s));
}

} // verus!
