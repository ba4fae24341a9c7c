//! The URL parser: a validating constructor that decomposes a raw string
//! into scheme, host, port, path and query, and accessors for the parts.

use vstd::prelude::*;
use vstd::string::StrSliceExecFns;
use vstd::string::StringExecFns;

use crate::model::all_digits;
use crate::model::dec_val;
use crate::model::digit_val;
use crate::model::find_char;
use crate::model::find_port_end;
use crate::model::find_sep;
use crate::model::host_of;
use crate::model::http_scheme;
use crate::model::is_digit;
use crate::model::lemma_dec_val_prefix;
use crate::model::lemma_dec_val_step;
use crate::model::lemma_find_in_exact;
use crate::model::lemma_find_in_none;
use crate::model::lemma_find_sep_exact;
use crate::model::lemma_find_sep_none;
use crate::model::path_of;
use crate::model::port_from_digits;
use crate::model::port_of;
use crate::model::query_of;
use crate::model::rest_of;
use crate::model::scheme_error_message;
use crate::model::scheme_of;
use crate::model::sep_at;

verus! {

/// The position of the first "://" in `s`, if any.
fn find_sep_index(s: &str) -> (r: Option<usize>)
    ensures
        match r {
            Some(i) => find_sep(s@) == Some(i as int) && i + 3 <= s@.len(),
            None => find_sep(s@) is None,
        },
{
    let n = s.unicode_len();
    if n < 3 {
        proof {
            assert forall|k: int| 0 <= k implies !sep_at(s@, k) by {
                assert(k + 3 > s@.len());
            }
            lemma_find_sep_none(s@);
        }
        return None;
    }
    let mut i: usize = 0;
    while i <= n - 3
        invariant
            n == s@.len(),
            3 <= n,
            i <= n - 2,
            forall|k: int| 0 <= k < i ==> !sep_at(s@, k),
        decreases n - i,
    {
        if s.get_char(i) == ':' && s.get_char(i + 1) == '/' && s.get_char(i + 2) == '/' {
            proof {
                lemma_find_sep_exact(s@, i as int);
            }
            return Some(i);
        }
        i += 1;
    }
    proof {
        assert forall|k: int| 0 <= k implies !sep_at(s@, k) by {
            if k >= i {
                assert(k + 3 > s@.len());
            }
        }
        lemma_find_sep_none(s@);
    }
    None
}

/// The position of the first occurrence of `c` in `s`, if any.
fn find_char_index(s: &str, c: char) -> (r: Option<usize>)
    ensures
        match r {
            Some(i) => find_char(s@, c) == Some(i as int) && i < s@.len(),
            None => find_char(s@, c) is None,
        },
{
    let n = s.unicode_len();
    let mut i: usize = 0;
    while i < n
        invariant
            n == s@.len(),
            i <= n,
            forall|k: int| 0 <= k < i ==> #[trigger] s@[k] != c,
        decreases n - i,
    {
        if s.get_char(i) == c {
            proof {
                lemma_find_in_exact(s@, set![c], i as int);
            }
            return Some(i);
        }
        i += 1;
    }
    proof {
        lemma_find_in_none(s@, set![c]);
    }
    None
}

/// The position of the first '/' or '?' in `s`, if any.
fn find_port_end_index(s: &str) -> (r: Option<usize>)
    ensures
        match r {
            Some(i) => find_port_end(s@) == Some(i as int) && i < s@.len(),
            None => find_port_end(s@) is None,
        },
{
    let n = s.unicode_len();
    let mut i: usize = 0;
    while i < n
        invariant
            n == s@.len(),
            i <= n,
            forall|k: int| 0 <= k < i ==> #[trigger] s@[k] != '/' && s@[k] != '?',
        decreases n - i,
    {
        let c = s.get_char(i);
        if c == '/' || c == '?' {
            proof {
                lemma_find_in_exact(s@, set!['/', '?'], i as int);
            }
            return Some(i);
        }
        i += 1;
    }
    proof {
        lemma_find_in_none(s@, set!['/', '?']);
    }
    None
}

/// Whether `s` reads exactly "http".
fn str_is_http(s: &str) -> (r: bool)
    ensures
        r == (s@ == http_scheme()),
{
    proof {
        reveal_strlit("http");
    }
    let n = s.unicode_len();
    if n != 4 {
        return false;
    }
    let r = s.get_char(0) == 'h' && s.get_char(1) == 't' && s.get_char(2) == 't' && s.get_char(3)
        == 'p';
    proof {
        if r {
            assert(s@ =~= http_scheme());
        }
    }
    r
}

/// The message reporting that `found` is not an accepted scheme.
fn scheme_error(found: &str) -> (r: String)
    ensures
        r@ == scheme_error_message(found@),
{
    let mut m = String::from_str("Unsupported scheme: ");
    m.append(found);
    m.append(". Only 'http' is allowed.");
    proof {
        assert(m@ =~= scheme_error_message(found@));
    }
    m
}

/// The port number that the digit string `s` denotes, if `s` is a non-empty
/// string of decimal digits whose value fits in sixteen bits.
fn parse_port_str(s: &str) -> (r: Option<u16>)
    ensures
        r == port_from_digits(s@),
{
    let n = s.unicode_len();
    if n == 0 {
        return None;
    }
    let mut val: u32 = 0;
    let mut i: usize = 0;
    proof {
        assert(s@.subrange(0, 0) =~= Seq::<char>::empty());
    }
    while i < n
        invariant
            n == s@.len(),
            i <= n,
            forall|k: int| 0 <= k < i ==> is_digit(#[trigger] s@[k]),
            val == dec_val(s@.subrange(0, i as int)),
            val <= 65535,
        decreases n - i,
    {
        let c = s.get_char(i);
        let u = c as u32;
        if u < 48 || u > 57 {
            proof {
                assert(!is_digit(s@[i as int]));
                assert(!all_digits(s@));
            }
            return None;
        }
        let d = u - 48;
        let next = val * 10 + d;
        proof {
            lemma_dec_val_step(s@, i as int);
            assert(digit_val(s@[i as int]) == d);
            assert(dec_val(s@.subrange(0, i as int + 1)) == next);
        }
        if next > 65535 {
            proof {
                if all_digits(s@) {
                    lemma_dec_val_prefix(s@, i as int + 1);
                }
                assert(port_from_digits(s@) is None);
            }
            return None;
        }
        val = next;
        i += 1;
    }
    proof {
        assert(s@.subrange(0, n as int) =~= s@);
        assert(all_digits(s@));
        assert(port_from_digits(s@) == Some(val as u16));
    }
    Some(val as u16)
}

/// A parsed URL, in the model: each field as a sequence of characters,
/// beside the raw input it came from.
pub struct UrlModel {
    pub raw: Seq<char>,
    pub scheme: Seq<char>,
    pub host: Seq<char>,
    pub port: u16,
    pub path: Seq<char>,
    pub query: Option<Seq<char>>,
}

impl UrlModel {
    /// Every field is what the model says the raw input decomposes into,
    /// and the scheme is the one accepted scheme.
    pub open spec fn wf(self) -> bool {
        &&& self.scheme == scheme_of(self.raw)
        &&& self.scheme == http_scheme()
        &&& self.host == host_of(self.raw)
        &&& self.port == port_of(self.raw)
        &&& self.path == path_of(self.raw)
        &&& self.query == query_of(self.raw)
    }
}

/// An HTTP URL, decomposed into its parts. A value exists only for inputs
/// whose scheme is exactly "http"; every other irregularity degrades to a
/// default instead of failing.
#[derive(Debug, Clone, PartialEq)]
pub struct Url {
    url: String,
    scheme: String,
    host: String,
    port: u16,
    path: String,
    query: Option<String>,
}

impl View for Url {
    type V = UrlModel;

    closed spec fn view(&self) -> UrlModel {
        UrlModel {
            raw: self.url@,
            scheme: self.scheme@,
            host: self.host@,
            port: self.port,
            path: self.path@,
            query: match self.query {
                Some(q) => Some(q@),
                None => None,
            },
        }
    }
}

impl Url {
    /// Parses `url`. Succeeds exactly when the scheme before the first "://"
    /// is "http", and then returns the decomposition that the model
    /// functions describe; fails with a message naming the scheme it found.
    pub fn new(url: String) -> (r: Result<Self, String>)
        ensures
            r is Ok <==> scheme_of(url@) == http_scheme(),
            r matches Ok(u) ==> u@.wf() && u@.raw == url@,
            r matches Err(e) ==> e@ == scheme_error_message(scheme_of(url@)),
    {
        let i = match find_sep_index(url.as_str()) {
            None => {
                proof {
                    reveal_strlit("http");
                    reveal_strlit("");
                    assert(""@ =~= scheme_of(url@));
                }
                return Err(scheme_error(""));
            },
            Some(i) => i,
        };
        let n = url.as_str().unicode_len();
        let scheme = url.as_str().substring_char(0, i).to_owned();
        if !str_is_http(scheme.as_str()) {
            return Err(scheme_error(scheme.as_str()));
        }
        let rest = url.as_str().substring_char(i + 3, n).to_owned();
        proof {
            assert(rest@ == rest_of(url@));
        }
        let rn = rest.as_str().unicode_len();
        let colon = find_char_index(rest.as_str(), ':');
        let host: String = match colon {
            Some(j) => rest.as_str().substring_char(0, j).to_owned(),
            None => match find_char_index(rest.as_str(), '/') {
                Some(j) => rest.as_str().substring_char(0, j).to_owned(),
                None => rest.as_str().to_owned(),
            },
        };
        let port: u16 = match colon {
            Some(j) => {
                let after = rest.as_str().substring_char(j + 1, rn);
                let ptext = match find_port_end_index(after) {
                    Some(k) => after.substring_char(0, k),
                    None => after,
                };
                match parse_port_str(ptext) {
                    Some(p) => p,
                    None => 80,
                }
            },
            None => 80,
        };
        let path: String = match find_char_index(rest.as_str(), '/') {
            Some(j) => {
                let pq = rest.as_str().substring_char(j, rn);
                match find_char_index(pq, '?') {
                    Some(k) => pq.substring_char(0, k).to_owned(),
                    None => pq.to_owned(),
                }
            },
            None => {
                proof {
                    reveal_strlit("/");
                    assert("/"@ =~= path_of(url@));
                }
                String::from_str("/")
            },
        };
        let query: Option<String> = match find_char_index(rest.as_str(), '?') {
            Some(k) => Some(rest.as_str().substring_char(k + 1, rn).to_owned()),
            None => None,
        };
        let u = Url { url, scheme, host, port, path, query };
        proof {
            assert(u@.wf());
        }
        Ok(u)
    }

    /// The scheme; always "http" on a value this library built.
    pub fn scheme(&self) -> (r: String)
        ensures
            r@ == self@.scheme,
    {
        self.scheme.clone()
    }

    /// The host, possibly empty.
    pub fn host(&self) -> (r: String)
        ensures
            r@ == self@.host,
    {
        self.host.clone()
    }

    /// The port; 80 unless the input named another one.
    pub fn port(&self) -> (r: u16)
        ensures
            r == self@.port,
    {
        self.port
    }

    /// The path; "/" unless the input named another one.
    pub fn path(&self) -> (r: String)
        ensures
            r@ == self@.path,
    {
        self.path.clone()
    }

    /// The query, without its leading '?'; present exactly when the input
    /// held a '?' after the separator, and then possibly empty.
    pub fn query(&self) -> (r: Option<String>)
        ensures
            match r {
                Some(q) => self@.query == Some(q@),
                None => self@.query is None,
            },
    {
        match &self.query {
            Some(q) => Some(q.clone()),
            None => None,
        }
    }
}

} // verus!
