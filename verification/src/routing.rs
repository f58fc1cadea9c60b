//! Route descriptors and the request-time dispatch logic: duplicate-route
//! rejection, matching a path pattern against a request path, extraction of
//! named placeholder segments, and decoding of numeric parameters.

use crate::errors::{DispatchError, StartupError};
use vstd::prelude::*;

verus! {

/// The HTTP methods a route can be registered under.
#[derive(Clone, Copy, PartialEq, Eq, Structural, Debug)]
pub enum Method {
    /// An HTTP GET route.
    GET,
    /// An HTTP POST route.
    POST,
    /// An HTTP PUT route.
    PUT,
    /// An HTTP DELETE route.
    DELETE,
}

/// Describes one HTTP endpoint: the literal path pattern (possibly holding
/// named placeholders such as `/user/{id}`), the method, and the identity of
/// the component whose instance handles it (`None` for a free handler).
pub struct Route {
    /// The path pattern the transport matches requests against.
    pub path: String,
    /// The HTTP method of the endpoint.
    pub method: Method,
    /// The identity of the owning component, if the handler needs one.
    pub owner: Option<u64>,
}

/// No two routes share both their method and their path pattern.
pub open spec fn routes_conflict_free(rs: Seq<Route>) -> bool {
    forall|i: int, j: int|
        0 <= i < j < rs.len() ==> !((#[trigger] rs[i]).method == (#[trigger] rs[j]).method
            && rs[i].path@ == rs[j].path@)
}

/// Rejects duplicate `(method, path)` registrations: succeeds exactly when
/// every such pair is unique, and otherwise names a path that is registered
/// twice under one method.
pub fn check_routes(routes: &Vec<Route>) -> (r: Result<(), StartupError>)
    ensures
        r is Ok <==> routes_conflict_free(routes@),
        match r {
            Ok(_) => routes_conflict_free(routes@),
            Err(e) => match e {
                StartupError::RouteConflict { path } => exists|i: int, j: int|
                    0 <= i < j < routes@.len() && (#[trigger] routes@[i]).method == (
                    #[trigger] routes@[j]).method && routes@[i].path@ == routes@[j].path@ && path@
                        == routes@[i].path@,
                _ => false,
            },
        },
{
    let n = routes.len();
    let mut i: usize = 0;
    while i < n
        invariant
            n == routes@.len(),
            i <= n,
            forall|a: int, b: int|
                0 <= a < b < n && a < i ==> !((#[trigger] routes@[a]).method == (
                #[trigger] routes@[b]).method && routes@[a].path@ == routes@[b].path@),
        decreases n - i,
    {
        let mut j: usize = i + 1;
        while j < n
            invariant
                n == routes@.len(),
                i < n,
                i + 1 <= j <= n,
                forall|b: int|
                    i < b < j ==> !(routes@[i as int].method == (#[trigger] routes@[b]).method
                        && routes@[i as int].path@ == routes@[b].path@),
            decreases n - j,
        {
            if methods_equal(routes[i].method, routes[j].method) && routes[i].path
                == routes[j].path {
                return Err(StartupError::RouteConflict { path: routes[i].path.clone() });
            }
            j = j + 1;
        }
        i = i + 1;
    }
    Ok(())
}

/// Compares two methods.
fn methods_equal(a: Method, b: Method) -> (r: bool)
    ensures
        r == (a == b),
{
    a == b
}

/// The index of the first `/` in `s`, or `s.len()` when there is none.
pub open spec fn first_slash(s: Seq<char>) -> int
    decreases s.len(),
{
    if s.len() == 0 {
        0
    } else if s[0] == '/' {
        0
    } else {
        1 + first_slash(s.subrange(1, s.len() as int))
    }
}

/// `first_slash` points at the first `/`: it is in bounds, everything before
/// it is not a `/`, and it lands on a `/` unless there is none.
pub proof fn lemma_first_slash(s: Seq<char>)
    ensures
        0 <= first_slash(s) <= s.len(),
        first_slash(s) < s.len() ==> s[first_slash(s)] == '/',
        forall|j: int| 0 <= j < first_slash(s) ==> s[j] != '/',
    decreases s.len(),
{
    if s.len() == 0 {
    } else if s[0] == '/' {
    } else {
        let t = s.subrange(1, s.len() as int);
        lemma_first_slash(t);
        if first_slash(s) < s.len() {
            assert(s[first_slash(s)] == t[first_slash(t)]);
        }
        assert forall|j: int| 0 <= j < first_slash(s) implies s[j] != '/' by {
            if j >= 1 {
                assert(s[j] == t[j - 1]);
            }
        }
    }
}

/// The segments of `s` between `/` separators, in order. A leading or
/// trailing `/` yields an empty segment, as splitting on a separator does.
pub open spec fn split_path(s: Seq<char>) -> Seq<Seq<char>>
    decreases s.len(),
{
    let i = first_slash(s);
    if 0 <= i < s.len() {
        seq![s.subrange(0, i)] + split_path(s.subrange(i + 1, s.len() as int))
    } else {
        seq![s]
    }
}

/// A pattern segment of the form `{name}`.
pub open spec fn is_placeholder(seg: Seq<char>) -> bool {
    seg.len() >= 2 && seg[0] == '{' && seg[seg.len() - 1] == '}'
}

/// Segment lists match when they have the same length and each pattern
/// segment is either a placeholder or literally equal to the path segment.
pub open spec fn segments_match(pat: Seq<Seq<char>>, path: Seq<Seq<char>>) -> bool {
    &&& pat.len() == path.len()
    &&& forall|i: int|
        0 <= i < pat.len() ==> (is_placeholder(#[trigger] pat[i]) || pat[i] == path[i])
}

/// The path segments standing at placeholder positions among the first
/// `upto` segments, in order.
pub open spec fn captured(pat: Seq<Seq<char>>, path: Seq<Seq<char>>, upto: int) -> Seq<Seq<char>>
    decreases upto,
{
    if upto <= 0 {
        Seq::empty()
    } else {
        captured(pat, path, upto - 1) + if is_placeholder(pat[upto - 1]) {
            seq![path[upto - 1]]
        } else {
            Seq::empty()
        }
    }
}

/// The path segments standing at the pattern's placeholder positions.
pub open spec fn captures(pat: Seq<Seq<char>>, path: Seq<Seq<char>>) -> Seq<Seq<char>> {
    captured(pat, path, pat.len() as int)
}

/// Splits a path into its `/`-separated segments.
pub fn split_segments(s: &str) -> (r: Vec<String>)
    ensures
        r@.len() == split_path(s@).len(),
        forall|i: int| 0 <= i < r@.len() ==> (#[trigger] r@[i])@ == split_path(s@)[i],
    decreases s@.len(),
{
    proof {
        lemma_first_slash(s@);
    }
    let n = s.unicode_len();
    let mut i: usize = 0;
    while i < n && s.get_char(i) != '/'
        invariant
            n == s@.len(),
            i <= n,
            forall|j: int| 0 <= j < i ==> s@[j] != '/',
        decreases n - i,
    {
        i = i + 1;
    }
    proof {
        let f = first_slash(s@);
        if i < f {
            assert(s@[i as int] != '/');
        }
        if f < i {
            assert(s@[f] != '/');
        }
        assert(i == f);
    }
    if i == n {
        let mut r: Vec<String> = Vec::new();
        r.push(s.to_owned());
        proof {
            assert(split_path(s@) =~= seq![s@]);
        }
        r
    } else {
        let head = s.substring_char(0, i).to_owned();
        let tail = s.substring_char(i + 1, n);
        let mut rest = split_segments(tail);
        rest.insert(0, head);
        proof {
            assert(split_path(s@) =~= seq![s@.subrange(0, i as int)] + split_path(tail@));
            assert forall|k: int| 0 <= k < rest@.len() implies (#[trigger] rest@[k])@ == split_path(
                s@,
            )[k] by {
                if k == 0 {
                    assert(rest@[0] == head);
                } else {
                    assert(rest@[k] == rest@.subrange(1, rest@.len() as int)[k - 1]);
                }
            }
        }
        rest
    }
}

/// Whether one segment is a `{name}` placeholder.
fn segment_is_placeholder(seg: &String) -> (r: bool)
    ensures
        r == is_placeholder(seg@),
{
    let n = seg.as_str().unicode_len();
    n >= 2 && seg.as_str().get_char(0) == '{' && seg.as_str().get_char(n - 1) == '}'
}

/// Matches `path` against `pattern` segment by segment and extracts the path
/// segments standing at the pattern's placeholder positions, in declaration
/// order. Fails with `NotFound` exactly when the segment lists do not match.
pub fn extract_params(pattern: &str, path: &str) -> (r: Result<Vec<String>, DispatchError>)
    ensures
        match r {
            Ok(vals) => {
                &&& segments_match(split_path(pattern@), split_path(path@))
                &&& vals@.len() == captures(split_path(pattern@), split_path(path@)).len()
                &&& forall|i: int|
                    0 <= i < vals@.len() ==> (#[trigger] vals@[i])@ == captures(
                        split_path(pattern@),
                        split_path(path@),
                    )[i]
            },
            Err(e) => !segments_match(split_path(pattern@), split_path(path@)) && e is NotFound,
        },
{
    let ghost pat = split_path(pattern@);
    let ghost pth = split_path(path@);
    let pattern_segments = split_segments(pattern);
    let path_segments = split_segments(path);
    let n = pattern_segments.len();
    if path_segments.len() != n {
        proof {
            assert(pat.len() != pth.len());
            assert(!segments_match(split_path(pattern@), split_path(path@)));
        }
        return Err(DispatchError::NotFound);
    }
    let mut vals: Vec<String> = Vec::new();
    let mut i: usize = 0;
    while i < n
        invariant
            pat == split_path(pattern@),
            pth == split_path(path@),
            n == pat.len(),
            pat.len() == pth.len(),
            pattern_segments@.len() == n,
            path_segments@.len() == n,
            forall|k: int| 0 <= k < n ==> (#[trigger] pattern_segments@[k])@ == pat[k],
            forall|k: int| 0 <= k < n ==> (#[trigger] path_segments@[k])@ == pth[k],
            i <= n,
            forall|k: int| 0 <= k < i ==> (is_placeholder(#[trigger] pat[k]) || pat[k] == pth[k]),
            vals@.len() == captured(pat, pth, i as int).len(),
            forall|k: int|
                0 <= k < vals@.len() ==> (#[trigger] vals@[k])@ == captured(pat, pth, i as int)[k],
        decreases n - i,
    {
        if segment_is_placeholder(&pattern_segments[i]) {
            vals.push(path_segments[i].clone());
        } else if !(pattern_segments[i] == path_segments[i]) {
            proof {
                assert(!is_placeholder(pat[i as int]) && pat[i as int] != pth[i as int]);
            }
            return Err(DispatchError::NotFound);
        }
        i = i + 1;
    }
    Ok(vals)
}

/// An ASCII decimal digit.
pub open spec fn is_digit(c: char) -> bool {
    48 <= c as u32 <= 57
}

/// The numeric value of one decimal digit.
pub open spec fn digit_value(c: char) -> nat {
    ((c as u32) - 48) as nat
}

/// Every character of `s` is a decimal digit.
pub open spec fn all_digits(s: Seq<char>) -> bool {
    forall|i: int| 0 <= i < s.len() ==> is_digit(#[trigger] s[i])
}

/// The value of `s` read as a decimal numeral.
pub open spec fn decimal_value(s: Seq<char>) -> nat
    decreases s.len(),
{
    if s.len() == 0 {
        0
    } else {
        decimal_value(s.drop_last()) * 10 + digit_value(s.last())
    }
}

/// A longer digit prefix never has a smaller value.
proof fn lemma_decimal_prefix_monotone(s: Seq<char>, i: int, j: int)
    requires
        0 <= i <= j <= s.len(),
    ensures
        decimal_value(s.subrange(0, i)) <= decimal_value(s.subrange(0, j)),
    decreases j - i,
{
    if i < j {
        lemma_decimal_prefix_monotone(s, i, j - 1);
        assert(s.subrange(0, j).drop_last() =~= s.subrange(0, j - 1));
        assert(decimal_value(s.subrange(0, j)) == decimal_value(s.subrange(0, j - 1)) * 10
            + digit_value(s.subrange(0, j).last()));
    }
}

/// Decodes one extracted path segment as a decimal `u64`. Fails with a
/// client-class `ParameterDecodeError`, holding the placeholder's name and
/// the offending segment, exactly when the segment is empty, holds a
/// non-digit, or exceeds the `u64` range.
pub fn decode_u64_param(name: &str, raw: &str) -> (r: Result<u64, DispatchError>)
    ensures
        r is Ok <==> raw@.len() > 0 && all_digits(raw@) && decimal_value(raw@) <= u64::MAX,
        match r {
            Ok(v) => v == decimal_value(raw@),
            Err(e) => match e {
                DispatchError::ParameterDecodeError { name: n2, raw: r2 } => n2@ == name@ && r2@
                    == raw@,
                _ => false,
            },
        },
{
    let n = raw.unicode_len();
    if n == 0 {
        return Err(
            DispatchError::ParameterDecodeError { name: name.to_owned(), raw: raw.to_owned() },
        );
    }
    let mut acc: u64 = 0;
    let mut i: usize = 0;
    while i < n
        invariant
            n == raw@.len(),
            i <= n,
            forall|j: int| 0 <= j < i ==> is_digit(#[trigger] raw@[j]),
            acc == decimal_value(raw@.subrange(0, i as int)),
        decreases n - i,
    {
        let c = raw.get_char(i);
        let cv = c as u32;
        proof {
            assert(raw@.subrange(0, i as int + 1).drop_last() =~= raw@.subrange(0, i as int));
            assert(raw@.subrange(0, i as int + 1).last() == raw@[i as int]);
        }
        if cv < 48 || cv > 57 {
            return Err(
                DispatchError::ParameterDecodeError { name: name.to_owned(), raw: raw.to_owned() },
            );
        }
        let d = (cv - 48) as u64;
        let scaled = match acc.checked_mul(10) {
            Some(s10) => s10,
            None => {
                proof {
                    assert(decimal_value(raw@.subrange(0, i as int + 1)) > u64::MAX);
                    lemma_decimal_prefix_monotone(raw@, i as int + 1, n as int);
                    assert(raw@.subrange(0, n as int) =~= raw@);
                }
                return Err(
                    DispatchError::ParameterDecodeError {
                        name: name.to_owned(),
                        raw: raw.to_owned(),
                    },
                );
            },
        };
        let next = match scaled.checked_add(d) {
            Some(nx) => nx,
            None => {
                proof {
                    assert(decimal_value(raw@.subrange(0, i as int + 1)) > u64::MAX);
                    lemma_decimal_prefix_monotone(raw@, i as int + 1, n as int);
                    assert(raw@.subrange(0, n as int) =~= raw@);
                }
                return Err(
                    DispatchError::ParameterDecodeError {
                        name: name.to_owned(),
                        raw: raw.to_owned(),
                    },
                );
            },
        };
        acc = next;
        i = i + 1;
    }
    proof {
        assert(raw@.subrange(0, n as int) =~= raw@);
    }
    Ok(acc)
}

} // verus!
