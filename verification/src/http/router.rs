//! Request parsing for edge routes: the HTTP method of an endpoint and the
//! query string of a request.

use vstd::prelude::*;

use crate::store::index::{strings_view, IndexPair};
use crate::text::{opt_str, str_equal, to_upper, uppercase};

verus! {

/// The HTTP methods an endpoint may declare.
#[derive(Debug, Clone, Copy, PartialEq, Eq, Structural)]
pub enum HttpMethod {
    Get,
    Post,
    Put,
    Patch,
    Delete,
    Head,
    Options,
}

/// An endpoint declared a method outside the supported ones; holds it in
/// upper case.
#[derive(Debug)]
pub struct UnsupportedMethod(pub String);

/// The method that an upper-cased name denotes, if supported.
pub open spec fn method_of(u: Seq<char>) -> Option<HttpMethod> {
    if u == "GET"@ {
        Some(HttpMethod::Get)
    } else if u == "POST"@ {
        Some(HttpMethod::Post)
    } else if u == "PUT"@ {
        Some(HttpMethod::Put)
    } else if u == "PATCH"@ {
        Some(HttpMethod::Patch)
    } else if u == "DELETE"@ {
        Some(HttpMethod::Delete)
    } else if u == "HEAD"@ {
        Some(HttpMethod::Head)
    } else if u == "OPTIONS"@ {
        Some(HttpMethod::Options)
    } else {
        None
    }
}

/// The method of an endpoint, matched case-insensitively.
pub fn method_filter(method: &str) -> (r: Result<HttpMethod, UnsupportedMethod>)
    ensures
        method_of(uppercase(method@)) matches Some(m) ==> r == Ok::<HttpMethod, UnsupportedMethod>(m),
        method_of(uppercase(method@)) is None ==> (r matches Err(e) && e.0@ == uppercase(method@)),
{
    let u = to_upper(method);
    if str_equal(u.as_str(), "GET") {
        Ok(HttpMethod::Get)
    } else if str_equal(u.as_str(), "POST") {
        Ok(HttpMethod::Post)
    } else if str_equal(u.as_str(), "PUT") {
        Ok(HttpMethod::Put)
    } else if str_equal(u.as_str(), "PATCH") {
        Ok(HttpMethod::Patch)
    } else if str_equal(u.as_str(), "DELETE") {
        Ok(HttpMethod::Delete)
    } else if str_equal(u.as_str(), "HEAD") {
        Ok(HttpMethod::Head)
    } else if str_equal(u.as_str(), "OPTIONS") {
        Ok(HttpMethod::Options)
    } else {
        Err(UnsupportedMethod(u))
    }
}

/// The pieces of `s` between the `&` separators (`str::split('&')`).
pub open spec fn segments(s: Seq<char>) -> Seq<Seq<char>>
    decreases s.len(),
{
    if s.len() == 0 {
        seq![Seq::<char>::empty()]
    } else {
        let rest = segments(s.drop_last());
        if s.last() == '&' {
            rest.push(Seq::empty())
        } else {
            rest.update(rest.len() - 1, rest.last().push(s.last()))
        }
    }
}

/// The position of the first `=` in `s`, if any.
pub open spec fn first_eq(s: Seq<char>) -> Option<int>
    decreases s.len(),
{
    if s.len() == 0 {
        None
    } else if s[0] == '=' {
        Some(0)
    } else {
        match first_eq(s.drop_first()) {
            Some(i) => Some(i + 1),
            None => None,
        }
    }
}

/// A `key=value` piece split at its first `=` (no `=`: an empty value).
pub open spec fn split_pair(s: Seq<char>) -> IndexPair {
    match first_eq(s) {
        Some(i) => (s.take(i), s.skip(i + 1)),
        None => (s, Seq::empty()),
    }
}

/// The parameters of the first `n` pieces of a query string: later pieces
/// override earlier ones of the same key; empty pieces are skipped.
pub open spec fn params_upto(pieces: Seq<Seq<char>>, n: int) -> Map<Seq<char>, Seq<char>>
    decreases n,
{
    if n <= 0 {
        Map::empty()
    } else if pieces[n - 1].len() == 0 {
        params_upto(pieces, n - 1)
    } else {
        params_upto(pieces, n - 1).insert(split_pair(pieces[n - 1]).0, split_pair(pieces[n - 1]).1)
    }
}

/// The parameters of a query string.
pub open spec fn query_params(q: Option<Seq<char>>) -> Map<Seq<char>, Seq<char>> {
    match q {
        Some(s) => params_upto(segments(s), segments(s).len() as int),
        None => Map::empty(),
    }
}

/// A list of parameters read as a map: each key once.
pub open spec fn lists_map(r: Seq<(String, String)>, m: Map<Seq<char>, Seq<char>>) -> bool {
    &&& forall|i: int, j: int| 0 <= i < j < r.len() ==> r[i].0@ != r[j].0@
    &&& forall|i: int| 0 <= i < r.len() ==> m.contains_key(#[trigger] r[i].0@) && m[r[i].0@] == r[i].1@
    &&& forall|k: Seq<char>| #[trigger] m.contains_key(k) ==> exists|i: int| 0 <= i < r.len() && r[i].0@ == k
}


/// The pieces of a query string between `&` separators.
fn split_segments(q: &str) -> (r: Vec<String>)
    ensures
        strings_view(r@) == segments(q@),
{
    let n = q.unicode_len();
    let mut start: usize = 0;
    let mut i: usize = 0;
    let mut done: Vec<String> = Vec::new();
    assert(q@.take(0) =~= Seq::<char>::empty());
    assert(strings_view(done@).push(q@.subrange(0, 0)) =~= seq![Seq::<char>::empty()]);
    while i < n
        invariant
            n == q@.len(),
            start <= i <= n,
            segments(q@.take(i as int)) == strings_view(done@).push(q@.subrange(start as int, i as int)),
        decreases n - i,
    {
        let ghost before = done@;
        proof {
            assert(q@.take(i + 1).drop_last() =~= q@.take(i as int));
            assert(q@.take(i + 1).last() == q@[i as int]);
        }
        let c = q.get_char(i);
        if c == '&' {
            let ghost s0 = start;
            done.push(String::from_str(q.substring_char(start, i)));
            start = i + 1;
            proof {
                assert(strings_view(done@) =~= strings_view(before).push(q@.subrange(s0 as int, i as int)));
                assert(q@.subrange(start as int, i + 1) =~= Seq::<char>::empty());
                assert(segments(q@.take(i + 1)) =~= strings_view(done@).push(q@.subrange(start as int, i + 1)));
            }
        } else {
            proof {
                let rest = strings_view(before).push(q@.subrange(start as int, i as int));
                assert(q@.subrange(start as int, i + 1) =~= q@.subrange(start as int, i as int).push(c));
                assert(rest.last() == q@.subrange(start as int, i as int));
                assert(rest.update(rest.len() - 1, rest.last().push(c)) =~= strings_view(before).push(
                    q@.subrange(start as int, i + 1),
                ));
            }
        }
        i = i + 1;
    }
    let ghost before = done@;
    done.push(String::from_str(q.substring_char(start, n)));
    assert(q@.take(n as int) =~= q@);
    assert(strings_view(done@) =~= strings_view(before).push(q@.subrange(start as int, n as int)));
    done
}

proof fn lemma_first_eq(s: Seq<char>, i: int)
    requires
        0 <= i <= s.len(),
        forall|k: int| 0 <= k < i ==> s[k] != '=',
    ensures
        i < s.len() && s[i] == '=' ==> first_eq(s) == Some(i),
        i == s.len() ==> first_eq(s) is None,
    decreases i,
{
    if i > 0 {
        lemma_first_eq(s.drop_first(), i - 1);
    } else if s.len() > 0 {
        if s[0] != '=' {
        }
    }
}

/// A `key=value` piece split at its first `=`.
fn split_at_eq(s: &str) -> (r: (String, String))
    ensures
        (r.0@, r.1@) == split_pair(s@),
{
    let n = s.unicode_len();
    let mut i: usize = 0;
    while i < n
        invariant
            n == s@.len(),
            i <= n,
            forall|k: int| 0 <= k < i ==> s@[k] != '=',
        decreases n - i,
    {
        if s.get_char(i) == '=' {
            proof {
                lemma_first_eq(s@, i as int);
            }
            let key = String::from_str(s.substring_char(0, i));
            let value = String::from_str(s.substring_char(i + 1, n));
            assert(s@.skip(i + 1) =~= s@.subrange(i + 1, n as int));
            assert(s@.take(i as int) =~= s@.subrange(0, i as int));
            return (key, value);
        }
        i = i + 1;
    }
    proof {
        lemma_first_eq(s@, n as int);
    }
    (String::from_str(s), String::new())
}

/// The parameters of a query string: its `&`-separated pieces split at the
/// first `=`, later keys overriding earlier ones, empty pieces skipped.
pub fn parse_query_string(query: Option<&str>) -> (r: Vec<(String, String)>)
    ensures
        lists_map(r@, query_params(opt_str(query))),
{
    let mut out: Vec<(String, String)> = Vec::new();
    match query {
        None => {
            assert(lists_map(out@, Map::<Seq<char>, Seq<char>>::empty()));
            out
        },
        Some(q) => {
            let pieces = split_segments(q);
            let ghost ps = strings_view(pieces@);
            let n = pieces.len();
            let mut j: usize = 0;
            while j < n
                invariant
                    n == pieces@.len(),
                    ps == strings_view(pieces@),
                    ps == segments(q@),
                    j <= n,
                    lists_map(out@, params_upto(ps, j as int)),
                decreases n - j,
            {
                let ghost m0 = params_upto(ps, j as int);
                assert(ps[j as int] == pieces@[j as int]@);
                if pieces[j].as_str().unicode_len() > 0 {
                    let (key, value) = split_at_eq(pieces[j].as_str());
                    let ghost m1 = m0.insert(key@, value@);
                    assert(params_upto(ps, j + 1) == m1);
                    let m = out.len();
                    let mut k: usize = 0;
                    let mut found: Option<usize> = None;
                    while k < m
                        invariant
                            m == out@.len(),
                            k <= m,
                            found is None ==> forall|q2: int| 0 <= q2 < k ==> out@[q2].0@ != key@,
                            found matches Some(f) ==> f < m && out@[f as int].0@ == key@,
                        decreases m - k,
                    {
                        if found.is_none() && str_equal(out[k].0.as_str(), key.as_str()) {
                            found = Some(k);
                        }
                        k = k + 1;
                    }
                    let ghost before = out@;
                    match found {
                        Some(f) => {
                            out.set(f, (key, value));
                            proof {
                                assert forall|a: int, b: int| 0 <= a < b < out@.len() implies out@[a].0@ != out@[b].0@ by {
                                    assert(before[a].0@ != before[b].0@);
                                }
                                assert forall|a: int| 0 <= a < out@.len() implies m1.contains_key(#[trigger] out@[a].0@) && m1[out@[a].0@] == out@[a].1@ by {
                                    if a != f {
                                        assert(before[a].0@ != before[f as int].0@) by {
                                            if a < f {
                                            } else {
                                            }
                                        }
                                    }
                                }
                                assert forall|kk: Seq<char>| #[trigger] m1.contains_key(kk) implies exists|a: int| 0 <= a < out@.len() && out@[a].0@ == kk by {
                                    if kk == key@ {
                                        assert(out@[f as int].0@ == kk);
                                    } else {
                                        let a = choose|a: int| 0 <= a < before.len() && before[a].0@ == kk;
                                        assert(out@[a].0@ == kk);
                                    }
                                }
                            }
                        },
                        None => {
                            out.push((key, value));
                            proof {
                                assert forall|a: int, b: int| 0 <= a < b < out@.len() implies out@[a].0@ != out@[b].0@ by {
                                    if b < before.len() {
                                        assert(before[a].0@ != before[b].0@);
                                    }
                                }
                                assert forall|a: int| 0 <= a < out@.len() implies m1.contains_key(#[trigger] out@[a].0@) && m1[out@[a].0@] == out@[a].1@ by {
                                    if a < before.len() {
                                        assert(before[a] == out@[a]);
                                    }
                                }
                                assert forall|kk: Seq<char>| #[trigger] m1.contains_key(kk) implies exists|a: int| 0 <= a < out@.len() && out@[a].0@ == kk by {
                                    if kk == key@ {
                                        assert(out@[before.len() as int].0@ == kk);
                                    } else {
                                        let a = choose|a: int| 0 <= a < before.len() && before[a].0@ == kk;
                                        assert(out@[a].0@ == kk);
                                    }
                                }
                            }
                        },
                    }
                } else {
                    assert(params_upto(ps, j + 1) == m0);
                }
                j = j + 1;
            }
            out
        },
    }
}

/// Each of the seven methods an endpoint may declare, in whatever case it is
/// written, routes to its own variant: `method_filter` accepts it; and any
/// other method is refused.
pub proof fn law_methods_route(m: &str)
    ensures
        uppercase(m@) == "GET"@ ==> method_of(uppercase(m@)) == Some(HttpMethod::Get),
        uppercase(m@) == "POST"@ ==> method_of(uppercase(m@)) == Some(HttpMethod::Post),
        uppercase(m@) == "PUT"@ ==> method_of(uppercase(m@)) == Some(HttpMethod::Put),
        uppercase(m@) == "PATCH"@ ==> method_of(uppercase(m@)) == Some(HttpMethod::Patch),
        uppercase(m@) == "DELETE"@ ==> method_of(uppercase(m@)) == Some(HttpMethod::Delete),
        uppercase(m@) == "HEAD"@ ==> method_of(uppercase(m@)) == Some(HttpMethod::Head),
        uppercase(m@) == "OPTIONS"@ ==> method_of(uppercase(m@)) == Some(HttpMethod::Options),
        method_of(uppercase(m@)) is Some ==> uppercase(m@) == "GET"@ || uppercase(m@) == "POST"@ || uppercase(m@)
            == "PUT"@ || uppercase(m@) == "PATCH"@ || uppercase(m@) == "DELETE"@ || uppercase(m@) == "HEAD"@
            || uppercase(m@) == "OPTIONS"@,
{
    reveal_strlit("GET");
    reveal_strlit("POST");
    reveal_strlit("PUT");
    reveal_strlit("PATCH");
    reveal_strlit("DELETE");
    reveal_strlit("HEAD");
    reveal_strlit("OPTIONS");
    assert("POST"@.len() != "GET"@.len());
    assert("PUT"@[0] != "GET"@[0]);
    assert("PUT"@.len() != "POST"@.len());
    assert("PATCH"@.len() != "GET"@.len());
    assert("PATCH"@.len() != "POST"@.len());
    assert("PATCH"@.len() != "PUT"@.len());
    assert("DELETE"@.len() != "GET"@.len());
    assert("DELETE"@.len() != "POST"@.len());
    assert("DELETE"@.len() != "PUT"@.len());
    assert("DELETE"@.len() != "PATCH"@.len());
    assert("HEAD"@.len() != "GET"@.len());
    assert("HEAD"@[0] != "POST"@[0]);
    assert("HEAD"@.len() != "PUT"@.len());
    assert("HEAD"@.len() != "PATCH"@.len());
    assert("HEAD"@.len() != "DELETE"@.len());
    assert("OPTIONS"@.len() != "GET"@.len());
    assert("OPTIONS"@.len() != "POST"@.len());
    assert("OPTIONS"@.len() != "PUT"@.len());
    assert("OPTIONS"@.len() != "PATCH"@.len());
    assert("OPTIONS"@.len() != "DELETE"@.len());
    assert("OPTIONS"@.len() != "HEAD"@.len());
}

} // verus!
