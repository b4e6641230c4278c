use vstd::prelude::*;
use crate::errors::{ErrorType, HTTPError};
use crate::pull_request::PullRequest;
use crate::user::User;
use crate::json::{json_string_at, json_object_at, json_string_member, json_object_member};
use crate::assoc::{assoc_map, find_key};
use crate::text::{push_text, text_eq, split_char, split_on, split_once_char, split_once_spec,
    split_once_str, split_once_text, has_prefix, starts_with, views, parse_usize_radix, parse_usize_spec, find_text,
    words, split_whitespace};

verus! {

/// The HTTP front end of the server: it reads requests on pull requests and
/// answers them.
pub struct HTTPRequest {}

/// What a valid request asks for, with the repository it names.
pub enum HttpRoute {
    /// `GET /repos/{repo}/pulls[?query]`: the last part of the URI.
    ListPulls(String, String),
    /// `GET /repos/{repo}/pulls/{number}`.
    GetPull(String, String),
    /// `GET /repos/{repo}/pulls/{number}/commits`.
    ListCommits(String, String),
    /// `POST /repos/{repo}/pulls`, with the body.
    CreatePull(String, String),
    /// `PUT /repos/{repo}/pulls/{number}/merge`, with the body.
    MergePull(String, String, String),
    /// `PATCH /repos/{repo}/pulls/{number}`, with the body.
    PatchPull(String, String, String),
}

/// A route as plain texts: its kind, the repository, the number or the
/// query, and the body.
pub open spec fn route_view(r: HttpRoute) -> (nat, Seq<char>, Seq<char>, Seq<char>) {
    match r {
        HttpRoute::ListPulls(repo, q) => (0, repo@, q@, Seq::empty()),
        HttpRoute::GetPull(repo, n) => (1, repo@, n@, Seq::empty()),
        HttpRoute::ListCommits(repo, n) => (2, repo@, n@, Seq::empty()),
        HttpRoute::CreatePull(repo, b) => (3, repo@, Seq::empty(), b@),
        HttpRoute::MergePull(repo, n, b) => (4, repo@, n@, b@),
        HttpRoute::PatchPull(repo, n, b) => (5, repo@, n@, b@),
    }
}

/// The header pairs of a request's lines, or the first line that is no
/// header.
pub open spec fn headers_upto(lines: Seq<Seq<char>>, n: nat) -> Result<Seq<(Seq<char>, Seq<char>)>, Seq<char>>
    decreases n,
{
    if n == 0 {
        Ok(Seq::empty())
    } else {
        match headers_upto(lines, (n - 1) as nat) {
            Ok(h) => match split_once_text(lines[n - 1], ": "@) {
                Some(p) => Ok(h.push(p)),
                None => Err(lines[n - 1]),
            },
            Err(e) => Err(e),
        }
    }
}

/// The pairs of a list of string pairs, as texts.
pub open spec fn pair_views(v: Seq<(String, String)>) -> Seq<(Seq<char>, Seq<char>)> {
    v.map_values(|p: (String, String)| (p.0@, p.1@))
}

/// The query pairs of the queries of a URI's end, or the first query that
/// is no pair.
pub open spec fn queries_upto(qs: Seq<Seq<char>>, n: nat) -> Result<Seq<(Seq<char>, Seq<char>)>, Seq<char>>
    decreases n,
{
    if n == 0 {
        Ok(Seq::empty())
    } else {
        match queries_upto(qs, (n - 1) as nat) {
            Ok(h) => match split_once_spec(qs[n - 1], '=') {
                Some(p) => Ok(h.push(p)),
                None => Err(qs[n - 1]),
            },
            Err(e) => Err(e),
        }
    }
}

/// What follows the first `?` of a URI's end, empty where there is none.
pub open spec fn query_tail(uri_end: Seq<char>) -> Seq<char> {
    match split_once_spec(uri_end, '?') {
        Some((_, q)) => q,
        None => Seq::empty(),
    }
}

/// The query pairs of the end of a URI: what follows its first `?`, split
/// at `&`, each at its first `=`.
pub open spec fn query_spec(uri_end: Seq<char>) -> Result<Seq<(Seq<char>, Seq<char>)>, Seq<char>> {
    match split_once_spec(uri_end, '?') {
        Some((_, queries)) => {
            let qs = split_on(queries, '&');
            queries_upto(qs, qs.len())
        },
        None => Ok(Seq::empty()),
    }
}

/// Whether the pair at `i` is the last with its key (the one that counts).
pub open spec fn last_of_key(qs: Seq<(Seq<char>, Seq<char>)>, i: int) -> bool {
    forall|j: int| i < j < qs.len() ==> qs[j].0 != qs[i].0
}

/// The error a query gives, if it is not one the listing knows.
pub open spec fn query_error(q: (Seq<char>, Seq<char>)) -> Option<Seq<char>> {
    if q.0 == "state"@ {
        if q.1 == "open"@ || q.1 == "closed"@ || q.1 == "all"@ { None } else { Some("Invalid state query: "@ + q.1) }
    } else if q.0 == "base"@ {
        None
    } else {
        Some("Invalid query "@ + q.0)
    }
}

/// Whether a pull request passes a (known) query.
pub open spec fn passes(pr: PullRequest, q: (Seq<char>, Seq<char>)) -> bool {
    if q.0 == "state"@ {
        if q.1 == "open"@ { pr.state@ == "open"@ } else if q.1 == "closed"@ { pr.state@ != "open"@ } else { true }
    } else {
        pr.branch_base@ == q.1
    }
}

/// The first error among the queries that count, if any.
pub open spec fn first_query_error(qs: Seq<(Seq<char>, Seq<char>)>, i: nat) -> Option<Seq<char>>
    decreases qs.len() - i,
{
    if i >= qs.len() {
        None
    } else if last_of_key(qs, i as int) && query_error(qs[i as int]) is Some {
        query_error(qs[i as int])
    } else {
        first_query_error(qs, i + 1)
    }
}

/// Whether a pull request passes every query that counts.
pub open spec fn passes_all(pr: PullRequest, qs: Seq<(Seq<char>, Seq<char>)>) -> bool {
    forall|i: int| 0 <= i < qs.len() && last_of_key(qs, i) ==> #[trigger] passes(pr, qs[i])
}

/// Whether `p` occurs in `s`.
pub open spec fn contains_text(s: Seq<char>, p: Seq<char>) -> bool {
    find_text(s, p) < s.len()
}

/// Whether a non-empty pattern occurs in a text (`str::contains`).
pub fn contains_str(s: &str, p: &str) -> (r: bool)
    requires
        p@.len() > 0,
    ensures
        r == contains_text(s@, p@),
{
    split_once_str(s, p).is_some()
}

/// The text of an optional string.
pub open spec fn opt_string_view(o: Option<String>) -> Option<Seq<char>> {
    match o {
        Some(s) => Some(s@),
        None => None,
    }
}

/// The value of the last of the first `k` pairs whose key is `key`.
pub open spec fn last_value(pairs: Seq<(Seq<char>, Seq<char>)>, key: Seq<char>, k: int) -> Option<Seq<char>>
    decreases k,
{
    if k <= 0 {
        None
    } else if pairs[k - 1].0 == key {
        Some(pairs[k - 1].1)
    } else {
        last_value(pairs, key, k - 1)
    }
}

/// The route of a request as plain texts (kind, repository, number or
/// query, body), or the text of the error that rejects it.
pub open spec fn route_spec(method: Seq<char>, uri: Seq<char>, body: Option<Seq<char>>)
    -> Result<(nat, Seq<char>, Seq<char>, Seq<char>), Seq<char>>
{
    let parts = split_on(uri, '/');
    if !has_prefix(uri, "/repos/"@) || !contains_text(parts[3], "pulls"@) {
        Err("Invalid URI request"@)
    } else if body is None && (method == "POST"@ || method == "PUT"@ || method == "PATCH"@) {
        Err("POST, PUT and PATCH must include a body"@)
    } else {
        let b = match body { Some(b) => b, None => Seq::empty() };
        let repo = parts[2];
        let n = parts.len() - 3;
        if method == "GET"@ {
            if n == 1 {
                Ok((0, repo, parts[3], Seq::empty()))
            } else if n == 2 {
                Ok((1, repo, parts[4], Seq::empty()))
            } else if n == 3 && parts[5] == "commits"@ {
                Ok((2, repo, parts[4], Seq::empty()))
            } else {
                Err("Invalid URI request"@)
            }
        } else if method == "POST"@ {
            Ok((3, repo, Seq::empty(), b))
        } else if method == "PUT"@ {
            if n != 3 || parts[3] != "pulls"@ || parts[5] != "merge"@ {
                Err("URI for PUT must be /repos/{repo}/pulls/{pull_number}/merge"@)
            } else {
                Ok((4, repo, parts[4], b))
            }
        } else if method == "PATCH"@ {
            if n != 2 {
                Err("URI for PATCH must be /repos/{repo}/pulls/{pull_number}"@)
            } else {
                Ok((5, repo, parts[4], b))
            }
        } else {
            Err(method)
        }
    }
}

/// The text of the answer to a merged pull request.
pub open spec fn merged_answer(message: Seq<char>) -> Seq<char> {
    "{\"merged\": true, \"message\": \""@ + message + "\"}"@
}

impl HTTPRequest {
    /// The header fields of a request's lines (`field: value`); an error at
    /// the first line that is no header.
    pub fn parse_headers(lines: &Vec<String>) -> (r: Result<Vec<(String, String)>, ErrorType>)
        ensures
            match headers_upto(views(lines@), lines@.len()) {
                Ok(h) => r matches Ok(v) && pair_views(v@) == h,
                Err(bad) => r matches Err(ErrorType::HTTPError(HTTPError::BadRequest(m)))
                    && m@ == "Invalid http request header: "@ + bad,
            },
    {
        let ghost ls = views(lines@);
        let mut headers: Vec<(String, String)> = Vec::new();
        let mut k: usize = 0;
        proof { reveal_strlit(": "); }
        assert(pair_views(headers@) =~= Seq::<(Seq<char>, Seq<char>)>::empty());
        while k < lines.len()
            invariant
                k <= lines@.len(),
                ls == views(lines@),
                headers_upto(ls, k as nat) == Ok::<Seq<(Seq<char>, Seq<char>)>, Seq<char>>(pair_views(headers@)),
            decreases lines.len() - k,
        {
            assert(ls[k as int] == lines@[k as int]@);
            proof { reveal_strlit(": "); }
            match split_once_str(lines[k].as_str(), ": ") {
                Some(p) => {
                    let ghost before = pair_views(headers@);
                    headers.push(p);
                    assert(pair_views(headers@) =~= before.push(pair_views(headers@).last()));
                },
                None => {
                    let mut m = String::from_str("Invalid http request header: ");
                    push_text(&mut m, lines[k].as_str());
                    proof { lemma_headers_err_stays(ls, (k + 1) as nat, ls.len()); }
                    return Err(ErrorType::HTTPError(HTTPError::BadRequest(m)));
                },
            }
            k = k + 1;
        }
        Ok(headers)
    }

    /// The query fields of the last part of a URI (`?f=v&...`); an error at
    /// the first query that is no pair.
    pub fn parse_query(uri_end: &str) -> (r: Result<Vec<(String, String)>, ErrorType>)
        ensures
            match query_spec(uri_end@) {
                Ok(q) => r matches Ok(v) && pair_views(v@) == q,
                Err(bad) => r matches Err(ErrorType::HTTPError(HTTPError::BadRequest(m)))
                    && m@ == "Invalid query format: "@ + bad,
            },
    {
        let mut map: Vec<(String, String)> = Vec::new();
        let queries = match split_once_char(uri_end, '?') {
            Some((_, q)) => q,
            None => return Ok(map),
        };
        let parts = split_char(queries.as_str(), '&');
        let ghost qs = views(parts@);
        let mut k: usize = 0;
        assert(pair_views(map@) =~= Seq::<(Seq<char>, Seq<char>)>::empty());
        assert(qs == split_on(query_tail(uri_end@), '&'));
        while k < parts.len()
            invariant
                k <= parts@.len(),
                qs == views(parts@),
                qs == split_on(query_tail(uri_end@), '&'),
                split_once_spec(uri_end@, '?') is Some,
                queries_upto(qs, k as nat) == Ok::<Seq<(Seq<char>, Seq<char>)>, Seq<char>>(pair_views(map@)),
            decreases parts.len() - k,
        {
            assert(qs[k as int] == parts@[k as int]@);
            match split_once_char(parts[k].as_str(), '=') {
                Some(p) => {
                    let ghost before = pair_views(map@);
                    map.push(p);
                    assert(pair_views(map@) =~= before.push(pair_views(map@).last()));
                },
                None => {
                    let mut m = String::from_str("Invalid query format: ");
                    push_text(&mut m, parts[k].as_str());
                    proof { lemma_queries_err_stays(qs, (k + 1) as nat, qs.len()); }
                    return Err(ErrorType::HTTPError(HTTPError::BadRequest(m)));
                },
            }
            k = k + 1;
        }
        Ok(map)
    }

    /// The length of the body a request announces in its `Content-Length`
    /// header (the last one counting), 0 where there is none; an error where
    /// it is no number.
    pub fn content_length(headers: &Vec<(String, String)>) -> (r: Result<usize, ErrorType>)
        ensures
            match last_value(pair_views(headers@), "Content-Length"@, headers@.len() as int) {
                None => r == Ok::<usize, ErrorType>(0),
                Some(v) => match parse_usize_spec(v, 10) {
                    Some(n) => r matches Ok(x) && x as nat == n,
                    None => r matches Err(ErrorType::HTTPError(HTTPError::BadRequest(m)))
                        && m@ == "HTTP Request must include Content-Length header"@,
                },
            },
    {
        let ghost hv = pair_views(headers@);
        let mut k: usize = headers.len();
        while k > 0
            invariant
                k <= headers@.len(),
                hv == pair_views(headers@),
                last_value(hv, "Content-Length"@, headers@.len() as int) == last_value(hv, "Content-Length"@, k as int),
            decreases k,
        {
            assert(hv[k - 1] == (headers@[k - 1].0@, headers@[k - 1].1@));
            if text_eq(headers[k - 1].0.as_str(), "Content-Length") {
                return match parse_usize_radix(headers[k - 1].1.as_str(), 10) {
                    Ok(n) => Ok(n),
                    Err(_) => Err(ErrorType::HTTPError(HTTPError::BadRequest(String::from_str(
                        "HTTP Request must include Content-Length header")))),
                };
            }
            k = k - 1;
        }
        Ok(0)
    }

    /// Checks that a request names a repository's pull requests and that the
    /// methods that need a body have one; gives the body, empty where there
    /// is none.
    pub fn verify_request_validity(body: Option<String>, method: &str, uri: &str, uri_parts: &Vec<String>) -> (r: Result<String, ErrorType>)
        requires
            has_prefix(uri@, "/repos/"@) ==> uri_parts@.len() > 3,
        ensures
            !has_prefix(uri@, "/repos/"@) || !contains_text(uri_parts@[3]@, "pulls"@) ==>
                (r matches Err(ErrorType::HTTPError(HTTPError::BadRequest(m))) && m@ == "Invalid URI request"@),
            has_prefix(uri@, "/repos/"@) && contains_text(uri_parts@[3]@, "pulls"@) ==> match body {
                Some(b) => r == Ok::<String, ErrorType>(b),
                None => if method@ == "POST"@ || method@ == "PUT"@ || method@ == "PATCH"@ {
                    r matches Err(ErrorType::HTTPError(HTTPError::BadRequest(m)))
                        && m@ == "POST, PUT and PATCH must include a body"@
                } else {
                    r matches Ok(s) && s@.len() == 0
                },
            },
    {
        proof { reveal_strlit("pulls"); }
        if !starts_with(uri, "/repos/") || !contains_str(uri_parts[3].as_str(), "pulls") {
            return Err(ErrorType::HTTPError(HTTPError::BadRequest(String::from_str("Invalid URI request"))));
        }
        match body {
            Some(b) => Ok(b),
            None => {
                if text_eq(method, "POST") || text_eq(method, "PUT") || text_eq(method, "PATCH") {
                    return Err(ErrorType::HTTPError(HTTPError::BadRequest(String::from_str(
                        "POST, PUT and PATCH must include a body"))));
                }
                Ok(String::new())
            },
        }
    }

    /// The method and the URI of a request line (its first two words).
    pub fn parse_request_line(line: &str) -> (r: (String, String))
        requires
            words(line@).len() >= 2,
        ensures
            r.0@ == words(line@)[0],
            r.1@ == words(line@)[1],
    {
        let ws = split_whitespace(line);
        assert(views(ws@)[0] == ws@[0]@ && views(ws@)[1] == ws@[1]@);
        (ws[0].clone(), ws[1].clone())
    }

    /// What a request asks for: its URI must name a repository's pull
    /// requests, its method one the front end serves, and its URI the form
    /// that method takes.
    pub fn route(method: &str, uri: &str, body: Option<String>) -> (r: Result<HttpRoute, ErrorType>)
        requires
            has_prefix(uri@, "/repos/"@) ==> split_on(uri@, '/').len() > 3,
        ensures
            route_spec(method@, uri@, opt_string_view(body)) matches Ok(v) ==> (r matches Ok(x) && route_view(x) == v),
            route_spec(method@, uri@, opt_string_view(body)) matches Err(m) ==>
                (r matches Err(ErrorType::HTTPError(HTTPError::BadRequest(e))) && e@ == m),
    {
        let parts = split_char(uri, '/');
        let body = match Self::verify_request_validity(body, method, uri, &parts) {
            Ok(b) => b,
            Err(e) => {
                return Err(e);
            },
        };
        let repo = parts[2].clone();
        let n = parts.len() - 3;
        if text_eq(method, "GET") {
            if n == 1 {
                Ok(HttpRoute::ListPulls(repo, parts[3].clone()))
            } else if n == 2 {
                Ok(HttpRoute::GetPull(repo, parts[4].clone()))
            } else if n == 3 {
                if !text_eq(parts[5].as_str(), "commits") {
                    return Err(ErrorType::HTTPError(HTTPError::BadRequest(String::from_str("Invalid URI request"))));
                }
                Ok(HttpRoute::ListCommits(repo, parts[4].clone()))
            } else {
                Err(ErrorType::HTTPError(HTTPError::BadRequest(String::from_str("Invalid URI request"))))
            }
        } else if text_eq(method, "POST") {
            Ok(HttpRoute::CreatePull(repo, body))
        } else if text_eq(method, "PUT") {
            if n != 3 || !text_eq(parts[3].as_str(), "pulls") || !text_eq(parts[5].as_str(), "merge") {
                return Err(ErrorType::HTTPError(HTTPError::BadRequest(String::from_str(
                    "URI for PUT must be /repos/{repo}/pulls/{pull_number}/merge"))));
            }
            Ok(HttpRoute::MergePull(repo, parts[4].clone(), body))
        } else if text_eq(method, "PATCH") {
            if n != 2 {
                return Err(ErrorType::HTTPError(HTTPError::BadRequest(String::from_str(
                    "URI for PATCH must be /repos/{repo}/pulls/{pull_number}"))));
            }
            Ok(HttpRoute::PatchPull(repo, parts[4].clone(), body))
        } else {
            Err(ErrorType::HTTPError(HTTPError::BadRequest(String::from_str(method))))
        }
    }

    /// The pull requests of a list that pass the queries of the last part of
    /// the URI (`state=open|closed|all`, `base=<branch>`; of several with one
    /// field the last counts), in the list's order; an error for a query the
    /// listing does not know.
    pub fn filter_pull_requests(list: Vec<PullRequest>, uri_end: &str) -> (r: Result<Vec<PullRequest>, ErrorType>)
        ensures
            query_spec(uri_end@) matches Err(bad) ==> (r matches Err(ErrorType::HTTPError(HTTPError::BadRequest(m)))
                && m@ == "Invalid query format: "@ + bad),
            query_spec(uri_end@) matches Ok(qs) ==> match first_query_error(qs, 0) {
                Some(m) => r matches Err(ErrorType::HTTPError(HTTPError::BadRequest(e))) && e@ == m,
                None => r matches Ok(v) && v@ == list@.filter(|pr: PullRequest| passes_all(pr, qs)),
            },
    {
        let queries = match Self::parse_query(uri_end) {
            Ok(q) => q,
            Err(e) => return Err(e),
        };
        let ghost qs = pair_views(queries@);
        assert(query_spec(uri_end@) == Ok::<Seq<(Seq<char>, Seq<char>)>, Seq<char>>(qs));
        let mut i: usize = 0;
        while i < queries.len()
            invariant
                i <= queries@.len(),
                qs == pair_views(queries@),
                query_spec(uri_end@) == Ok::<Seq<(Seq<char>, Seq<char>)>, Seq<char>>(qs),
                first_query_error(qs, 0) == first_query_error(qs, i as nat),
            decreases queries.len() - i,
        {
            assert(qs[i as int] == (queries@[i as int].0@, queries@[i as int].1@));
            let last = Self::is_last_of_key(&queries, i);
            if last {
                let key = queries[i].0.as_str();
                let field = queries[i].1.as_str();
                if text_eq(key, "state") {
                    if !(text_eq(field, "open") || text_eq(field, "closed") || text_eq(field, "all")) {
                        let mut m = String::from_str("Invalid state query: ");
                        push_text(&mut m, field);
                        return Err(ErrorType::HTTPError(HTTPError::BadRequest(m)));
                    }
                } else if !text_eq(key, "base") {
                    let mut m = String::from_str("Invalid query ");
                    push_text(&mut m, key);
                    return Err(ErrorType::HTTPError(HTTPError::BadRequest(m)));
                }
            }
            i = i + 1;
        }
        let ghost f = |pr: PullRequest| passes_all(pr, qs);
        let ghost all = list@;
        let mut kept: Vec<PullRequest> = Vec::new();
        let mut rest = list;
        let ghost mut done: int = 0;
        while rest.len() > 0
            invariant
                0 <= done <= all.len(),
                rest@ == all.subrange(done, all.len() as int),
                kept@ == all.subrange(0, done).filter(f),
                qs == pair_views(queries@),
                first_query_error(qs, 0) is None,
                f == (|pr: PullRequest| passes_all(pr, qs)),
            decreases rest.len(),
        {
            let ghost before = kept@;
            let ghost cur = all.subrange(0, done + 1);
            let pr = rest.remove(0);
            let keep = Self::passes_queries(&pr, &queries);
            assert(f(pr) == keep);
            proof {
                reveal(Seq::filter);
                assert(cur.drop_last() =~= all.subrange(0, done));
                assert(cur.last() == pr);
                assert(cur.filter(f) == (if f(cur.last()) { before.push(cur.last()) } else { before }));
            }
            if keep {
                kept.push(pr);
            }
            proof {
                assert(kept@ == cur.filter(f));
                done = done + 1;
                assert(rest@ =~= all.subrange(done, all.len() as int));
            }
        }
        assert(all.subrange(0, done) =~= all);
        Ok(kept)
    }

    /// Whether the pair at `i` is the last with its key.
    fn is_last_of_key(queries: &Vec<(String, String)>, i: usize) -> (r: bool)
        requires
            i < queries.len(),
        ensures
            r == last_of_key(pair_views(queries@), i as int),
    {
        let ghost qs = pair_views(queries@);
        let mut j: usize = i + 1;
        while j < queries.len()
            invariant
                i < j <= queries@.len(),
                qs == pair_views(queries@),
                forall|t: int| i < t < j ==> qs[t].0 != qs[i as int].0,
            decreases queries.len() - j,
        {
            assert(qs[j as int].0 == queries@[j as int].0@ && qs[i as int].0 == queries@[i as int].0@);
            if text_eq(queries[j].0.as_str(), queries[i].0.as_str()) {
                return false;
            }
            j = j + 1;
        }
        true
    }

    /// Whether a pull request passes every query that counts, the queries
    /// being known ones.
    fn passes_queries(pr: &PullRequest, queries: &Vec<(String, String)>) -> (r: bool)
        requires
            first_query_error(pair_views(queries@), 0) is None,
        ensures
            r == passes_all(*pr, pair_views(queries@)),
    {
        let ghost qs = pair_views(queries@);
        let mut i: usize = 0;
        while i < queries.len()
            invariant
                i <= queries@.len(),
                qs == pair_views(queries@),
                first_query_error(qs, 0) is None,
                forall|t: int| 0 <= t < i && last_of_key(qs, t) ==> #[trigger] passes(*pr, qs[t]),
            decreases queries.len() - i,
        {
            assert(qs[i as int] == (queries@[i as int].0@, queries@[i as int].1@));
            if Self::is_last_of_key(queries, i) {
                let key = queries[i].0.as_str();
                let field = queries[i].1.as_str();
                let ok = if text_eq(key, "state") {
                    if text_eq(field, "open") {
                        pr.is_open()
                    } else if text_eq(field, "closed") {
                        !pr.is_open()
                    } else {
                        true
                    }
                } else {
                    text_eq(pr.branch_base.as_str(), field)
                };
                assert(passes(*pr, qs[i as int]) == ok);
                if !ok {
                    assert(last_of_key(qs, i as int));
                    return false;
                }
            }
            i = i + 1;
        }
        true
    }
}

/// Once a line is no header, the error stays for longer prefixes.
proof fn lemma_headers_err_stays(lines: Seq<Seq<char>>, n: nat, m: nat)
    requires
        headers_upto(lines, n) is Err,
        n <= m,
    ensures
        headers_upto(lines, m) == headers_upto(lines, n),
    decreases m - n,
{
    if n < m {
        lemma_headers_err_stays(lines, n, (m - 1) as nat);
    }
}

/// Once a query is no pair, the error stays for longer prefixes.
proof fn lemma_queries_err_stays(qs: Seq<Seq<char>>, n: nat, m: nat)
    requires
        queries_upto(qs, n) is Err,
        n <= m,
    ensures
        queries_upto(qs, m) == queries_upto(qs, n),
    decreases m - n,
{
    if n < m {
        lemma_queries_err_stays(qs, n, (m - 1) as nat);
    }
}


/// What the body of a request that creates a pull request gives: the base
/// and target (`head`) branch names and the title, if any; or the text of
/// the error.
pub open spec fn create_body_spec(body: Seq<char>) -> Result<(Seq<char>, Seq<char>, Option<Seq<char>>), Seq<char>> {
    match json_string_member(body, "base"@, None) {
        None => Err("Error deserializing http request body"@),
        Some(None) => Err("Error reading branch_base from http request body"@),
        Some(Some(base)) => match json_string_member(body, "head"@, None) {
            None => Err("Error deserializing http request body"@),
            Some(None) => Err("Error reading branch_target from http request body"@),
            Some(Some(head)) => Ok((base, head, match json_string_member(body, "title"@, None) {
                Some(Some(t)) => Some(t),
                _ => None,
            })),
        },
    }
}

/// What the body of a request that merges a pull request gives: the user's
/// name and mail and the message; or the text of the error.
pub open spec fn merge_body_spec(body: Seq<char>) -> Result<(Seq<char>, Seq<char>, Seq<char>), Seq<char>> {
    match json_object_member(body, "user"@) {
        None => Err("Error deserializing http request body"@),
        Some(false) => Err("Error reading user from http request body"@),
        Some(true) => match (json_string_member(body, "user"@, Some("name"@)), json_string_member(body, "user"@, Some("mail"@))) {
            (Some(Some(n)), Some(Some(m))) => match json_string_member(body, "message"@, None) {
                Some(Some(msg)) => Ok((n, m, msg)),
                _ => Err("Error reading message from http request body"@),
            },
            _ => Err("Error deserializing user from http request body"@),
        },
    }
}

impl HTTPRequest {
    /// Reads the base and target branch names and the optional title from the
    /// JSON body of a request that creates a pull request.
    pub fn parse_json_create_body(json_body: &str) -> (r: Result<(String, String, Option<String>), ErrorType>)
        ensures
            match create_body_spec(json_body@) {
                Ok((b, h, t)) => r matches Ok((rb, rh, rt)) && rb@ == b && rh@ == h && opt_string_view(rt) == t,
                Err(m) => r matches Err(ErrorType::RepositoryError(e)) && e@ == m,
            },
    {
        let base = match json_string_at(json_body, "base", None) {
            None => return Err(ErrorType::RepositoryError(String::from_str("Error deserializing http request body"))),
            Some(None) => return Err(ErrorType::RepositoryError(String::from_str("Error reading branch_base from http request body"))),
            Some(Some(b)) => b,
        };
        let head = match json_string_at(json_body, "head", None) {
            None => return Err(ErrorType::RepositoryError(String::from_str("Error deserializing http request body"))),
            Some(None) => return Err(ErrorType::RepositoryError(String::from_str("Error reading branch_target from http request body"))),
            Some(Some(h)) => h,
        };
        let title = match json_string_at(json_body, "title", None) {
            Some(Some(t)) => Some(t),
            _ => None,
        };
        Ok((base, head, title))
    }

    /// Reads the user and the message from the JSON body of a request that
    /// merges a pull request.
    pub fn parse_json_merge_body(json_body: &str) -> (r: Result<(User, String), ErrorType>)
        ensures
            match merge_body_spec(json_body@) {
                Ok((n, m, msg)) => r matches Ok((u, rm)) && u.name_view() == n && u.mail_view() == m && rm@ == msg,
                Err(m) => r matches Err(ErrorType::RepositoryError(e)) && e@ == m,
            },
    {
        match json_object_at(json_body, "user") {
            None => return Err(ErrorType::RepositoryError(String::from_str("Error deserializing http request body"))),
            Some(false) => return Err(ErrorType::RepositoryError(String::from_str("Error reading user from http request body"))),
            Some(true) => {},
        }
        let name = json_string_at(json_body, "user", Some("name"));
        let mail = json_string_at(json_body, "user", Some("mail"));
        let user = match (name, mail) {
            (Some(Some(n)), Some(Some(m))) => User::new(n.as_str(), m.as_str()),
            _ => return Err(ErrorType::RepositoryError(String::from_str("Error deserializing user from http request body"))),
        };
        match json_string_at(json_body, "message", None) {
            Some(Some(msg)) => Ok((user, msg)),
            _ => Err(ErrorType::RepositoryError(String::from_str("Error reading message from http request body"))),
        }
    }

    /// The JSON answer to a merged pull request.
    pub fn merged_answer(message: &str) -> (r: String)
        ensures
            r@ == merged_answer(message@),
    {
        let mut r = String::from_str("{\"merged\": true, \"message\": \"");
        push_text(&mut r, message);
        push_text(&mut r, "\"}");
        r
    }

    /// Applies the changes of a request's JSON body to a pull request: a new
    /// title, a new state and a new base branch, each where the body holds it
    /// (the base must be among the given branch files, by name and text).
    pub fn patch_pull_request(pr: &mut PullRequest, json_body: &str, branch_files: &Vec<(String, String)>, path_branches: &str) -> (r: Result<(), ErrorType>)
        ensures
            json_string_member(json_body@, "title"@, None) is None ==> (r matches Err(ErrorType::RepositoryError(e))
                && e@ == "Error deserializing http request body"@),
            json_string_member(json_body@, "title"@, None) matches Some(t) ==> match t {
                Some(title) => final(pr).title@ == title,
                None => final(pr).title == old(pr).title,
            },
            final(pr).number == old(pr).number,
            final(pr).branch_target == old(pr).branch_target,
            final(pr).hash_creation_commit == old(pr).hash_creation_commit,
            r is Ok ==> match json_string_member(json_body@, "state"@, None) {
                Some(Some(st)) => final(pr).state@ == st,
                _ => final(pr).state == old(pr).state,
            },
            r is Ok ==> match json_string_member(json_body@, "base"@, None) {
                Some(Some(b)) => final(pr).branch_base@ == b,
                _ => final(pr).branch_base == old(pr).branch_base,
            },
    {
        let title = match json_string_at(json_body, "title", None) {
            None => return Err(ErrorType::RepositoryError(String::from_str("Error deserializing http request body"))),
            Some(t) => t,
        };
        if let Some(t) = title {
            pr.set_title(t.as_str());
        }
        match json_string_at(json_body, "state", None) {
            Some(Some(st)) => {
                match pr.set_state(st.as_str()) {
                    Ok(()) => {},
                    Err(e) => return Err(e),
                }
            },
            _ => {},
        }
        match json_string_at(json_body, "base", None) {
            Some(Some(b)) => {
                let file = match find_key(branch_files, b.as_str()) {
                    Some(k) => Some(branch_files[k].1.as_str()),
                    None => None,
                };
                match pr.set_base(b.as_str(), file, path_branches) {
                    Ok(()) => {},
                    Err(e) => return Err(e),
                }
            },
            _ => {},
        }
        Ok(())
    }
}

} // verus!
