//! The route table: a pure function from a parsed request and the server
//! options to a response, or to an order to serve a file.
//!
//! Everything here is decided from the request alone; reading the file a
//! `ServeFile` action names is the caller's business, and `file_response`
//! turns whatever that read yielded back into a response.

use vstd::prelude::*;

use crate::cli::CliOption;
use crate::errors::HttpError;
use crate::request::{Header, HttpRequest, Method};
use crate::response::{Body, HttpResponse, StatusCode};
use crate::split::{
    join_on, lemma_join_split, lemma_split_on_concat, lemma_split_on_len, lemma_split_on_no_sep,
    split_on,
};
use crate::text::str_eq_str;

verus! {

/// What routing decides: a finished response, or an order to read the
/// named file and answer from its contents.
pub enum RouteAction {
    Respond(HttpResponse),
    ServeFile(String),
}

/// Route prefix match as the route table has it: the path is the route
/// exactly, or continues it with a path or query separator.
pub open spec fn spec_is_matching(path: Seq<char>, route: Seq<char>) -> bool {
    ||| path == route
    ||| (path.len() > route.len() && path.take(route.len() as int) == route && (path[
        route.len() as int
    ] == '/' || path[route.len() as int] == '?'))
}

/// The path segments after the second, rejoined with `/`; empty when the
/// path has no third segment.
pub open spec fn echo_rest(path: Seq<char>) -> Seq<char> {
    let parts = split_on(path, '/');
    if parts.len() <= 2 {
        Seq::empty()
    } else {
        join_on(parts.skip(2), '/')
    }
}

/// The value of the first header with the given name (case matters).
pub open spec fn first_value(hs: Seq<Header>, name: Seq<char>) -> Option<Seq<char>>
    decreases hs.len(),
{
    if hs.len() == 0 {
        None
    } else if hs[0].name@ == name {
        Some(hs[0].value@)
    } else {
        first_value(hs.drop_first(), name)
    }
}

/// The base directory for file serving: the first option, if any was given.
pub open spec fn first_directory(opts: Seq<CliOption>) -> Option<Seq<char>> {
    if opts.len() == 0 {
        None
    } else {
        Some(opts[0]->Directory_0@)
    }
}

/// The file that `GET /files/...` serves: the configured directory, a
/// separator unless the directory already ends with one, and the path
/// segments after the second rejoined with `/`.
pub open spec fn file_path_of(dir: Seq<char>, path: Seq<char>) -> Seq<char> {
    let sep: Seq<char> = if dir.len() > 0 && dir.last() == '/' {
        Seq::empty()
    } else {
        seq!['/']
    };
    dir + sep + echo_rest(path)
}

/// A 200 action carrying the given text.
pub open spec fn is_text_ok(r: RouteAction, t: Seq<char>) -> bool {
    &&& r matches RouteAction::Respond(resp)
    &&& r->Respond_0.status_code == StatusCode::Okay
    &&& r->Respond_0.body matches Body::Text(s) && s@ == t
}

/// An action carrying a bare response with the given status and no body.
pub open spec fn is_bare(r: RouteAction, st: StatusCode) -> bool {
    &&& r matches RouteAction::Respond(resp)
    &&& r->Respond_0.status_code == st
    &&& r->Respond_0.body is Empty
}

/// The route table, as a relation between a request, the options, and the
/// outcome routing owes for it.
pub open spec fn route_spec(
    req: HttpRequest,
    opts: Seq<CliOption>,
    r: Result<RouteAction, HttpError>,
) -> bool {
    let path = req.path@;
    if req.method == Method::GET && path == "/"@ {
        r matches Ok(a) && is_bare(a, StatusCode::Okay)
    } else if req.method == Method::GET && spec_is_matching(path, "/echo"@) {
        r matches Ok(a) && is_text_ok(a, echo_rest(path))
    } else if req.method == Method::GET && spec_is_matching(path, "/user-agent"@) {
        match first_value(req.headers@, "User-Agent"@) {
            Some(v) => r matches Ok(a) && is_text_ok(a, v),
            None => r == Err::<RouteAction, HttpError>(HttpError::DispatchFailure),
        }
    } else if req.method == Method::GET && spec_is_matching(path, "/files"@) {
        match first_directory(opts) {
            None => r matches Ok(a) && is_bare(a, StatusCode::NotFound),
            Some(dir) => if split_on(path, '/').len() < 3 {
                r matches Ok(a) && is_bare(a, StatusCode::NotFound)
            } else {
                r matches Ok(a) && a matches RouteAction::ServeFile(p) && p@ == file_path_of(
                    dir,
                    path,
                )
            },
        }
    } else if req.method == Method::POST && spec_is_matching(path, "/files"@) {
        r matches Ok(a) && is_bare(a, StatusCode::Okay)
    } else {
        r matches Ok(a) && is_bare(a, StatusCode::NotFound)
    }
}

/// Exec counterpart of `spec_is_matching`.
fn is_matching(path: &str, route: &str) -> (r: bool)
    ensures
        r == spec_is_matching(path@, route@),
{
    let plen = path.unicode_len();
    let rlen = route.unicode_len();
    if plen < rlen {
        return false;
    }
    let mut i: usize = 0;
    while i < rlen
        invariant
            i <= rlen,
            plen == path@.len(),
            rlen == route@.len(),
            plen >= rlen,
            forall|j: int| 0 <= j < i ==> path@[j] == route@[j],
        decreases rlen - i,
    {
        if path.get_char(i) != route.get_char(i) {
            proof {
                assert(path@[i as int] != route@[i as int]);
                if path@.take(rlen as int) == route@ {
                    assert(path@.take(rlen as int)[i as int] == path@[i as int]);
                }
            }
            return false;
        }
        i = i + 1;
    }
    if plen == rlen {
        proof {
            assert(path@ =~= route@);
        }
        true
    } else {
        proof {
            assert(path@.take(rlen as int) =~= route@);
        }
        let c = path.get_char(rlen);
        c == '/' || c == '?'
    }
}

/// The first position of `c` in `s` at or after `from`.
fn find_char_from(s: &str, from: usize, c: char) -> (r: Option<usize>)
    requires
        from <= s@.len(),
    ensures
        s@.len() <= usize::MAX,
        match r {
            Some(i) => from <= i < s@.len() && s@[i as int] == c && forall|j: int|
                from <= j < i ==> s@[j] != c,
            None => forall|j: int| from <= j < s@.len() ==> s@[j] != c,
        },
{
    let n = s.unicode_len();
    let mut i: usize = from;
    while i < n
        invariant
            from <= i <= n,
            n == s@.len(),
            forall|j: int| from <= j < i ==> s@[j] != c,
        decreases n - i,
    {
        if s.get_char(i) == c {
            return Some(i);
        }
        i = i + 1;
    }
    None
}

/// A path without a separator is one segment, with nothing after the
/// second.
proof fn lemma_no_slash(path: Seq<char>)
    requires
        forall|j: int| 0 <= j < path.len() ==> path[j] != '/',
    ensures
        split_on(path, '/').len() == 1,
        echo_rest(path) == Seq::<char>::empty(),
{
    lemma_split_on_no_sep(path, '/');
}

/// A path with exactly one separator is two segments, with nothing after
/// the second.
proof fn lemma_one_slash(path: Seq<char>, i1: int)
    requires
        0 <= i1 < path.len(),
        path[i1] == '/',
        forall|j: int| 0 <= j < i1 ==> path[j] != '/',
        forall|j: int| i1 < j < path.len() ==> path[j] != '/',
    ensures
        split_on(path, '/').len() == 2,
        echo_rest(path) == Seq::<char>::empty(),
{
    let a = path.take(i1);
    let b = path.skip(i1 + 1);
    assert(path =~= a + seq!['/'] + b);
    lemma_split_on_no_sep(b, '/');
    lemma_split_on_concat(a, b, '/');
    assert(split_on(path, '/') =~~= seq![a, b]);
}

/// After two separators, a path has a third segment, and the segments
/// after the second rejoin to exactly the characters past the second
/// separator.
proof fn lemma_two_slashes(path: Seq<char>, i1: int, i2: int)
    requires
        0 <= i1 < i2 < path.len(),
        path[i1] == '/',
        path[i2] == '/',
        forall|j: int| 0 <= j < i1 ==> path[j] != '/',
        forall|j: int| i1 < j < i2 ==> path[j] != '/',
    ensures
        split_on(path, '/').len() >= 3,
        echo_rest(path) == path.skip(i2 + 1),
{
    let a = path.take(i1);
    let b = path.subrange(i1 + 1, i2);
    let c = path.skip(i2 + 1);
    assert(path =~= a + seq!['/'] + (b + seq!['/'] + c));
    lemma_split_on_concat(a, b + seq!['/'] + c, '/');
    lemma_split_on_concat(b, c, '/');
    lemma_split_on_len(c, '/');
    assert(split_on(path, '/') =~~= seq![a, b] + split_on(c, '/'));
    assert(split_on(path, '/').skip(2) =~~= split_on(c, '/'));
    lemma_join_split(c, '/');
}

/// The text the echo route answers with: everything after the second `/`.
fn echo_body(path: &str) -> (r: String)
    ensures
        r@ == echo_rest(path@),
{
    let n = path.unicode_len();
    match find_char_from(path, 0, '/') {
        None => {
            proof {
                lemma_no_slash(path@);
            }
            String::new()
        },
        Some(i1) => {
            match find_char_from(path, i1 + 1, '/') {
                None => {
                    proof {
                        lemma_one_slash(path@, i1 as int);
                    }
                    String::new()
                },
                Some(i2) => {
                    let rest = path.substring_char(i2 + 1, n);
                    proof {
                        lemma_two_slashes(path@, i1 as int, i2 as int);
                    }
                    String::from_str(rest)
                },
            }
        },
    }
}

proof fn lemma_first_value_at(hs: Seq<Header>, name: Seq<char>, i: int)
    requires
        0 <= i < hs.len(),
        hs[i].name@ == name,
        forall|j: int| 0 <= j < i ==> (#[trigger] hs[j]).name@ != name,
    ensures
        first_value(hs, name) == Some(hs[i].value@),
    decreases i,
{
    if i > 0 {
        assert(forall|j: int|
            0 <= j < i - 1 ==> #[trigger] hs.drop_first()[j] == hs[j + 1]);
        lemma_first_value_at(hs.drop_first(), name, i - 1);
    }
}

proof fn lemma_first_value_none(hs: Seq<Header>, name: Seq<char>)
    requires
        forall|j: int| 0 <= j < hs.len() ==> (#[trigger] hs[j]).name@ != name,
    ensures
        first_value(hs, name) is None,
    decreases hs.len(),
{
    if hs.len() > 0 {
        assert(forall|j: int|
            0 <= j < hs.len() - 1 ==> #[trigger] hs.drop_first()[j] == hs[j + 1]);
        lemma_first_value_none(hs.drop_first(), name);
    }
}

fn handle_route_unknown(_request: &HttpRequest, _options: &Vec<CliOption>) -> (r: Result<
    RouteAction,
    HttpError,
>)
    ensures
        r matches Ok(a) && is_bare(a, StatusCode::NotFound),
{
    Ok(RouteAction::Respond(HttpResponse::not_found()))
}

fn get_root(_request: &HttpRequest, _options: &Vec<CliOption>) -> (r: Result<
    RouteAction,
    HttpError,
>)
    ensures
        r matches Ok(a) && is_bare(a, StatusCode::Okay),
{
    Ok(RouteAction::Respond(HttpResponse::ok()))
}

fn get_echo(request: &HttpRequest, _options: &Vec<CliOption>) -> (r: Result<
    RouteAction,
    HttpError,
>)
    ensures
        r matches Ok(a) && is_text_ok(a, echo_rest(request.path@)),
{
    let body = echo_body(request.path.as_str());
    Ok(
        RouteAction::Respond(HttpResponse::new(StatusCode::Okay, Body::Text(body))),
    )
}

fn get_user_agent(request: &HttpRequest, _options: &Vec<CliOption>) -> (r: Result<
    RouteAction,
    HttpError,
>)
    ensures
        match first_value(request.headers@, "User-Agent"@) {
            Some(v) => r matches Ok(a) && is_text_ok(a, v),
            None => r == Err::<RouteAction, HttpError>(HttpError::DispatchFailure),
        },
{
    let mut i: usize = 0;
    while i < request.headers.len()
        invariant
            i <= request.headers@.len(),
            forall|j: int|
                0 <= j < i ==> (#[trigger] request.headers@[j]).name@ != "User-Agent"@,
        decreases request.headers@.len() - i,
    {
        if str_eq_str(request.headers[i].name.as_str(), "User-Agent") {
            proof {
                lemma_first_value_at(request.headers@, "User-Agent"@, i as int);
            }
            let value = request.headers[i].value.clone();
            return Ok(
                RouteAction::Respond(HttpResponse::new(StatusCode::Okay, Body::Text(value))),
            );
        }
        i = i + 1;
    }
    proof {
        lemma_first_value_none(request.headers@, "User-Agent"@);
    }
    Err(HttpError::DispatchFailure)
}

fn get_files(request: &HttpRequest, options: &Vec<CliOption>) -> (r: Result<
    RouteAction,
    HttpError,
>)
    ensures
        r matches Ok(a),
        match first_directory(options@) {
            None => r matches Ok(a) && is_bare(a, StatusCode::NotFound),
            Some(dir) => if split_on(request.path@, '/').len() < 3 {
                r matches Ok(a) && is_bare(a, StatusCode::NotFound)
            } else {
                r matches Ok(a) && a matches RouteAction::ServeFile(p) && p@ == file_path_of(
                    dir,
                    request.path@,
                )
            },
        },
{
    if options.len() == 0 {
        return Ok(RouteAction::Respond(HttpResponse::not_found()));
    }
    let dir: &String = match &options[0] {
        CliOption::Directory(d) => d,
    };
    let path = request.path.as_str();
    let ghost pathv = request.path@;

    // The path needs a third slash-separated segment: two separators.
    let enough = match find_char_from(path, 0, '/') {
        None => {
            proof {
                lemma_no_slash(pathv);
            }
            false
        },
        Some(i1) => match find_char_from(path, i1 + 1, '/') {
            None => {
                proof {
                    lemma_one_slash(pathv, i1 as int);
                }
                false
            },
            Some(i2) => {
                proof {
                    lemma_two_slashes(pathv, i1 as int, i2 as int);
                }
                true
            },
        },
    };
    if !enough {
        return Ok(RouteAction::Respond(HttpResponse::not_found()));
    }

    let mut file_path = dir.clone();
    let dlen = file_path.as_str().unicode_len();
    if dlen == 0 || file_path.as_str().get_char(dlen - 1) != '/' {
        file_path.append("/");
        proof {
            reveal_strlit("/");
            assert(file_path@ =~= dir@ + seq!['/']);
        }
    }
    let rest = echo_body(path);
    file_path.append(rest.as_str());
    proof {
        assert(file_path@ =~= file_path_of(dir@, pathv));
    }
    Ok(RouteAction::ServeFile(file_path))
}

fn post_files(_request: &HttpRequest, _options: &Vec<CliOption>) -> (r: Result<
    RouteAction,
    HttpError,
>)
    ensures
        r matches Ok(a) && is_bare(a, StatusCode::Okay),
{
    Ok(RouteAction::Respond(HttpResponse::ok()))
}

/// Dispatch one request against the route table.
pub fn handle_request(request: &HttpRequest, options: &Vec<CliOption>) -> (r: Result<
    RouteAction,
    HttpError,
>)
    ensures
        route_spec(*request, options@, r),
{
    let path = request.path.as_str();
    if request.method == Method::GET && str_eq_str(path, "/") {
        get_root(request, options)
    } else if request.method == Method::GET && is_matching(path, "/echo") {
        get_echo(request, options)
    } else if request.method == Method::GET && is_matching(path, "/user-agent") {
        get_user_agent(request, options)
    } else if request.method == Method::GET && is_matching(path, "/files") {
        get_files(request, options)
    } else if request.method == Method::POST && is_matching(path, "/files") {
        post_files(request, options)
    } else {
        handle_route_unknown(request, options)
    }
}

/// The response a file read earns: the contents as binary data when the
/// read succeeded, a bare 404 when it did not.
pub fn file_response(content: Option<Vec<u8>>) -> (r: HttpResponse)
    ensures
        match content {
            Some(d) => r.status_code == StatusCode::Okay && (r.body matches Body::BinaryData(b)
                && b@ == d@),
            None => r.status_code == StatusCode::NotFound && r.body is Empty,
        },
{
    match content {
        Some(d) => HttpResponse::new(StatusCode::Okay, Body::BinaryData(d)),
        None => HttpResponse::not_found(),
    }
}

} // verus!
