//! The request parser: one raw socket read in, a structured request out.
//!
//! The model (`spec_parse`) frames the buffer exactly as the executable
//! parser does: lines are split at line feeds, the request line at single
//! spaces, header lines at the first `": "`; a `Content-Length` header
//! (matched case-sensitively) makes the trailing bytes of the whole buffer
//! the body. Text fields of the parsed request are the lossy decoding of
//! the corresponding byte tokens.

use vstd::prelude::*;

use crate::errors::HttpError;
use crate::split::{lines_of, split_on, split_on2, COLON, CR, LF, SP};
use crate::text::text_matches;
use vstd::string::StringSliceAdditionalSpecFns;
use vstd::utf8::encode_utf8;

verus! {

/// The closed set of methods the server understands.
#[derive(Clone, Copy, Debug, PartialEq, Eq, Structural)]
pub enum Method {
    GET,
    POST,
}

/// One header line, split into name and value at the first `": "`.
#[derive(Debug)]
pub struct Header {
    pub name: String,
    pub value: String,
}

/// A parsed request. `body` is present exactly when a `Content-Length`
/// header was present and parsed; a declared length of zero gives an
/// empty-but-present body.
#[derive(Debug)]
pub struct HttpRequest {
    pub method: Method,
    pub path: String,
    pub http_version: String,
    pub headers: Vec<Header>,
    pub body: Option<Vec<u8>>,
}

/// A structured request whose text fields are still the raw byte tokens
/// they were framed from.
pub struct SpecRequest {
    pub method: Method,
    pub path: Seq<u8>,
    pub version: Seq<u8>,
    pub headers: Seq<(Seq<u8>, Seq<u8>)>,
    pub body: Option<Seq<u8>>,
}

/// Which method a request-line token denotes, if any.
pub open spec fn method_of(tok: Seq<u8>) -> Option<Method> {
    if tok == encode_utf8("GET"@) {
        Some(Method::GET)
    } else if tok == encode_utf8("POST"@) {
        Some(Method::POST)
    } else {
        None
    }
}

/// A header line parses iff splitting it at `": "` gives exactly two parts.
pub open spec fn header_of(line: Seq<u8>) -> Option<(Seq<u8>, Seq<u8>)> {
    let parts = split_on2(line, COLON, SP);
    if parts.len() == 2 {
        Some((parts[0], parts[1]))
    } else {
        None
    }
}

/// The headers of a block of candidate lines: every line before the first
/// empty one that parses as a header, in order; lines that do not parse
/// are passed over.
pub open spec fn header_block(ls: Seq<Seq<u8>>) -> Seq<(Seq<u8>, Seq<u8>)>
    decreases ls.len(),
{
    if ls.len() == 0 || ls[0].len() == 0 {
        Seq::empty()
    } else {
        match header_of(ls[0]) {
            Some(h) => seq![h] + header_block(ls.drop_first()),
            None => header_block(ls.drop_first()),
        }
    }
}

/// The value of the first header with the given name, compared byte for
/// byte (so case-sensitively).
pub open spec fn find_header(hs: Seq<(Seq<u8>, Seq<u8>)>, name: Seq<u8>) -> Option<Seq<u8>>
    decreases hs.len(),
{
    if hs.len() == 0 {
        None
    } else if hs[0].0 == name {
        Some(hs[0].1)
    } else {
        find_header(hs.drop_first(), name)
    }
}

pub open spec fn content_length_name() -> Seq<u8> {
    encode_utf8("Content-Length"@)
}

pub open spec fn is_digit(b: u8) -> bool {
    48 <= b <= 57
}

pub open spec fn all_digits(d: Seq<u8>) -> bool {
    forall|i: int| 0 <= i < d.len() ==> is_digit(#[trigger] d[i])
}

/// The value denoted by a sequence of ASCII decimal digits.
pub open spec fn digits_value(d: Seq<u8>) -> int
    decreases d.len(),
{
    if d.len() == 0 {
        0
    } else {
        digits_value(d.drop_last()) * 10 + (d.last() - 48)
    }
}

/// The digits of a length value: everything after an optional leading `+`.
pub open spec fn cl_digits(v: Seq<u8>) -> Seq<u8> {
    if v.len() >= 1 && v[0] == 43 {
        v.drop_first()
    } else {
        v
    }
}

/// How `usize::from_str` reads the raw value bytes: an optional leading
/// `+`, then one or more ASCII digits, the value fitting in `usize`.
/// Anything else (including bytes outside ASCII) fails.
pub open spec fn content_length_of(v: Seq<u8>) -> Option<int> {
    let d = cl_digits(v);
    if d.len() == 0 || !all_digits(d) || digits_value(d) > usize::MAX as int {
        None
    } else {
        Some(digits_value(d))
    }
}

/// What parsing a raw buffer yields: a structured request over byte
/// tokens, or the error the buffer earns. A declared Content-Length is
/// trusted, save that one larger than the whole buffer is a defined
/// failure, `TruncatedBody`, rather than a bad slice.
pub open spec fn spec_parse(b: Seq<u8>) -> Result<SpecRequest, HttpError> {
    let ls = lines_of(b);
    if ls.len() == 0 {
        Err(HttpError::MalformedRequestLine)
    } else {
        let toks = split_on(ls[0], SP);
        if toks.len() < 3 {
            Err(HttpError::MalformedRequestLine)
        } else {
            match method_of(toks[0]) {
                None => Err(HttpError::InvalidMethod),
                Some(m) => {
                    let hs = header_block(ls.drop_first());
                    match find_header(hs, content_length_name()) {
                        None => Ok(
                            SpecRequest {
                                method: m,
                                path: toks[1],
                                version: toks[2],
                                headers: hs,
                                body: None,
                            },
                        ),
                        Some(v) => match content_length_of(v) {
                            None => Err(HttpError::InvalidContentLength),
                            Some(n) => if n > b.len() {
                                Err(HttpError::TruncatedBody)
                            } else {
                                Ok(
                                    SpecRequest {
                                        method: m,
                                        path: toks[1],
                                        version: toks[2],
                                        headers: hs,
                                        body: Some(b.skip(b.len() - n)),
                                    },
                                )
                            },
                        },
                    }
                },
            }
        }
    }
}

/// How an executable request realizes the byte-level model: text fields
/// are the lossy decoding of the model's byte tokens, the method and the
/// body bytes are carried unchanged.
pub open spec fn req_matches(req: HttpRequest, sr: SpecRequest) -> bool {
    &&& req.method == sr.method
    &&& text_matches(req.path@, sr.path)
    &&& text_matches(req.http_version@, sr.version)
    &&& req.headers@.len() == sr.headers.len()
    &&& forall|i: int|
        0 <= i < sr.headers.len() ==> text_matches(
            (#[trigger] req.headers@[i]).name@,
            sr.headers[i].0,
        ) && text_matches(req.headers@[i].value@, sr.headers[i].1)
    &&& match (req.body, sr.body) {
        (Some(b), Some(sb)) => b@ == sb,
        (None, None) => true,
        _ => false,
    }
}

proof fn lemma_digits_value_nonneg(d: Seq<u8>)
    requires
        all_digits(d),
    ensures
        digits_value(d) >= 0,
    decreases d.len(),
{
    if d.len() > 0 {
        assert(all_digits(d.drop_last())) by {
            assert(forall|i: int|
                0 <= i < d.len() - 1 ==> #[trigger] d.drop_last()[i] == d[i]);
        }
        lemma_digits_value_nonneg(d.drop_last());
    }
}

/// A prefix of a digit string never denotes more than the whole string.
proof fn lemma_digits_prefix_le(d: Seq<u8>, i: int)
    requires
        all_digits(d),
        0 <= i <= d.len(),
    ensures
        digits_value(d.take(i)) <= digits_value(d),
    decreases d.len() - i,
{
    if i == d.len() {
        assert(d.take(i) =~= d);
    } else {
        lemma_digits_prefix_le(d, i + 1);
        assert(d.take(i + 1).drop_last() =~= d.take(i));
        assert(all_digits(d.take(i + 1)));
        lemma_digits_value_nonneg(d.take(i));
        assert(digits_value(d.take(i + 1)) == digits_value(d.take(i)) * 10 + (d[i] - 48));
        assert(digits_value(d.take(i)) * 10 >= digits_value(d.take(i)));
        assert(d.take(i + 1)[i] == d[i]);
        assert(is_digit(d[i]));
    }
}

/// Exec counterpart of `content_length_of`.
fn parse_content_length(v: &[u8]) -> (r: Option<usize>)
    ensures
        match r {
            Some(n) => content_length_of(v@) == Some(n as int),
            None => content_length_of(v@) is None,
        },
{
    let start: usize = if v.len() >= 1 && v[0] == 43 {
        1
    } else {
        0
    };
    let ghost d = cl_digits(v@);
    proof {
        assert(d =~= v@.subrange(start as int, v@.len() as int));
    }
    if v.len() == start {
        return None;
    }
    let mut acc: usize = 0;
    let mut i: usize = start;
    while i < v.len()
        invariant
            start <= i <= v@.len(),
            start <= 1,
            d == cl_digits(v@),
            d == v@.subrange(start as int, v@.len() as int),
            all_digits(v@.subrange(start as int, i as int)),
            acc == digits_value(v@.subrange(start as int, i as int)),
        decreases v@.len() - i,
    {
        let b = v[i];
        let ghost pre = v@.subrange(start as int, i as int);
        if b < 48 || b > 57 {
            proof {
                assert(d[i - start] == b);
                assert(!all_digits(d));
            }
            return None;
        }
        let digit = (b - 48) as usize;
        if acc > (usize::MAX - digit) / 10 {
            proof {
                let cur = pre.push(b);
                assert(v@.subrange(start as int, i as int + 1) =~= cur);
                assert(cur.drop_last() =~= pre);
                assert(all_digits(cur));
                assert(digits_value(cur) == acc * 10 + digit);
                assert(acc * 10 + digit > usize::MAX as int) by {
                    assert(acc >= (usize::MAX - digit) / 10 + 1);
                    assert(((usize::MAX - digit) / 10 + 1) * 10 > usize::MAX - digit) by (nonlinear_arith);
                    assert(acc * 10 >= ((usize::MAX - digit) / 10 + 1) * 10) by (nonlinear_arith)
                        requires
                            acc >= (usize::MAX - digit) / 10 + 1,
                    ;
                }
                if all_digits(d) {
                    assert(cur =~= d.take(i - start + 1));
                    lemma_digits_prefix_le(d, i - start + 1);
                    assert(digits_value(d) > usize::MAX as int);
                }
            }
            return None;
        }
        proof {
            assert(acc * 10 + digit <= usize::MAX as int) by {
                assert(acc <= (usize::MAX - digit) / 10);
                assert(((usize::MAX - digit) / 10) * 10 <= usize::MAX - digit) by (nonlinear_arith);
                assert(acc * 10 <= ((usize::MAX - digit) / 10) * 10) by (nonlinear_arith)
                    requires
                        acc <= (usize::MAX - digit) / 10,
                ;
            }
            let cur = pre.push(b);
            assert(v@.subrange(start as int, i as int + 1) =~= cur);
            assert(cur.drop_last() =~= pre);
            assert(digits_value(cur) == acc * 10 + digit);
        }
        acc = acc * 10 + digit;
        i = i + 1;
    }
    proof {
        assert(v@.subrange(start as int, i as int) =~= d);
    }
    Some(acc)
}

/// The wire bytes of the two method tokens.
proof fn lemma_method_bytes()
    ensures
        encode_utf8("GET"@) == seq![71u8, 69u8, 84u8],
        encode_utf8("POST"@) == seq![80u8, 79u8, 83u8, 84u8],
{
    reveal_strlit("GET");
    reveal_strlit("POST");
    assert(vstd::utf8::is_ascii_chars("GET"@));
    assert(vstd::utf8::is_ascii_chars("POST"@));
    vstd::utf8::is_ascii_chars_encode_utf8("GET"@);
    vstd::utf8::is_ascii_chars_encode_utf8("POST"@);
    assert(encode_utf8("GET"@) =~= seq![71u8, 69u8, 84u8]);
    assert(encode_utf8("POST"@) =~= seq![80u8, 79u8, 83u8, 84u8]);
}

/// A first line free of line feeds, closed by `\r\n`, is framed off whole:
/// the lines of the buffer are that line and then the lines of the rest.
pub proof fn lemma_lines_concat(line: Seq<u8>, rest: Seq<u8>)
    requires
        forall|i: int| 0 <= i < line.len() ==> line[i] != LF,
    ensures
        lines_of(line + seq![CR, LF] + rest) == seq![line] + lines_of(rest),
{
    let lcr = line + seq![CR];
    let input = line + seq![CR, LF] + rest;
    assert(input =~= lcr + seq![LF] + rest);
    assert(forall|i: int| 0 <= i < lcr.len() ==> lcr[i] != LF);
    crate::split::lemma_split_on_concat(lcr, rest, LF);
    let parts = split_on(input, LF);
    let rparts = split_on(rest, LF);
    crate::split::lemma_split_on_len(rest, LF);
    assert(parts == seq![lcr] + rparts);
    assert(parts.last() == rparts.last());
    assert(crate::split::strip_cr(lcr) =~= line);
    if rparts.last().len() == 0 {
        assert(parts.drop_last() =~= seq![lcr] + rparts.drop_last());
        assert(lines_of(input) =~~= seq![line] + lines_of(rest));
    } else {
        assert(lines_of(input) =~~= seq![line] + lines_of(rest));
    }
}

/// The request-line law over any buffer: whatever follows the first
/// `\r\n`, a first line `METHOD PATH VERSION` with a known method and
/// tokens free of spaces and line feeds never fails the request-line or
/// method checks, and whenever parsing succeeds the parser recovers the
/// three tokens exactly as single spaces delimit them, and the headers
/// are those of the following lines.
pub proof fn lemma_request_line_tokens(
    method: Seq<u8>,
    path: Seq<u8>,
    version: Seq<u8>,
    rest: Seq<u8>,
)
    requires
        method_of(method) is Some,
        forall|i: int| 0 <= i < path.len() ==> path[i] != SP && path[i] != LF,
        forall|i: int| 0 <= i < version.len() ==> version[i] != SP && version[i] != LF,
    ensures
        ({
            let input = method + seq![SP] + path + seq![SP] + version + seq![CR, LF] + rest;
            &&& (spec_parse(input) matches Err(e) ==> e == HttpError::InvalidContentLength || e
                == HttpError::TruncatedBody)
            &&& (spec_parse(input) matches Ok(sr) ==> {
                &&& sr.method == method_of(method)->0
                &&& sr.path == path
                &&& sr.version == version
                &&& sr.headers == header_block(lines_of(rest))
            })
        }),
{
    lemma_method_bytes();
    let line = method + seq![SP] + path + seq![SP] + version;
    let input = method + seq![SP] + path + seq![SP] + version + seq![CR, LF] + rest;
    assert(forall|i: int| 0 <= i < method.len() ==> method[i] != LF && method[i] != SP);
    assert(forall|i: int| 0 <= i < line.len() ==> line[i] != LF);
    assert(input =~= line + seq![CR, LF] + rest);
    lemma_lines_concat(line, rest);
    let ls = lines_of(input);
    assert(ls[0] == line);
    assert(ls.drop_first() =~= lines_of(rest));

    crate::split::lemma_split_on_no_sep(version, SP);
    crate::split::lemma_split_on_concat(path, version, SP);
    assert(line =~= method + seq![SP] + (path + seq![SP] + version));
    crate::split::lemma_split_on_concat(method, path + seq![SP] + version, SP);
    assert(split_on(line, SP) =~~= seq![method, path, version]);
}

/// The request-line law, bare: a line `METHOD PATH VERSION` closed by
/// `\r\n`, with a known method and tokens free of spaces and line feeds,
/// parses, and the parser recovers the three tokens exactly as single
/// spaces delimit them, with no headers and no body.
pub proof fn lemma_request_line_parsed(method: Seq<u8>, path: Seq<u8>, version: Seq<u8>)
    requires
        method_of(method) is Some,
        forall|i: int| 0 <= i < path.len() ==> path[i] != SP && path[i] != LF,
        forall|i: int| 0 <= i < version.len() ==> version[i] != SP && version[i] != LF,
    ensures
        ({
            let input = method + seq![SP] + path + seq![SP] + version + seq![CR, LF];
            &&& spec_parse(input) is Ok
            &&& spec_parse(input)->Ok_0.method == method_of(method)->0
            &&& spec_parse(input)->Ok_0.path == path
            &&& spec_parse(input)->Ok_0.version == version
            &&& spec_parse(input)->Ok_0.headers == Seq::<(Seq<u8>, Seq<u8>)>::empty()
            &&& spec_parse(input)->Ok_0.body is None
        }),
{
    lemma_method_bytes();
    let line = method + seq![SP] + path + seq![SP] + version;
    let lcr = line + seq![CR];
    let input = method + seq![SP] + path + seq![SP] + version + seq![CR, LF];
    assert(input =~= lcr + seq![LF] + Seq::<u8>::empty());

    // One line: the buffer holds no line feed before the final one.
    assert(forall|i: int| 0 <= i < method.len() ==> method[i] != LF && method[i] != SP);
    assert(forall|i: int| 0 <= i < lcr.len() ==> lcr[i] != LF);
    crate::split::lemma_split_on_concat(lcr, Seq::<u8>::empty(), LF);
    assert(split_on(input, LF) == seq![lcr] + split_on(Seq::<u8>::empty(), LF));
    assert(split_on(input, LF) =~~= seq![lcr, Seq::<u8>::empty()]);
    let parts = split_on(input, LF);
    assert(parts.last().len() == 0);
    assert(parts.drop_last() =~= seq![lcr]);
    let ls = lines_of(input);
    assert(lcr.last() == CR);
    assert(crate::split::strip_cr(lcr) =~= line);
    assert(ls =~~= seq![line]);

    // The request line splits into exactly the three tokens.
    crate::split::lemma_split_on_no_sep(version, SP);
    assert(path + seq![SP] + version =~= path + seq![SP] + version);
    crate::split::lemma_split_on_concat(path, version, SP);
    assert(line =~= method + seq![SP] + (path + seq![SP] + version));
    crate::split::lemma_split_on_concat(method, path + seq![SP] + version, SP);
    assert(split_on(line, SP) =~~= seq![method, path, version]);

    // No header lines, hence no Content-Length and no body.
    assert(ls.skip(1) =~= Seq::<Seq<u8>>::empty());
    assert(header_block(ls.skip(1)) =~~= Seq::<(Seq<u8>, Seq<u8>)>::empty());
}

/// The lenient-header law: a line that does not split into exactly two
/// parts at `": "` can stand anywhere in a header block without changing
/// the parsed headers; it is passed over, never a failure (`header_block`
/// is total, so no header line can fail the parse).
pub proof fn lemma_malformed_header_ignored(ls: Seq<Seq<u8>>, i: int, bad: Seq<u8>)
    requires
        0 <= i <= ls.len(),
        bad.len() > 0,
        header_of(bad) is None,
    ensures
        header_block(ls.insert(i, bad)) == header_block(ls),
    decreases i,
{
    if i == 0 {
        assert(ls.insert(0, bad)[0] == bad);
        assert(ls.insert(0, bad).drop_first() =~= ls);
    } else {
        let lsi = ls.insert(i, bad);
        assert(lsi[0] == ls[0]);
        if ls[0].len() == 0 {
        } else {
            assert(lsi.drop_first() =~= ls.drop_first().insert(i - 1, bad));
            lemma_malformed_header_ignored(ls.drop_first(), i - 1, bad);
        }
    }
}

proof fn lemma_find_header_at(hs: Seq<(Seq<u8>, Seq<u8>)>, name: Seq<u8>, i: int)
    requires
        0 <= i < hs.len(),
        hs[i].0 == name,
        forall|j: int| 0 <= j < i ==> (#[trigger] hs[j]).0 != name,
    ensures
        find_header(hs, name) == Some(hs[i].1),
    decreases i,
{
    if i > 0 {
        assert(forall|j: int|
            0 <= j < i - 1 ==> (#[trigger] hs.drop_first()[j]).0 != name) by {
            assert(forall|j: int|
                0 <= j < i - 1 ==> #[trigger] hs.drop_first()[j] == hs[j + 1]);
        }
        lemma_find_header_at(hs.drop_first(), name, i - 1);
    }
}

proof fn lemma_find_header_none(hs: Seq<(Seq<u8>, Seq<u8>)>, name: Seq<u8>)
    requires
        forall|j: int| 0 <= j < hs.len() ==> (#[trigger] hs[j]).0 != name,
    ensures
        find_header(hs, name) is None,
    decreases hs.len(),
{
    if hs.len() > 0 {
        assert(forall|j: int|
            0 <= j < hs.len() - 1 ==> #[trigger] hs.drop_first()[j] == hs[j + 1]);
        lemma_find_header_none(hs.drop_first(), name);
    }
}

/// The header lines after the request line, up to the first empty line,
/// split into byte-level name/value pairs; lines that are no header are
/// passed over.
fn collect_headers(lines: &Vec<Vec<u8>>) -> (r: Vec<(Vec<u8>, Vec<u8>)>)
    requires
        lines@.len() >= 1,
    ensures
        r.deep_view() == header_block(lines.deep_view().skip(1)),
{
    let ghost ls = lines.deep_view();
    let mut hdrs: Vec<(Vec<u8>, Vec<u8>)> = Vec::new();
    let mut i: usize = 1;
    proof {
        assert(hdrs.deep_view() + header_block(ls.skip(1)) =~~= header_block(ls.skip(1)));
    }
    while i < lines.len() && lines[i].len() != 0
        invariant
            1 <= i <= lines@.len(),
            ls == lines.deep_view(),
            header_block(ls.skip(1)) == hdrs.deep_view() + header_block(ls.skip(i as int)),
        decreases lines@.len() - i,
    {
        proof {
            assert(ls[i as int] == lines@[i as int]@);
            assert(ls.skip(i as int)[0] == ls[i as int]);
            assert(ls.skip(i as int).drop_first() =~= ls.skip(i as int + 1));
        }
        let mut parts = crate::split::split_bytes2(lines[i].as_slice(), COLON, SP);
        if parts.len() == 2 {
            let ghost pdv = parts.deep_view();
            let value = parts.pop().unwrap();
            let name = parts.pop().unwrap();
            proof {
                assert(value@ == pdv[1]);
                assert(name@ == pdv[0]);
                assert(header_of(ls[i as int]) == Some((name@, value@)));
            }
            let ghost old_h = hdrs.deep_view();
            hdrs.push((name, value));
            proof {
                assert(hdrs.deep_view() =~~= old_h.push((name@, value@)));
                assert(hdrs.deep_view() + header_block(ls.skip(i as int + 1)) =~~= old_h
                    + (seq![(name@, value@)] + header_block(ls.skip(i as int + 1))));
            }
        } else {
            proof {
                assert(header_of(ls[i as int]) is None);
            }
        }
        i = i + 1;
    }
    proof {
        if i < lines@.len() {
            assert(ls.skip(i as int)[0] == ls[i as int]);
            assert(ls[i as int].len() == 0);
        } else {
            assert(ls.skip(i as int) =~= Seq::<Seq<u8>>::empty());
        }
        assert(header_block(ls.skip(i as int)) =~~= Seq::<(Seq<u8>, Seq<u8>)>::empty());
        assert(hdrs.deep_view() =~~= header_block(ls.skip(1)));
    }
    hdrs
}

impl HttpRequest {
    /// Parse the bytes of one socket read into a structured request, or
    /// say exactly why they do not parse.
    pub fn parse(input: &[u8]) -> (r: Result<HttpRequest, HttpError>)
        ensures
            match r {
                Ok(req) => spec_parse(input@) is Ok && req_matches(req, spec_parse(input@)->Ok_0),
                Err(e) => spec_parse(input@) == Err::<SpecRequest, HttpError>(e),
            },
    {
        let lines = crate::split::lines_bytes(input);
        let ghost ls = lines_of(input@);
        if lines.len() == 0 {
            return Err(HttpError::MalformedRequestLine);
        }
        proof {
            assert(lines.deep_view()[0] == lines@[0]@);
        }
        let toks = crate::split::split_bytes(lines[0].as_slice(), SP);
        let ghost tks = split_on(ls[0], SP);
        if toks.len() < 3 {
            return Err(HttpError::MalformedRequestLine);
        }
        proof {
            assert(toks.deep_view()[0] == toks@[0]@);
            assert(toks.deep_view()[1] == toks@[1]@);
            assert(toks.deep_view()[2] == toks@[2]@);
        }
        let method: Method;
        if crate::text::bytes_eq(toks[0].as_slice(), "GET".as_bytes()) {
            method = Method::GET;
        } else if crate::text::bytes_eq(toks[0].as_slice(), "POST".as_bytes()) {
            method = Method::POST;
        } else {
            proof {
                assert(method_of(tks[0]) is None);
            }
            return Err(HttpError::InvalidMethod);
        }
        assert(method_of(tks[0]) == Some(method));

        let hdrs = collect_headers(&lines);
        let ghost hs = header_block(ls.skip(1));
        proof {
            assert(lines.deep_view().skip(1) =~= ls.skip(1));
        }

        // Look for the first Content-Length header, byte for byte.
        let mut cl_index: usize = 0;
        let mut cl_found = false;
        while cl_index < hdrs.len() && !cl_found
            invariant
                0 <= cl_index <= hdrs@.len(),
                hdrs.deep_view() == hs,
                cl_found ==> cl_index < hdrs@.len() && hs[cl_index as int].0
                    == content_length_name(),
                forall|j: int|
                    0 <= j < cl_index ==> (#[trigger] hs[j]).0 != content_length_name(),
            decreases hdrs@.len() - cl_index + (if cl_found { 0int } else { 1int }),
        {
            proof {
                assert(hs[cl_index as int] == (hdrs@[cl_index as int].0@, hdrs@[
                    cl_index as int].1@));
            }
            if crate::text::bytes_eq(hdrs[cl_index].0.as_slice(), "Content-Length".as_bytes()) {
                cl_found = true;
            } else {
                cl_index = cl_index + 1;
            }
        }

        let body: Option<Vec<u8>>;
        if cl_found {
            proof {
                lemma_find_header_at(hs, content_length_name(), cl_index as int);
            }
            let n_opt = parse_content_length(hdrs[cl_index].1.as_slice());
            proof {
                assert(hdrs@[cl_index as int].1@ == hs[cl_index as int].1);
            }
            match n_opt {
                None => {
                    return Err(HttpError::InvalidContentLength);
                },
                Some(n) => {
                    if n > input.len() {
                        return Err(HttpError::TruncatedBody);
                    }
                    let tail = vstd::slice::slice_subrange(input, input.len() - n, input.len());
                    let b = vstd::slice::slice_to_vec(tail);
                    proof {
                        assert(b@ =~= input@.skip(input@.len() - n));
                    }
                    body = Some(b);
                },
            }
        } else {
            proof {
                lemma_find_header_none(hs, content_length_name());
            }
            body = None;
        }

        // Decode the text fields from their byte tokens.
        let path = crate::text::lossy_string(toks[1].as_slice());
        let http_version = crate::text::lossy_string(toks[2].as_slice());
        let mut headers: Vec<Header> = Vec::new();
        let mut i: usize = 0;
        while i < hdrs.len()
            invariant
                0 <= i <= hdrs@.len(),
                hdrs.deep_view() == hs,
                headers@.len() == i,
                forall|j: int|
                    0 <= j < i ==> text_matches((#[trigger] headers@[j]).name@, hs[j].0)
                        && text_matches(headers@[j].value@, hs[j].1),
            decreases hdrs@.len() - i,
        {
            proof {
                assert(hs[i as int] == (hdrs@[i as int].0@, hdrs@[i as int].1@));
            }
            let name = crate::text::lossy_string(hdrs[i].0.as_slice());
            let value = crate::text::lossy_string(hdrs[i].1.as_slice());
            headers.push(Header { name, value });
            i = i + 1;
        }

        let req = HttpRequest { method, path, http_version, headers, body };
        Ok(req)
    }

    /// The first header whose name equals `name` exactly (case matters),
    /// if there is one.
    pub fn get_header(&self, name: &str) -> (r: Option<&Header>)
        ensures
            match r {
                Some(h) => h.name@ == name@ && exists|i: int|
                    0 <= i < self.headers@.len() && #[trigger] self.headers@[i] == *h && (
                    forall|j: int| 0 <= j < i ==> (#[trigger] self.headers@[j]).name@ != name@),
                None => forall|i: int|
                    0 <= i < self.headers@.len() ==> (#[trigger] self.headers@[i]).name@
                        != name@,
            },
    {
        let mut i: usize = 0;
        while i < self.headers.len()
            invariant
                0 <= i <= self.headers@.len(),
                forall|j: int| 0 <= j < i ==> (#[trigger] self.headers@[j]).name@ != name@,
            decreases self.headers@.len() - i,
        {
            if crate::text::str_eq_str(self.headers[i].name.as_str(), name) {
                return Some(&self.headers[i]);
            }
            i = i + 1;
        }
        None
    }
}

} // verus!
