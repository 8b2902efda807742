//! The response serializer: a structured response in, the exact wire
//! bytes out.
//!
//! The framing is strict where the parser is lenient: the Content-Length
//! header is always computed from the byte length of the body actually
//! emitted, never taken from the caller.

use vstd::prelude::*;

use crate::request::{all_digits, digits_value, is_digit};
use vstd::string::StringSliceAdditionalSpecFns;
use vstd::utf8::encode_utf8;

verus! {

/// The closed set of status codes the server emits.
#[derive(Clone, Copy, Debug, PartialEq, Eq, Structural)]
pub enum StatusCode {
    Okay,
    Created,
    NotFound,
    InternalServerError,
}

/// What a response carries: text, raw bytes, or nothing.
#[derive(Debug, Clone)]
pub enum Body {
    Text(String),
    BinaryData(Vec<u8>),
    Empty,
}

/// A response about to be put on the wire.
#[derive(Debug, Clone)]
pub struct HttpResponse {
    pub status_code: StatusCode,
    pub body: Body,
}

/// The fixed code-and-reason text of each status.
pub open spec fn status_text(s: StatusCode) -> Seq<char> {
    match s {
        StatusCode::Okay => "200 OK"@,
        StatusCode::Created => "201 Created"@,
        StatusCode::NotFound => "404 Not Found"@,
        StatusCode::InternalServerError => "500 Internal Server Error"@,
    }
}

/// The status line, `HTTP/1.1 <code> <reason>\r\n`, as bytes.
pub open spec fn status_line(s: StatusCode) -> Seq<u8> {
    encode_utf8("HTTP/1.1 "@) + encode_utf8(status_text(s)) + encode_utf8("\r\n"@)
}

/// The decimal digits of `n`, most significant first.
pub open spec fn dec_digits(n: nat) -> Seq<u8>
    decreases n,
{
    if n < 10 {
        seq![(48 + n) as u8]
    } else {
        dec_digits(n / 10).push((48 + n % 10) as u8)
    }
}

/// The exact wire bytes of a response: the status line; for a nonempty
/// body variant a Content-Type and a Content-Length computed from the
/// body's byte length, a blank line, the body bytes, and a trailing blank
/// line; for `Empty` only the blank line after the status line.
pub open spec fn spec_serialize(r: HttpResponse) -> Seq<u8> {
    match r.body {
        Body::Text(s) => status_line(r.status_code) + encode_utf8(
            "Content-Type: text/plain\r\nContent-Length: "@,
        ) + dec_digits(encode_utf8(s@).len()) + encode_utf8("\r\n\r\n"@) + encode_utf8(s@)
            + encode_utf8("\r\n\r\n"@),
        Body::BinaryData(d) => status_line(r.status_code) + encode_utf8(
            "Content-Type: application/octet-stream\r\nContent-Length: "@,
        ) + dec_digits(d@.len()) + encode_utf8("\r\n\r\n"@) + d@ + encode_utf8("\r\n\r\n"@),
        Body::Empty => status_line(r.status_code) + encode_utf8("\r\n"@),
    }
}

/// Append the bytes of a slice.
fn push_slice(out: &mut Vec<u8>, s: &[u8])
    ensures
        final(out)@ == old(out)@ + s@,
{
    let ghost base = out@;
    let mut i: usize = 0;
    proof {
        assert(out@ =~= base + s@.take(0));
    }
    while i < s.len()
        invariant
            i <= s@.len(),
            out@ == base + s@.take(i as int),
        decreases s@.len() - i,
    {
        out.push(s[i]);
        i = i + 1;
        proof {
            assert(s@.take(i as int) =~= s@.take(i - 1).push(s@[i - 1]));
            assert(out@ =~= base + s@.take(i as int));
        }
    }
    proof {
        assert(s@.take(s@.len() as int) =~= s@);
    }
}

/// Append the UTF-8 bytes of a string.
fn push_str(out: &mut Vec<u8>, s: &str)
    ensures
        final(out)@ == old(out)@ + encode_utf8(s@),
{
    push_slice(out, s.as_bytes());
}

/// Append the decimal digits of `n`.
fn push_dec(out: &mut Vec<u8>, n: usize)
    ensures
        final(out)@ == old(out)@ + dec_digits(n as nat),
    decreases n,
{
    if n < 10 {
        out.push(48 + (n as u8));
    } else {
        push_dec(out, n / 10);
        out.push(48 + ((n % 10) as u8));
    }
}

/// The digits printed for `n` denote `n` again: decimal rendering loses
/// nothing.
pub proof fn lemma_dec_digits_value(n: nat)
    ensures
        all_digits(dec_digits(n)),
        digits_value(dec_digits(n)) == n,
        dec_digits(n).len() >= 1,
    decreases n,
{
    if n < 10 {
        let d = dec_digits(n);
        assert(d =~= seq![(48 + n) as u8]);
        assert(d.last() == (48 + n) as u8);
        assert(d.drop_last() =~= Seq::<u8>::empty());
        assert(digits_value(d.drop_last()) == 0);
        assert(digits_value(d) == digits_value(d.drop_last()) * 10 + (d.last() - 48));
        assert(d.last() == 48 + n);
        assert(is_digit(d[0]));
    } else {
        lemma_dec_digits_value(n / 10);
        let d = dec_digits(n);
        assert(d == dec_digits(n / 10).push((48 + n % 10) as u8));
        assert(d.drop_last() =~= dec_digits(n / 10));
        assert(digits_value(d) == digits_value(d.drop_last()) * 10 + (d.last() - 48));
        assert(digits_value(d.drop_last()) == n / 10);
        assert(d.last() == (48 + n % 10) as u8);
        assert(d.last() == 48 + n % 10);
        assert(digits_value(d) == (n / 10) * 10 + n % 10);
        vstd::arithmetic::div_mod::lemma_fundamental_div_mod(n as int, 10);
        assert(digits_value(d) == n);
        assert(is_digit(d.last()));
        assert(forall|i: int| 0 <= i < d.len() - 1 ==> #[trigger] d[i] == dec_digits(n / 10)[i]);
        assert(all_digits(d));
    }
}

impl HttpResponse {
    /// A bare 200 response.
    pub fn ok() -> (r: Self)
        ensures
            r.status_code == StatusCode::Okay,
            r.body is Empty,
    {
        HttpResponse::new(StatusCode::Okay, Body::Empty)
    }

    /// A bare 404 response.
    pub fn not_found() -> (r: Self)
        ensures
            r.status_code == StatusCode::NotFound,
            r.body is Empty,
    {
        HttpResponse::new(StatusCode::NotFound, Body::Empty)
    }

    pub fn new(status_code: StatusCode, body: Body) -> (r: Self)
        ensures
            r.status_code == status_code,
            r.body == body,
    {
        HttpResponse { status_code, body }
    }

    /// Serialize onto the wire. The output is a function of the response
    /// value alone, so serializing twice gives byte-identical output.
    pub fn to_bytes(&self) -> (r: Vec<u8>)
        ensures
            r@ == spec_serialize(*self),
    {
        let mut out: Vec<u8> = Vec::new();
        push_str(&mut out, "HTTP/1.1 ");
        match self.status_code {
            StatusCode::Okay => push_str(&mut out, "200 OK"),
            StatusCode::Created => push_str(&mut out, "201 Created"),
            StatusCode::NotFound => push_str(&mut out, "404 Not Found"),
            StatusCode::InternalServerError => push_str(
                &mut out,
                "500 Internal Server Error",
            ),
        }
        push_str(&mut out, "\r\n");
        proof {
            assert(out@ =~= status_line(self.status_code));
        }
        match &self.body {
            Body::Text(s) => {
                push_str(&mut out, "Content-Type: text/plain\r\nContent-Length: ");
                let body_bytes = s.as_str().as_bytes();
                push_dec(&mut out, body_bytes.len());
                push_str(&mut out, "\r\n\r\n");
                push_slice(&mut out, body_bytes);
                push_str(&mut out, "\r\n\r\n");
                proof {
                    assert(out@ =~= spec_serialize(*self));
                }
            },
            Body::BinaryData(d) => {
                push_str(&mut out, "Content-Type: application/octet-stream\r\nContent-Length: ");
                push_dec(&mut out, d.len());
                push_str(&mut out, "\r\n\r\n");
                push_slice(&mut out, d.as_slice());
                push_str(&mut out, "\r\n\r\n");
                proof {
                    assert(out@ =~= spec_serialize(*self));
                }
            },
            Body::Empty => {
                push_str(&mut out, "\r\n");
                proof {
                    assert(out@ =~= spec_serialize(*self));
                }
            },
        }
        out
    }
}

/// The 500 response a connection handler answers with when it cannot
/// serve: the error's description as a text body.
pub fn error_response(e: &crate::errors::HttpError) -> (r: HttpResponse)
    ensures
        r.status_code == StatusCode::InternalServerError,
        r.body matches Body::Text(s) && s@ == e.spec_message(),
{
    HttpResponse::new(StatusCode::InternalServerError, Body::Text(e.message()))
}

/// The framing law for text bodies: the serialized output is the header
/// bytes, then exactly the body's bytes, and the Content-Length digits in
/// the output denote exactly that byte count.
pub proof fn lemma_text_content_length(r: HttpResponse)
    requires
        r.body is Text,
    ensures
        ({
            let body = encode_utf8(r.body->Text_0@);
            &&& spec_serialize(r) == status_line(r.status_code) + encode_utf8(
                "Content-Type: text/plain\r\nContent-Length: "@,
            ) + dec_digits(body.len()) + encode_utf8("\r\n\r\n"@) + body + encode_utf8(
                "\r\n\r\n"@,
            )
            &&& digits_value(dec_digits(body.len())) == body.len()
        }),
{
    let body = encode_utf8(r.body->Text_0@);
    lemma_dec_digits_value(body.len());
}

} // verus!
