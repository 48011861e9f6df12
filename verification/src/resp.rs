//! Wire codec, response side.
//!
//! A response is a status, headers, and body bytes. `status_and_headers`
//! renders the status line and header block exactly as written to the wire:
//! `HTTP/1.1 <code> <reason>\r\n`, each header as `Name: Value\r\n` in
//! insertion order (deterministic per call), then a blank line. The
//! application writes that string's bytes and then streams the body.

use vstd::prelude::*;
use vstd::utf8::is_ascii_chars;
use crate::ascii::{ascii_to_string, chars_of_bytes, lemma_chars_of_bytes_ascii};
use crate::decimal::{dec_bytes, push_dec, lemma_dec_bytes_val, is_dec_bytes};
use crate::headers::{Headers, put};

verus! {

#[derive(Debug, Copy, Clone, Eq, PartialEq, Hash, Structural)]
pub enum Status {
    NotFound,
    Okay,
    InternalServerError,
}

/// The code and reason exactly as they stand on the status line.
pub open spec fn status_text(s: Status) -> Seq<char> {
    match s {
        Status::NotFound => "404 Not Found"@,
        Status::Okay => "200 OK"@,
        Status::InternalServerError => "500 Internal Server Error"@,
    }
}

#[derive(Debug)]
pub struct Response {
    pub status: Status,
    pub headers: Headers,
    pub body: Vec<u8>,
}

pub open spec fn ser_resp_headers(hs: Seq<(Seq<char>, Seq<char>)>) -> Seq<char>
    decreases hs.len(),
{
    if hs.len() == 0 {
        Seq::empty()
    } else {
        hs[0].0 + ": "@ + hs[0].1 + "\r\n"@ + ser_resp_headers(hs.drop_first())
    }
}

/// Everything before the body: status line, header lines, blank line.
pub open spec fn ser_resp_head(status: Status, hs: Seq<(Seq<char>, Seq<char>)>) -> Seq<char> {
    "HTTP/1.1 "@ + status_text(status) + "\r\n"@ + ser_resp_headers(hs) + "\r\n"@
}

proof fn lemma_ser_resp_headers_snoc(hs: Seq<(Seq<char>, Seq<char>)>, p: (Seq<char>, Seq<char>))
    ensures
        ser_resp_headers(hs.push(p)) == ser_resp_headers(hs) + (p.0 + ": "@ + p.1 + "\r\n"@),
    decreases hs.len(),
{
    if hs.len() == 0 {
        assert(hs.push(p)[0] == p);
        assert(hs.push(p).drop_first() =~= Seq::<(Seq<char>, Seq<char>)>::empty());
        assert(ser_resp_headers(Seq::<(Seq<char>, Seq<char>)>::empty()) =~= Seq::<char>::empty());
        assert(ser_resp_headers(hs.push(p)) =~= p.0 + ": "@ + p.1 + "\r\n"@);
        assert(ser_resp_headers(hs) + (p.0 + ": "@ + p.1 + "\r\n"@) =~= p.0 + ": "@ + p.1
            + "\r\n"@);
    } else {
        lemma_ser_resp_headers_snoc(hs.drop_first(), p);
        assert(hs.push(p)[0] == hs[0]);
        assert(hs.push(p).drop_first() =~= hs.drop_first().push(p));
        assert((hs[0].0 + ": "@ + hs[0].1 + "\r\n"@) + (ser_resp_headers(hs.drop_first()) + (p.0
            + ": "@ + p.1 + "\r\n"@)) =~= ((hs[0].0 + ": "@ + hs[0].1 + "\r\n"@)
            + ser_resp_headers(hs.drop_first())) + (p.0 + ": "@ + p.1 + "\r\n"@));
    }
}

/// The headers `from_string` builds declare exactly the body's byte count:
/// a `Content-Length` lookup yields the canonical numeral of the length of
/// the encoded body, so what is announced equals what is written.
pub proof fn lemma_from_string_content_length(data: Seq<char>)
    ensures
        ({
            let n = vstd::utf8::encode_utf8(data).len();
            let hs = put(
                put(Seq::<(Seq<char>, Seq<char>)>::empty(), "Content-Type"@, "text/html"@),
                "Content-Length"@,
                chars_of_bytes(dec_bytes(n)),
            );
            &&& crate::headers::lookup(hs, "content-length"@) == Some(
                chars_of_bytes(dec_bytes(n)),
            )
            &&& crate::decimal::dec_val(dec_bytes(n)) == n
        }),
{
    let n = vstd::utf8::encode_utf8(data).len();
    lemma_dec_bytes_val(n);
    assert(crate::ascii::bytes_are_ascii(dec_bytes(n))) by {
        assert(is_dec_bytes(dec_bytes(n)));
    }
    crate::ascii::lemma_chars_of_bytes_ascii(dec_bytes(n));
    reveal_strlit("Content-Type");
    reveal_strlit("text/html");
    reveal_strlit("Content-Length");
    reveal_strlit("content-length");
    assert(is_ascii_chars("Content-Type"@));
    assert(is_ascii_chars("text/html"@));
    assert(is_ascii_chars("Content-Length"@));
    let inner = put(Seq::<(Seq<char>, Seq<char>)>::empty(), "Content-Type"@, "text/html"@);
    crate::headers::lemma_put_wf(
        Seq::<(Seq<char>, Seq<char>)>::empty(),
        "Content-Type"@,
        "text/html"@,
    );
    crate::headers::lemma_put_wf(inner, "Content-Length"@, chars_of_bytes(dec_bytes(n)));
    let hs = put(inner, "Content-Length"@, chars_of_bytes(dec_bytes(n)));
    assert(crate::ascii::lower_chars("Content-Length"@) =~= crate::ascii::lower_chars(
        "content-length"@,
    ));
    crate::headers::lemma_lookup_names_match(hs, "content-length"@, "Content-Length"@);
}

impl Response {
    /// The status line and header block, ready to write, followed by a
    /// blank line. Header order is insertion order, so the rendering is
    /// deterministic.
    #[verifier::loop_isolation(false)]
    pub fn status_and_headers(&self) -> (r: String)
        ensures
            r@ == ser_resp_head(self.status, self.headers@),
    {
        let mut out = String::from_str("HTTP/1.1 ");
        match self.status {
            Status::NotFound => out.append("404 Not Found"),
            Status::Okay => out.append("200 OK"),
            Status::InternalServerError => out.append("500 Internal Server Error"),
        }
        out.append("\r\n");
        let ghost start = out@;
        let n = self.headers.len();
        let mut i: usize = 0;
        proof {
            assert(self.headers@.take(0) =~= Seq::<(Seq<char>, Seq<char>)>::empty());
            assert(out@ =~= start + ser_resp_headers(self.headers@.take(0)));
        }
        while i < n
            invariant
                0 <= i <= n,
                out@ == start + ser_resp_headers(self.headers@.take(i as int)),
            decreases n - i,
        {
            let ghost before = out@;
            out.append(self.headers.name_at(i).as_str());
            out.append(": ");
            out.append(self.headers.value_at(i).as_str());
            out.append("\r\n");
            proof {
                let p = self.headers@[i as int];
                assert(out@ =~= before + (p.0 + ": "@ + p.1 + "\r\n"@));
                lemma_ser_resp_headers_snoc(self.headers@.take(i as int), p);
                assert(self.headers@.take(i + 1) =~= self.headers@.take(i as int).push(p));
            }
            i = i + 1;
        }
        proof {
            assert(self.headers@.take(n as int) =~= self.headers@);
        }
        out.append("\r\n");
        proof {
            assert(out@ =~= ser_resp_head(self.status, self.headers@));
        }
        out
    }

    /// A complete response around a text body: `Content-Type: text/html`
    /// and an exact `Content-Length`.
    pub fn from_string(status: Status, data: String) -> (r: Response)
        ensures
            r.status == status,
            r.body@ == vstd::utf8::encode_utf8(data@),
            r.headers@ == put(
                put(Seq::<(Seq<char>, Seq<char>)>::empty(), "Content-Type"@, "text/html"@),
                "Content-Length"@,
                chars_of_bytes(dec_bytes(vstd::utf8::encode_utf8(data@).len())),
            ),
            r.headers.wf(),
    {
        proof {
            reveal_strlit("Content-Type");
            reveal_strlit("text/html");
            reveal_strlit("Content-Length");
            assert(is_ascii_chars("Content-Type"@));
            assert(is_ascii_chars("text/html"@));
            assert(is_ascii_chars("Content-Length"@));
        }
        let body = data.as_str().as_bytes_vec();
        let len = body.len();
        let mut numeral: Vec<u8> = Vec::new();
        push_dec(len as u64, &mut numeral);
        proof {
            assert(numeral@ =~= dec_bytes(len as nat));
            lemma_dec_bytes_val(len as nat);
            assert forall|k: int| 0 <= k < numeral@.len() implies #[trigger] numeral@[k]
                < 128 by {
                assert(is_dec_bytes(dec_bytes(len as nat)));
            }
        }
        let value = ascii_to_string(&numeral);
        proof {
            lemma_chars_of_bytes_ascii(numeral@);
        }
        let mut headers = Headers::new();
        headers.set("Content-Type", "text/html");
        headers.set("Content-Length", value.as_str());
        Response { status, headers, body }
    }

    /// A complete response around a text body given as a slice.
    pub fn from_html(status: Status, data: &str) -> (r: Response)
        ensures
            r.status == status,
            r.body@ == vstd::utf8::encode_utf8(data@),
            r.headers@ == put(
                put(Seq::<(Seq<char>, Seq<char>)>::empty(), "Content-Type"@, "text/html"@),
                "Content-Length"@,
                chars_of_bytes(dec_bytes(vstd::utf8::encode_utf8(data@).len())),
            ),
            r.headers.wf(),
    {
        Response::from_string(status, String::from_str(data))
    }
}

} // verus!
