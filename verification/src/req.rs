//! Wire codec, request side.
//!
//! Parses one HTTP/1.x request frame from a byte sequence: a start line
//! (`<METHOD> <PATH> HTTP/1.1`), header lines up to a blank line, and a body
//! of exactly `Content-Length` bytes (no body when the header is absent).
//! The parser consumes a prefix of its input and ignores whatever follows
//! the frame it determines. `spec_parse_request` is the exact mathematical
//! description of the accepted prefixes; `ser_request` the inverse
//! serialization, and `lemma_request_round_trip` ties the two together.

use vstd::prelude::*;
use vstd::utf8::is_ascii_chars;
use crate::ascii::{
    bytes_are_ascii, bytes_of_chars, chars_of_bytes, ascii_to_string, lemma_chars_of_bytes_ascii,
    lemma_bytes_of_chars_ascii,
};
use crate::headers::{Headers, headers_wf, lookup, put, names_match, lemma_put_absent};
use crate::decimal::{is_dec_bytes, dec_val};

verus! {

#[derive(Debug, Copy, Clone, Eq, PartialEq, Hash, Structural)]
pub enum Method {
    Get,
    Post,
    Put,
}

#[derive(Debug, Copy, Clone, Eq, PartialEq, Structural)]
pub enum ParseError {
    MalformedStartLine,
    UnsupportedMethod,
    MissingPath,
    MalformedHeader,
    InvalidContentLength,
    TruncatedBody,
}

#[derive(Debug)]
pub struct Request {
    pub method: Method,
    pub path: String,
    pub headers: Headers,
    pub body: Vec<u8>,
}

/// The mathematical content of a parsed request.
pub ghost struct ReqModel {
    pub method: Method,
    pub path: Seq<char>,
    pub headers: Seq<(Seq<char>, Seq<char>)>,
    pub body: Seq<u8>,
}

impl View for Request {
    type V = ReqModel;

    open spec fn view(&self) -> ReqModel {
        ReqModel {
            method: self.method,
            path: self.path@,
            headers: self.headers@,
            body: self.body@,
        }
    }
}

impl Request {
    pub open spec fn wf(&self) -> bool {
        headers_wf(self.headers@) && is_ascii_chars(self.path@)
    }
}

// ---------------------------------------------------------------------------
// Byte scanning
// ---------------------------------------------------------------------------

pub open spec fn is_ws(b: u8) -> bool {
    b == 32 || b == 9 || b == 13 || b == 10
}

/// Length of the longest prefix in which `stop` never holds.
pub open spec fn prefix_len(s: Seq<u8>, stop: spec_fn(u8) -> bool) -> int
    decreases s.len(),
{
    if s.len() == 0 {
        0
    } else if stop(s[0]) {
        0
    } else {
        1 + prefix_len(s.drop_first(), stop)
    }
}

pub proof fn lemma_prefix_len(s: Seq<u8>, stop: spec_fn(u8) -> bool)
    ensures
        0 <= prefix_len(s, stop) <= s.len(),
        forall|k: int| 0 <= k < prefix_len(s, stop) ==> !stop(#[trigger] s[k]),
        prefix_len(s, stop) < s.len() ==> stop(s[prefix_len(s, stop)]),
    decreases s.len(),
{
    if s.len() > 0 && !stop(s[0]) {
        lemma_prefix_len(s.drop_first(), stop);
        assert forall|k: int| 0 <= k < prefix_len(s, stop) implies !stop(#[trigger] s[k]) by {
            if k > 0 {
                assert(s.drop_first()[k - 1] == s[k]);
            }
        }
        if prefix_len(s, stop) < s.len() {
            assert(s.drop_first()[prefix_len(s, stop) - 1] == s[prefix_len(s, stop)]);
        }
    }
}

/// The prefix length is pinned by any witness position.
pub proof fn lemma_prefix_len_at(s: Seq<u8>, stop: spec_fn(u8) -> bool, j: int)
    requires
        0 <= j <= s.len(),
        forall|k: int| 0 <= k < j ==> !stop(#[trigger] s[k]),
        j < s.len() ==> stop(s[j]),
    ensures
        prefix_len(s, stop) == j,
    decreases s.len(),
{
    if s.len() > 0 && !stop(s[0]) {
        assert(j > 0);
        lemma_prefix_len_at(s.drop_first(), stop, j - 1);
    }
}

/// Splitting at a concatenation boundary: a clean prefix followed by a
/// stopping byte pins the scan.
pub proof fn lemma_prefix_len_concat(t: Seq<u8>, rest: Seq<u8>, stop: spec_fn(u8) -> bool)
    requires
        forall|k: int| 0 <= k < t.len() ==> !stop(#[trigger] t[k]),
        rest.len() > 0 ==> stop(rest[0]),
    ensures
        prefix_len(t + rest, stop) == t.len(),
{
    let s = t + rest;
    assert forall|k: int| 0 <= k < t.len() implies !stop(#[trigger] s[k]) by {
        assert(s[k] == t[k]);
    }
    if rest.len() > 0 {
        assert(s[t.len() as int] == rest[0]);
    }
    lemma_prefix_len_at(s, stop, t.len() as int);
}

/// Length of the first line, including its terminating newline when present.
pub open spec fn line_len(s: Seq<u8>) -> int {
    if prefix_len(s, |b: u8| b == 10) < s.len() {
        prefix_len(s, |b: u8| b == 10) + 1
    } else {
        s.len() as int
    }
}

/// The first line of `s` and what follows it.
pub open spec fn take_line(s: Seq<u8>) -> (Seq<u8>, Seq<u8>) {
    (s.take(line_len(s)), s.skip(line_len(s)))
}

pub proof fn lemma_line_len(s: Seq<u8>)
    ensures
        0 <= line_len(s) <= s.len(),
        s.len() > 0 ==> line_len(s) >= 1,
        forall|k: int| 0 <= k < line_len(s) - 1 ==> #[trigger] s[k] != 10,
{
    lemma_prefix_len(s, |b: u8| b == 10);
}

// ---------------------------------------------------------------------------
// Tokens and trimming
// ---------------------------------------------------------------------------

/// Length of the leading whitespace run.
pub open spec fn ws_len(s: Seq<u8>) -> int {
    prefix_len(s, |b: u8| !is_ws(b))
}

/// Length of the leading non-whitespace run.
pub open spec fn token_len(s: Seq<u8>) -> int {
    prefix_len(s, |b: u8| is_ws(b))
}

/// The next whitespace-separated token and what follows it.
pub open spec fn token_split(s: Seq<u8>) -> (Seq<u8>, Seq<u8>) {
    let t = s.skip(ws_len(s));
    (t.take(token_len(t)), t.skip(token_len(t)))
}

pub open spec fn trim_end(s: Seq<u8>) -> Seq<u8>
    decreases s.len(),
{
    if s.len() > 0 && is_ws(s.last()) {
        trim_end(s.drop_last())
    } else {
        s
    }
}

/// Strips leading and trailing whitespace.
pub open spec fn trim(s: Seq<u8>) -> Seq<u8> {
    trim_end(s).skip(ws_len(trim_end(s)))
}

/// A complete line (ending in the only newline it holds) is taken whole.
pub proof fn lemma_take_line_concat(l: Seq<u8>, rest: Seq<u8>)
    requires
        l.len() > 0,
        l.last() == 10,
        forall|k: int| 0 <= k < l.len() - 1 ==> #[trigger] l[k] != 10,
    ensures
        take_line(l + rest).0 == l,
        take_line(l + rest).1 == rest,
{
    let s = l + rest;
    lemma_prefix_len_concat(l.take(l.len() - 1), seq![l.last()] + rest, |b: u8| b == 10);
    assert(l.take(l.len() - 1) + (seq![l.last()] + rest) =~= s);
    assert(prefix_len(s, |b: u8| b == 10) == l.len() - 1);
    assert(line_len(s) == l.len());
    assert(s.take(l.len() as int) =~= l);
    assert(s.skip(l.len() as int) =~= rest);
}

pub proof fn lemma_ws_len_at(s: Seq<u8>, j: int)
    requires
        0 <= j <= s.len(),
        forall|k: int| 0 <= k < j ==> is_ws(#[trigger] s[k]),
        j < s.len() ==> !is_ws(s[j]),
    ensures
        ws_len(s) == j,
{
    lemma_prefix_len_at(s, |b: u8| !is_ws(b), j);
}

pub proof fn lemma_token_len_at(s: Seq<u8>, j: int)
    requires
        0 <= j <= s.len(),
        forall|k: int| 0 <= k < j ==> !is_ws(#[trigger] s[k]),
        j < s.len() ==> is_ws(s[j]),
    ensures
        token_len(s) == j,
{
    lemma_prefix_len_at(s, |b: u8| is_ws(b), j);
}

// ---------------------------------------------------------------------------
// The start line
// ---------------------------------------------------------------------------

pub open spec fn method_token(m: Method) -> Seq<u8> {
    match m {
        Method::Get => seq![71u8, 69u8, 84u8],
        Method::Post => seq![80u8, 79u8, 83u8, 84u8],
        Method::Put => seq![80u8, 85u8, 84u8],
    }
}

pub open spec fn method_of_token(t: Seq<u8>) -> Option<Method> {
    if t == method_token(Method::Get) {
        Some(Method::Get)
    } else if t == method_token(Method::Post) {
        Some(Method::Post)
    } else if t == method_token(Method::Put) {
        Some(Method::Put)
    } else {
        None
    }
}

/// Method and path of a start line. The first whitespace-separated token
/// must be a supported method, the second is the path; the rest of the line
/// (the protocol version) is not examined.
pub open spec fn spec_parse_start(line: Seq<u8>) -> Result<(Method, Seq<u8>), ParseError> {
    let m = token_split(line).0;
    let rest = token_split(line).1;
    if m.len() == 0 {
        Err(ParseError::MalformedStartLine)
    } else {
        match method_of_token(m) {
            None => Err(ParseError::UnsupportedMethod),
            Some(method) => {
                let p = token_split(rest).0;
                if p.len() == 0 {
                    Err(ParseError::MissingPath)
                } else if !bytes_are_ascii(p) {
                    Err(ParseError::MalformedStartLine)
                } else {
                    Ok((method, p))
                }
            },
        }
    }
}

// ---------------------------------------------------------------------------
// Header lines
// ---------------------------------------------------------------------------

/// An empty line ends the header block: nothing at all (end of input), a
/// bare newline, or a carriage return and newline.
pub open spec fn is_terminator_line(line: Seq<u8>) -> bool {
    line.len() == 0 || line == seq![10u8] || line == seq![13u8, 10u8]
}

/// One header line: the name is everything before the first colon, as
/// received; the value is everything after it, trimmed of surrounding
/// whitespace. Both must be ASCII.
pub open spec fn spec_parse_header(line: Seq<u8>) -> Result<
    Option<(Seq<char>, Seq<char>)>,
    ParseError,
> {
    if is_terminator_line(line) {
        Ok(None)
    } else {
        let cp = prefix_len(line, |b: u8| b == 58);
        if cp == line.len() {
            Err(ParseError::MalformedHeader)
        } else {
            let name = line.take(cp);
            let value = trim(line.skip(cp + 1));
            if name.len() == 0 {
                Err(ParseError::MalformedHeader)
            } else if !bytes_are_ascii(name) || !bytes_are_ascii(value) {
                Err(ParseError::MalformedHeader)
            } else {
                Ok(Some((chars_of_bytes(name), chars_of_bytes(value))))
            }
        }
    }
}

/// Header lines up to and including the terminating blank line, folded into
/// `acc` by `put` (last value wins per name). Returns the folded headers and
/// the bytes after the blank line.
pub open spec fn spec_parse_headers(acc: Seq<(Seq<char>, Seq<char>)>, s: Seq<u8>) -> Result<
    (Seq<(Seq<char>, Seq<char>)>, Seq<u8>),
    ParseError,
>
    decreases s.len(),
    via spec_parse_headers_dec
{
    if s.len() == 0 {
        Ok((acc, s))
    } else {
        let line = take_line(s).0;
        let rest = take_line(s).1;
        match spec_parse_header(line) {
            Err(e) => Err(e),
            Ok(None) => Ok((acc, rest)),
            Ok(Some(p)) => spec_parse_headers(put(acc, p.0, p.1), rest),
        }
    }
}

#[via_fn]
proof fn spec_parse_headers_dec(acc: Seq<(Seq<char>, Seq<char>)>, s: Seq<u8>) {
    lemma_line_len(s);
}

// ---------------------------------------------------------------------------
// Body and whole request
// ---------------------------------------------------------------------------

/// Exactly `Content-Length` bytes (the header name compared
/// case-insensitively, its value read as a decimal numeral), or an empty
/// body when the header is absent.
pub open spec fn spec_parse_body(hs: Seq<(Seq<char>, Seq<char>)>, rest: Seq<u8>) -> Result<
    Seq<u8>,
    ParseError,
> {
    match lookup(hs, "content-length"@) {
        None => Ok(Seq::empty()),
        Some(v) => {
            let vb = bytes_of_chars(v);
            if !is_dec_bytes(vb) || dec_val(vb) > usize::MAX {
                Err(ParseError::InvalidContentLength)
            } else if rest.len() < dec_val(vb) {
                Err(ParseError::TruncatedBody)
            } else {
                Ok(rest.take(dec_val(vb) as int))
            }
        },
    }
}

// ---------------------------------------------------------------------------
// Trim placement
// ---------------------------------------------------------------------------

/// Trailing whitespace is stripped down to `y`.
proof fn lemma_trim_end_at(s: Seq<u8>, y: int)
    requires
        0 <= y <= s.len(),
        forall|k: int| y <= k < s.len() ==> is_ws(#[trigger] s[k]),
        y > 0 ==> !is_ws(s[y - 1]),
    ensures
        trim_end(s) == s.take(y),
    decreases s.len(),
{
    if s.len() > 0 && is_ws(s.last()) {
        lemma_trim_end_at(s.drop_last(), y);
        assert(s.drop_last().take(y) =~= s.take(y));
    } else {
        assert(s.take(y) =~= s);
    }
}

/// The trim of `s` is the region `[x, y)` when all bytes outside it are
/// whitespace and its edges are not.
pub proof fn lemma_trim_at(s: Seq<u8>, x: int, y: int)
    requires
        0 <= x <= y <= s.len(),
        forall|k: int| 0 <= k < x ==> is_ws(#[trigger] s[k]),
        forall|k: int| y <= k < s.len() ==> is_ws(#[trigger] s[k]),
        x < y ==> !is_ws(s[x]) && !is_ws(s[y - 1]),
    ensures
        trim(s) == s.subrange(x, y),
{
    if x < y {
        lemma_trim_end_at(s, y);
        let t = s.take(y);
        assert forall|k: int| 0 <= k < x implies is_ws(#[trigger] t[k]) by {
            assert(t[k] == s[k]);
        }
        assert(t[x] == s[x]);
        lemma_ws_len_at(t, x);
        assert(t.skip(x) =~= s.subrange(x, y));
    } else {
        assert forall|k: int| 0 <= k < s.len() implies is_ws(#[trigger] s[k]) by {}
        lemma_trim_end_at(s, 0);
        assert(trim_end(s) =~= Seq::<u8>::empty());
        lemma_ws_len_at(trim_end(s), 0);
        assert(trim(s) =~= Seq::<u8>::empty());
        assert(s.subrange(x, y) =~= Seq::<u8>::empty());
    }
}

/// The request encoded by a prefix of `s`: start line, header block, body.
/// Bytes past the frame are not examined.
pub open spec fn spec_parse_request(s: Seq<u8>) -> Result<ReqModel, ParseError> {
    let line = take_line(s).0;
    let rest = take_line(s).1;
    match spec_parse_start(line) {
        Err(e) => Err(e),
        Ok((m, pb)) => match spec_parse_headers(Seq::empty(), rest) {
            Err(e) => Err(e),
            Ok((hs, rest2)) => match spec_parse_body(hs, rest2) {
                Err(e) => Err(e),
                Ok(body) => Ok(
                    ReqModel { method: m, path: chars_of_bytes(pb), headers: hs, body },
                ),
            },
        },
    }
}

// ---------------------------------------------------------------------------
// Serialization
// ---------------------------------------------------------------------------

/// The bytes of `HTTP/1.1` followed by a carriage return and newline.
pub open spec fn http_version_bytes() -> Seq<u8> {
    seq![72u8, 84u8, 84u8, 80u8, 47u8, 49u8, 46u8, 49u8, 13u8, 10u8]
}

pub open spec fn ser_start(m: Method, path: Seq<char>) -> Seq<u8> {
    method_token(m) + seq![32u8] + bytes_of_chars(path) + seq![32u8] + http_version_bytes()
}

pub open spec fn ser_header_line(p: (Seq<char>, Seq<char>)) -> Seq<u8> {
    bytes_of_chars(p.0) + seq![58u8, 32u8] + bytes_of_chars(p.1) + seq![13u8, 10u8]
}

pub open spec fn ser_headers(hs: Seq<(Seq<char>, Seq<char>)>) -> Seq<u8>
    decreases hs.len(),
{
    if hs.len() == 0 {
        Seq::empty()
    } else {
        ser_header_line(hs[0]) + ser_headers(hs.drop_first())
    }
}

/// The wire form of a request: start line, header lines in order, a blank
/// line, then the body bytes.
pub open spec fn ser_request(m: ReqModel) -> Seq<u8> {
    ser_start(m.method, m.path) + ser_headers(m.headers) + seq![13u8, 10u8] + m.body
}

proof fn lemma_ser_headers_snoc(hs: Seq<(Seq<char>, Seq<char>)>, p: (Seq<char>, Seq<char>))
    ensures
        ser_headers(hs.push(p)) == ser_headers(hs) + ser_header_line(p),
    decreases hs.len(),
{
    if hs.len() == 0 {
        assert(hs.push(p)[0] == p);
        assert(hs.push(p).drop_first() =~= Seq::<(Seq<char>, Seq<char>)>::empty());
        assert(ser_header_line(p) + Seq::<u8>::empty() =~= ser_header_line(p));
        assert(ser_headers(Seq::<(Seq<char>, Seq<char>)>::empty()) =~= Seq::<u8>::empty());
        assert(ser_headers(hs.push(p)) =~= ser_header_line(p));
        assert(ser_headers(hs) + ser_header_line(p) =~= ser_header_line(p));
    } else {
        lemma_ser_headers_snoc(hs.drop_first(), p);
        assert(hs.push(p).drop_first() =~= hs.drop_first().push(p));
        assert(hs.push(p)[0] == hs[0]);
        assert(ser_header_line(hs[0]) + (ser_headers(hs.drop_first()) + ser_header_line(p)) =~= (
        ser_header_line(hs[0]) + ser_headers(hs.drop_first())) + ser_header_line(p));
    }
}

/// Appends the bytes of an ASCII string.
#[verifier::loop_isolation(false)]
fn push_str_bytes(out: &mut Vec<u8>, s: &str)
    requires
        s.is_ascii(),
    ensures
        final(out)@ == old(out)@ + bytes_of_chars(s@),
{
    let bs = s.as_bytes();
    proof {
        vstd::string::is_ascii_spec_bytes(s);
        assert(bs@ =~= bytes_of_chars(s@));
    }
    let m = bs.len();
    let mut k: usize = 0;
    while k < m
        invariant
            0 <= k <= m,
            out@ == old(out)@ + bs@.take(k as int),
        decreases m - k,
    {
        out.push(bs[k]);
        k = k + 1;
        proof {
            assert(old(out)@ + bs@.take(k as int) =~= (old(out)@ + bs@.take(k - 1)).push(
                bs@[k - 1],
            ));
        }
    }
    proof {
        assert(bs@.take(m as int) =~= bs@);
    }
}

/// Writes a request in its wire form.
#[verifier::loop_isolation(false)]
#[verifier::rlimit(50)]
pub fn serialize_request(req: &Request) -> (out: Vec<u8>)
    requires
        req.wf(),
    ensures
        out@ == ser_request(req@),
{
    let mut out: Vec<u8> = Vec::new();
    match req.method {
        Method::Get => {
            out.push(71);
            out.push(69);
            out.push(84);
        },
        Method::Post => {
            out.push(80);
            out.push(79);
            out.push(83);
            out.push(84);
        },
        Method::Put => {
            out.push(80);
            out.push(85);
            out.push(84);
        },
    }
    proof {
        assert(out@ =~= method_token(req.method));
    }
    out.push(32);
    push_str_bytes(&mut out, req.path.as_str());
    out.push(32);
    out.push(72);
    out.push(84);
    out.push(84);
    out.push(80);
    out.push(47);
    out.push(49);
    out.push(46);
    out.push(49);
    out.push(13);
    out.push(10);
    proof {
        assert(out@ =~= ser_start(req.method, req.path@));
    }
    let ghost start = out@;
    let n = req.headers.len();
    let mut i: usize = 0;
    proof {
        assert(req.headers@.take(0) =~= Seq::<(Seq<char>, Seq<char>)>::empty());
        assert(out@ =~= start + ser_headers(req.headers@.take(0)));
    }
    while i < n
        invariant
            0 <= i <= n,
            out@ == start + ser_headers(req.headers@.take(i as int)),
        decreases n - i,
    {
        let ghost before = out@;
        let name = req.headers.name_at(i);
        let value = req.headers.value_at(i);
        push_str_bytes(&mut out, name.as_str());
        out.push(58);
        out.push(32);
        push_str_bytes(&mut out, value.as_str());
        out.push(13);
        out.push(10);
        proof {
            assert(out@ =~= before + ser_header_line(req.headers@[i as int]));
            lemma_ser_headers_snoc(req.headers@.take(i as int), req.headers@[i as int]);
            assert(req.headers@.take(i + 1) =~= req.headers@.take(i as int).push(
                req.headers@[i as int],
            ));
            assert(out@ =~= start + ser_headers(req.headers@.take(i + 1)));
        }
        i = i + 1;
    }
    proof {
        assert(req.headers@.take(n as int) =~= req.headers@);
    }
    out.push(13);
    out.push(10);
    let ghost head = out@;
    let m = req.body.len();
    let mut j: usize = 0;
    while j < m
        invariant
            0 <= j <= m,
            out@ == head + req.body@.take(j as int),
        decreases m - j,
    {
        out.push(req.body[j]);
        j = j + 1;
        proof {
            assert(head + req.body@.take(j as int) =~= (head + req.body@.take(j - 1)).push(
                req.body@[j - 1],
            ));
        }
    }
    proof {
        assert(req.body@.take(m as int) =~= req.body@);
        assert(out@ =~= ser_request(req@));
    }
    out
}

// ---------------------------------------------------------------------------
// Executable parser
// ---------------------------------------------------------------------------

/// Copies the first line at `pos` (up to and including its newline, or to
/// the end of the input) and returns the position just past it.
fn next_line(input: &[u8], pos: usize) -> (r: (Vec<u8>, usize))
    requires
        pos <= input@.len(),
    ensures
        r.0@ == take_line(input@.skip(pos as int)).0,
        r.1 == pos + take_line(input@.skip(pos as int)).0.len(),
        pos <= r.1 <= input@.len(),
        input@.skip(r.1 as int) == take_line(input@.skip(pos as int)).1,
{
    let n = input.len();
    let mut i: usize = pos;
    while i < n && input[i] != 10
        invariant
            pos <= i <= n,
            n == input@.len(),
            forall|k: int| pos <= k < i ==> input@[k] != 10,
        decreases n - i,
    {
        i = i + 1;
    }
    let end = if i < n {
        i + 1
    } else {
        n
    };
    proof {
        let s = input@.skip(pos as int);
        assert forall|k: int| 0 <= k < i - pos implies s[k] != 10 by {
            assert(s[k] == input@[k + pos]);
        }
        if i < n {
            assert(s[i - pos] == input@[i as int]);
            lemma_prefix_len_at(s, |b: u8| b == 10, i - pos);
        } else {
            lemma_prefix_len_at(s, |b: u8| b == 10, i - pos);
        }
        assert(line_len(s) == end - pos);
    }
    let mut line: Vec<u8> = Vec::new();
    let mut j: usize = pos;
    while j < end
        invariant
            pos <= j <= end <= n,
            n == input@.len(),
            line@ == input@.subrange(pos as int, j as int),
        decreases end - j,
    {
        line.push(input[j]);
        j = j + 1;
        proof {
            assert(line@ =~= input@.subrange(pos as int, j as int));
        }
    }
    proof {
        let s = input@.skip(pos as int);
        assert(input@.subrange(pos as int, end as int) =~= s.take(line_len(s)));
        assert(input@.skip(end as int) =~= s.skip(line_len(s)));
    }
    (line, end)
}

/// Parses the start line into a method and a path.
#[verifier::loop_isolation(false)]
pub fn parse_start_line(line: &Vec<u8>) -> (r: Result<(Method, String), ParseError>)
    ensures
        match r {
            Ok(mp) => spec_parse_start(line@) == Ok::<(Method, Seq<u8>), ParseError>(
                (mp.0, bytes_of_chars(mp.1@)),
            ) && is_ascii_chars(mp.1@),
            Err(e) => spec_parse_start(line@) == Err::<(Method, Seq<u8>), ParseError>(e),
        },
{
    let n = line.len();
    let mut i: usize = 0;
    while i < n && (line[i] == 32 || line[i] == 9 || line[i] == 13 || line[i] == 10)
        invariant
            0 <= i <= n,
            n == line@.len(),
            forall|k: int| 0 <= k < i ==> is_ws(#[trigger] line@[k]),
        decreases n - i,
    {
        i = i + 1;
    }
    proof {
        lemma_ws_len_at(line@, i as int);
    }
    let mut j: usize = i;
    while j < n && !(line[j] == 32 || line[j] == 9 || line[j] == 13 || line[j] == 10)
        invariant
            i <= j <= n,
            n == line@.len(),
            forall|k: int| i <= k < j ==> !is_ws(#[trigger] line@[k]),
        decreases n - j,
    {
        j = j + 1;
    }
    let ghost t = line@.skip(i as int);
    proof {
        assert forall|k: int| 0 <= k < j - i implies !is_ws(#[trigger] t[k]) by {
            assert(t[k] == line@[k + i]);
        }
        if j < n {
            assert(t[j - i] == line@[j as int]);
        }
        lemma_token_len_at(t, j - i);
        assert(token_split(line@).0 =~= line@.subrange(i as int, j as int));
        assert(token_split(line@).1 =~= line@.skip(j as int));
    }
    if j == i {
        return Err(ParseError::MalformedStartLine);
    }
    let m: Method;
    if j - i == 3 && line[i] == 71 && line[i + 1] == 69 && line[i + 2] == 84 {
        m = Method::Get;
        proof {
            assert(token_split(line@).0 =~= method_token(Method::Get));
        }
    } else if j - i == 4 && line[i] == 80 && line[i + 1] == 79 && line[i + 2] == 83 && line[i + 3]
        == 84 {
        m = Method::Post;
        proof {
            assert(token_split(line@).0 =~= method_token(Method::Post));
        }
    } else if j - i == 3 && line[i] == 80 && line[i + 1] == 85 && line[i + 2] == 84 {
        m = Method::Put;
        proof {
            assert(token_split(line@).0 =~= method_token(Method::Put));
        }
    } else {
        proof {
            let tok = token_split(line@).0;
            assert(tok.len() == j - i);
            assert(forall|k: int| 0 <= k < tok.len() ==> #[trigger] tok[k] == line@[k + i]);
            if tok == method_token(Method::Get) {
                assert(j - i == 3 && line@[i as int] == 71 && line@[i + 1] == 69 && line@[i + 2]
                    == 84);
            }
            if tok == method_token(Method::Post) {
                assert(j - i == 4 && line@[i as int] == 80 && line@[i + 1] == 79 && line@[i + 2]
                    == 83 && line@[i + 3] == 84);
            }
            if tok == method_token(Method::Put) {
                assert(j - i == 3 && line@[i as int] == 80 && line@[i + 1] == 85 && line@[i + 2]
                    == 84);
            }
        }
        return Err(ParseError::UnsupportedMethod);
    }
    // the path token
    let ghost rest = token_split(line@).1;
    let mut a: usize = j;
    while a < n && (line[a] == 32 || line[a] == 9 || line[a] == 13 || line[a] == 10)
        invariant
            j <= a <= n,
            n == line@.len(),
            forall|k: int| j <= k < a ==> is_ws(#[trigger] line@[k]),
        decreases n - a,
    {
        a = a + 1;
    }
    let mut b: usize = a;
    while b < n && !(line[b] == 32 || line[b] == 9 || line[b] == 13 || line[b] == 10)
        invariant
            a <= b <= n,
            n == line@.len(),
            forall|k: int| a <= k < b ==> !is_ws(#[trigger] line@[k]),
        decreases n - b,
    {
        b = b + 1;
    }
    proof {
        assert forall|k: int| 0 <= k < a - j implies is_ws(#[trigger] rest[k]) by {
            assert(rest[k] == line@[k + j]);
        }
        if a < n {
            assert(rest[a - j] == line@[a as int]);
        }
        lemma_ws_len_at(rest, a - j);
        let t2 = rest.skip(a - j);
        assert(t2 =~= line@.skip(a as int));
        assert forall|k: int| 0 <= k < b - a implies !is_ws(#[trigger] t2[k]) by {
            assert(t2[k] == line@[k + a]);
        }
        if b < n {
            assert(t2[b - a] == line@[b as int]);
        }
        lemma_token_len_at(t2, b - a);
        assert(token_split(rest).0 =~= line@.subrange(a as int, b as int));
    }
    if b == a {
        return Err(ParseError::MissingPath);
    }
    let mut pathv: Vec<u8> = Vec::new();
    let mut k: usize = a;
    while k < b
        invariant
            a <= k <= b <= n,
            n == line@.len(),
            pathv@ == line@.subrange(a as int, k as int),
            bytes_are_ascii(pathv@),
        decreases b - k,
    {
        let byte = line[k];
        if byte >= 128 {
            proof {
                assert(token_split(rest).0[k - a] == line@[k as int]);
                assert(!bytes_are_ascii(token_split(rest).0));
            }
            return Err(ParseError::MalformedStartLine);
        }
        pathv.push(byte);
        k = k + 1;
        proof {
            assert(pathv@ =~= line@.subrange(a as int, k as int));
        }
    }
    let path = ascii_to_string(&pathv);
    proof {
        lemma_chars_of_bytes_ascii(pathv@);
        assert(bytes_of_chars(path@) =~= pathv@);
        assert(token_split(rest).0 =~= pathv@);
    }
    Ok((m, path))
}

/// Parses one header line: the terminating blank line yields `None`.
#[verifier::loop_isolation(false)]
pub fn parse_header_line(line: &Vec<u8>) -> (r: Result<Option<(String, String)>, ParseError>)
    ensures
        match r {
            Ok(Some(nv)) => spec_parse_header(line@) == Ok::<
                Option<(Seq<char>, Seq<char>)>,
                ParseError,
            >(Some((nv.0@, nv.1@))) && is_ascii_chars(nv.0@) && is_ascii_chars(nv.1@),
            Ok(None) => spec_parse_header(line@) == Ok::<
                Option<(Seq<char>, Seq<char>)>,
                ParseError,
            >(None),
            Err(e) => spec_parse_header(line@) == Err::<
                Option<(Seq<char>, Seq<char>)>,
                ParseError,
            >(e),
        },
{
    let n = line.len();
    if n == 0 {
        return Ok(None);
    }
    if n == 1 && line[0] == 10 {
        proof {
            assert(line@ =~= seq![10u8]);
        }
        return Ok(None);
    }
    if n == 2 && line[0] == 13 && line[1] == 10 {
        proof {
            assert(line@ =~= seq![13u8, 10u8]);
        }
        return Ok(None);
    }
    proof {
        if line@ == seq![10u8] {
            assert(line@.len() == 1 && line@[0] == 10);
        }
        if line@ == seq![13u8, 10u8] {
            assert(line@.len() == 2 && line@[0] == 13 && line@[1] == 10);
        }
        assert(!is_terminator_line(line@));
    }
    let mut i: usize = 0;
    while i < n && line[i] != 58
        invariant
            0 <= i <= n,
            n == line@.len(),
            forall|k: int| 0 <= k < i ==> #[trigger] line@[k] != 58,
        decreases n - i,
    {
        i = i + 1;
    }
    proof {
        lemma_prefix_len_at(line@, |b: u8| b == 58, i as int);
    }
    if i == n {
        return Err(ParseError::MalformedHeader);
    }
    if i == 0 {
        return Err(ParseError::MalformedHeader);
    }
    // the name: everything before the colon, as received
    let mut namev: Vec<u8> = Vec::new();
    let mut k: usize = 0;
    while k < i
        invariant
            0 <= k <= i <= n,
            n == line@.len(),
            namev@ == line@.subrange(0, k as int),
            bytes_are_ascii(namev@),
        decreases i - k,
    {
        let byte = line[k];
        if byte >= 128 {
            proof {
                assert(line@.take(i as int)[k as int] == line@[k as int]);
                assert(!bytes_are_ascii(line@.take(i as int)));
            }
            return Err(ParseError::MalformedHeader);
        }
        namev.push(byte);
        k = k + 1;
        proof {
            assert(namev@ =~= line@.subrange(0, k as int));
        }
    }
    proof {
        assert(namev@ =~= line@.take(i as int));
    }
    // the value: everything after the colon, trimmed
    let mut a: usize = i + 1;
    while a < n && (line[a] == 32 || line[a] == 9 || line[a] == 13 || line[a] == 10)
        invariant
            i + 1 <= a <= n,
            n == line@.len(),
            forall|k2: int| i + 1 <= k2 < a ==> is_ws(#[trigger] line@[k2]),
        decreases n - a,
    {
        a = a + 1;
    }
    let mut b: usize = n;
    while b > a && (line[b - 1] == 32 || line[b - 1] == 9 || line[b - 1] == 13 || line[b - 1]
        == 10)
        invariant
            a <= b <= n,
            n == line@.len(),
            forall|k2: int| b <= k2 < n ==> is_ws(#[trigger] line@[k2]),
        decreases b,
    {
        b = b - 1;
    }
    let ghost raw = line@.skip(i + 1);
    proof {
        assert forall|k2: int| 0 <= k2 < a - (i + 1) implies is_ws(#[trigger] raw[k2]) by {
            assert(raw[k2] == line@[k2 + i + 1]);
        }
        assert forall|k2: int| b - (i + 1) <= k2 < raw.len() implies is_ws(#[trigger] raw[k2]) by {
            assert(raw[k2] == line@[k2 + i + 1]);
        }
        if a < b {
            assert(raw[a - (i + 1)] == line@[a as int]);
            assert(raw[b - (i + 1) - 1] == line@[b - 1]);
        }
        lemma_trim_at(raw, a - (i + 1), b - (i + 1));
        assert(trim(raw) =~= line@.subrange(a as int, b as int));
    }
    let mut valuev: Vec<u8> = Vec::new();
    let mut k2: usize = a;
    while k2 < b
        invariant
            a <= k2 <= b <= n,
            n == line@.len(),
            valuev@ == line@.subrange(a as int, k2 as int),
            bytes_are_ascii(valuev@),
        decreases b - k2,
    {
        let byte = line[k2];
        if byte >= 128 {
            proof {
                assert(trim(raw)[k2 - a] == line@[k2 as int]);
                assert(!bytes_are_ascii(trim(raw)));
            }
            return Err(ParseError::MalformedHeader);
        }
        valuev.push(byte);
        k2 = k2 + 1;
        proof {
            assert(valuev@ =~= line@.subrange(a as int, k2 as int));
        }
    }
    proof {
        assert(valuev@ =~= trim(raw));
        lemma_chars_of_bytes_ascii(namev@);
        lemma_chars_of_bytes_ascii(valuev@);
    }
    let name = ascii_to_string(&namev);
    let value = ascii_to_string(&valuev);
    Ok(Some((name, value)))
}

/// The body length a header block calls for: its `Content-Length` value,
/// read as a decimal numeral (zero when the header is absent).
pub fn body_len_of(headers: &Headers) -> (r: Result<usize, ParseError>)
    requires
        headers.wf(),
    ensures
        match r {
            Ok(n) => match lookup(headers@, "content-length"@) {
                None => n == 0,
                Some(v) => is_dec_bytes(bytes_of_chars(v)) && dec_val(bytes_of_chars(v)) == n,
            },
            Err(e) => e == ParseError::InvalidContentLength && match lookup(
                headers@,
                "content-length"@,
            ) {
                None => false,
                Some(v) => !is_dec_bytes(bytes_of_chars(v)) || dec_val(bytes_of_chars(v))
                    > usize::MAX,
            },
        },
{
    proof {
        reveal_strlit("content-length");
        assert(is_ascii_chars("content-length"@));
    }
    match headers.get("content-length") {
        None => Ok(0),
        Some(v) => {
            proof {
                crate::headers::lemma_lookup_ascii(headers@, "content-length"@);
            }
            let vs: &str = v.as_str();
            let vb = vs.as_bytes();
            proof {
                vstd::string::is_ascii_spec_bytes(vs);
                assert(vb@ =~= bytes_of_chars(v@));
            }
            match crate::decimal::parse_dec(vb) {
                None => Err(ParseError::InvalidContentLength),
                Some(n) => Ok(n),
            }
        },
    }
}

/// Parses one request frame from the front of `input`; bytes past the frame
/// are ignored. Exactly the requests described by `spec_parse_request` are
/// accepted, with exactly its errors.
pub fn parse_request(input: &[u8]) -> (r: Result<Request, ParseError>)
    ensures
        match r {
            Ok(req) => spec_parse_request(input@) == Ok::<ReqModel, ParseError>(req@) && req.wf(),
            Err(e) => spec_parse_request(input@) == Err::<ReqModel, ParseError>(e),
        },
{
    proof {
        assert(input@.skip(0) =~= input@);
    }
    let (line0, start_pos) = next_line(input, 0);
    let mp = match parse_start_line(&line0) {
        Ok(mp) => mp,
        Err(e) => {
            return Err(e);
        },
    };
    let method = mp.0;
    let path = mp.1;
    let mut headers = Headers::new();
    let mut pos: usize = start_pos;
    let n = input.len();
    loop
        invariant_except_break
            n == input@.len(),
            pos <= n,
            headers.wf(),
            spec_parse_start(take_line(input@).0) == Ok::<(Method, Seq<u8>), ParseError>(
                (method, bytes_of_chars(path@)),
            ),
            spec_parse_headers(Seq::empty(), take_line(input@).1) == spec_parse_headers(
                headers@,
                input@.skip(pos as int),
            ),
        ensures
            n == input@.len(),
            pos <= n,
            headers.wf(),
            spec_parse_headers(Seq::empty(), take_line(input@).1) == Ok::<
                (Seq<(Seq<char>, Seq<char>)>, Seq<u8>),
                ParseError,
            >((headers@, input@.skip(pos as int))),
        decreases n - pos,
    {
        let (line, new_pos) = next_line(input, pos);
        let ghost s1 = input@.skip(pos as int);
        proof {
            lemma_line_len(s1);
        }
        match parse_header_line(&line) {
            Err(e) => {
                proof {
                    assert(s1.len() > 0);
                    assert(spec_parse_headers(headers@, s1) == Err::<
                        (Seq<(Seq<char>, Seq<char>)>, Seq<u8>),
                        ParseError,
                    >(e));
                }
                return Err(e);
            },
            Ok(None) => {
                proof {
                    if s1.len() == 0 {
                        assert(take_line(s1).1 =~= s1);
                    }
                }
                pos = new_pos;
                break ;
            },
            Ok(Some(nv)) => {
                proof {
                    assert(!is_terminator_line(line@));
                    assert(s1.len() > 0);
                }
                let ghost old_h = headers@;
                headers.set(nv.0.as_str(), nv.1.as_str());
                proof {
                    assert(spec_parse_headers(old_h, s1) == spec_parse_headers(
                        headers@,
                        input@.skip(new_pos as int),
                    ));
                }
                pos = new_pos;
            },
        }
    }
    let ghost hs = headers@;
    let ghost rest2 = input@.skip(pos as int);
    proof {
        reveal_strlit("content-length");
        assert(is_ascii_chars("content-length"@));
    }
    let cl = headers.get("content-length");
    let mut body: Vec<u8> = Vec::new();
    match cl {
        None => {
            proof {
                assert(body@ =~= Seq::<u8>::empty());
            }
        },
        Some(v) => {
            proof {
                crate::headers::lemma_lookup_ascii(hs, "content-length"@);
            }
            let vs: &str = v.as_str();
            let vb = vs.as_bytes();
            proof {
                vstd::string::is_ascii_spec_bytes(vs);
                assert(vb@ =~= bytes_of_chars(v@));
            }
            match crate::decimal::parse_dec(vb) {
                None => {
                    return Err(ParseError::InvalidContentLength);
                },
                Some(clen) => {
                    if n - pos < clen {
                        return Err(ParseError::TruncatedBody);
                    }
                    let mut j2: usize = 0;
                    while j2 < clen
                        invariant
                            0 <= j2 <= clen,
                            pos + clen <= n,
                            n == input@.len(),
                            body@ == input@.subrange(pos as int, pos + j2),
                        decreases clen - j2,
                    {
                        body.push(input[pos + j2]);
                        j2 = j2 + 1;
                        proof {
                            assert(body@ =~= input@.subrange(pos as int, pos + j2));
                        }
                    }
                    proof {
                        assert(body@ =~= rest2.take(clen as int));
                    }
                },
            }
        },
    }
    let req = Request { method, path, headers, body };
    proof {
        lemma_bytes_of_chars_ascii(req.path@);
        assert(chars_of_bytes(bytes_of_chars(req.path@)) =~= req.path@);
        assert(spec_parse_request(input@) == Ok::<ReqModel, ParseError>(req@));
    }
    Ok(req)
}

// ---------------------------------------------------------------------------
// Round trip
// ---------------------------------------------------------------------------

/// A path that survives the wire: non-empty ASCII with no whitespace.
pub open spec fn path_ok(p: Seq<char>) -> bool {
    &&& p.len() > 0
    &&& is_ascii_chars(p)
    &&& forall|i: int| 0 <= i < p.len() ==> !is_ws(#[trigger] bytes_of_chars(p)[i])
}

/// A header name that survives the wire: non-empty ASCII with no colon and
/// no newline.
pub open spec fn header_name_ok(n: Seq<char>) -> bool {
    &&& n.len() > 0
    &&& is_ascii_chars(n)
    &&& forall|i: int|
        0 <= i < n.len() ==> #[trigger] bytes_of_chars(n)[i] != 58 && bytes_of_chars(n)[i] != 10
}

/// A header value that survives the wire: ASCII with no newline, and no
/// whitespace at either end (the parser trims it away).
pub open spec fn header_value_ok(v: Seq<char>) -> bool {
    &&& is_ascii_chars(v)
    &&& forall|i: int| 0 <= i < v.len() ==> #[trigger] bytes_of_chars(v)[i] != 10
    &&& v.len() > 0 ==> !is_ws(bytes_of_chars(v)[0]) && !is_ws(bytes_of_chars(v)[v.len() - 1])
}

/// A request whose wire form parses back to itself: tokens are ASCII and
/// free of the bytes that delimit them, and the `Content-Length` header,
/// when present, states the body length exactly (with no such header the
/// body is empty).
pub open spec fn serializable(m: ReqModel) -> bool {
    &&& headers_wf(m.headers)
    &&& path_ok(m.path)
    &&& forall|i: int|
        0 <= i < m.headers.len() ==> header_name_ok(#[trigger] m.headers[i].0) && header_value_ok(
            m.headers[i].1,
        )
    &&& match lookup(m.headers, "content-length"@) {
        Some(v) => is_dec_bytes(bytes_of_chars(v)) && dec_val(bytes_of_chars(v)) == m.body.len()
            && m.body.len() <= usize::MAX,
        None => m.body.len() == 0,
    }
}

proof fn lemma_method_token_bytes(m: Method)
    ensures
        method_token(m).len() >= 3,
        forall|k: int|
            0 <= k < method_token(m).len() ==> !is_ws(#[trigger] method_token(m)[k])
                && method_token(m)[k] != 10,
        method_of_token(method_token(m)) == Some(m),
{
    match m {
        Method::Get => {
            assert(method_token(Method::Get)[0] == 71);
        },
        Method::Post => {
            assert(method_token(Method::Post).len() != method_token(Method::Get).len());
            assert(method_token(Method::Post)[0] == 80);
        },
        Method::Put => {
            assert(method_token(Method::Put)[0] != method_token(Method::Get)[0]);
            assert(method_token(Method::Put).len() != method_token(Method::Post).len());
        },
    }
}

/// The serialized start line parses back to its method and path.
proof fn lemma_parse_ser_start(m: Method, path: Seq<char>, tail: Seq<u8>)
    requires
        path_ok(path),
    ensures
        take_line(ser_start(m, path) + tail).0 == ser_start(m, path),
        take_line(ser_start(m, path) + tail).1 == tail,
        spec_parse_start(ser_start(m, path)) == Ok::<(Method, Seq<u8>), ParseError>(
            (m, bytes_of_chars(path)),
        ),
{
    let pb = bytes_of_chars(path);
    let mt = method_token(m);
    let hv = http_version_bytes();
    let sl = ser_start(m, path);
    lemma_method_token_bytes(m);
    lemma_bytes_of_chars_ascii(path);
    assert(sl.last() == 10);
    assert forall|k: int| 0 <= k < sl.len() - 1 implies #[trigger] sl[k] != 10 by {
        if k < mt.len() {
            assert(sl[k] == mt[k]);
        } else if k == mt.len() {
            assert(sl[k] == 32);
        } else if k < mt.len() + 1 + pb.len() {
            assert(sl[k] == pb[k - mt.len() - 1]);
            assert(!is_ws(pb[k - mt.len() - 1]));
        } else if k == mt.len() + 1 + pb.len() {
            assert(sl[k] == 32);
        } else {
            assert(sl[k] == hv[k - mt.len() - 2 - pb.len()]);
        }
    }
    lemma_take_line_concat(sl, tail);
    // first token: the method
    assert(sl[0] == mt[0]);
    lemma_ws_len_at(sl, 0);
    let after_m = seq![32u8] + pb + seq![32u8] + hv;
    assert(sl =~= mt + after_m);
    assert(after_m[0] == 32);
    lemma_prefix_len_concat(mt, after_m, |b: u8| is_ws(b));
    assert(sl.skip(0) =~= sl);
    assert(token_len(sl) == mt.len());
    assert(token_split(sl).0 =~= mt);
    // second token: the path
    let rest1 = token_split(sl).1;
    assert(rest1 =~= after_m);
    assert(rest1[0] == 32);
    assert(rest1[1] == pb[0]);
    lemma_ws_len_at(rest1, 1);
    let t2 = rest1.skip(1);
    assert(t2 =~= pb + (seq![32u8] + hv));
    lemma_prefix_len_concat(pb, seq![32u8] + hv, |b: u8| is_ws(b));
    assert(token_len(t2) == pb.len());
    assert(token_split(rest1).0 =~= pb);
}

/// Serialized header lines parse back, one `put` per line, ending at the
/// blank line.
#[verifier::rlimit(60)]
proof fn lemma_parse_ser_headers(
    acc: Seq<(Seq<char>, Seq<char>)>,
    hs: Seq<(Seq<char>, Seq<char>)>,
    tail: Seq<u8>,
)
    requires
        headers_wf(acc),
        forall|i: int|
            0 <= i < hs.len() ==> header_name_ok(#[trigger] hs[i].0) && header_value_ok(hs[i].1),
        forall|i: int, j: int|
            0 <= i < j < hs.len() ==> !names_match(#[trigger] hs[i].0, #[trigger] hs[j].0),
        forall|i: int, j: int|
            0 <= i < acc.len() && 0 <= j < hs.len() ==> !names_match(
                #[trigger] acc[i].0,
                #[trigger] hs[j].0,
            ),
    ensures
        spec_parse_headers(acc, ser_headers(hs) + seq![13u8, 10u8] + tail) == Ok::<
            (Seq<(Seq<char>, Seq<char>)>, Seq<u8>),
            ParseError,
        >((acc + hs, tail)),
    decreases hs.len(),
{
    let s = ser_headers(hs) + seq![13u8, 10u8] + tail;
    if hs.len() == 0 {
        let l = seq![13u8, 10u8];
        assert(s =~= l + tail);
        assert(l.last() == 10);
        lemma_take_line_concat(l, tail);
        assert(s.len() > 0);
        assert(is_terminator_line(l));
        assert(acc + hs =~= acc);
    } else {
        let p0 = hs[0];
        let nb = bytes_of_chars(p0.0);
        let vb = bytes_of_chars(p0.1);
        let line = ser_header_line(p0);
        let s2 = ser_headers(hs.drop_first()) + seq![13u8, 10u8] + tail;
        assert(header_name_ok(p0.0) && header_value_ok(p0.1));
        assert(s =~= line + s2);
        assert(line.last() == 10);
        assert(line.len() == nb.len() + vb.len() + 4);
        assert forall|k: int| 0 <= k < line.len() - 1 implies #[trigger] line[k] != 10 by {
            if k < nb.len() {
                assert(line[k] == nb[k]);
            } else if k == nb.len() {
                assert(line[k] == 58);
            } else if k == nb.len() + 1 {
                assert(line[k] == 32);
            } else if k < nb.len() + 2 + vb.len() {
                assert(line[k] == vb[k - nb.len() - 2]);
            } else {
                assert(line[k] == 13);
            }
        }
        lemma_take_line_concat(line, s2);
        // the line is no terminator and splits at its first colon
        assert(line.len() >= 4);
        assert(!is_terminator_line(line));
        let after_n = seq![58u8, 32u8] + vb + seq![13u8, 10u8];
        assert(line =~= nb + after_n);
        assert(after_n[0] == 58);
        lemma_prefix_len_concat(nb, after_n, |b: u8| b == 58);
        let cp = prefix_len(line, |b: u8| b == 58);
        assert(cp == nb.len());
        assert(line.take(cp) =~= nb);
        let raw = line.skip(cp + 1);
        assert(raw =~= seq![32u8] + vb + seq![13u8, 10u8]);
        assert(raw[0] == 32);
        assert forall|k: int| 1 + vb.len() <= k < raw.len() implies is_ws(#[trigger] raw[k]) by {
            if k == 1 + vb.len() {
                assert(raw[k] == 13);
            } else {
                assert(raw[k] == 10);
            }
        }
        if vb.len() > 0 {
            assert(raw[1] == vb[0]);
            assert(raw[vb.len() as int] == vb[vb.len() - 1]);
        }
        lemma_trim_at(raw, 1, 1 + vb.len() as int);
        assert(trim(raw) =~= vb);
        lemma_bytes_of_chars_ascii(p0.0);
        lemma_bytes_of_chars_ascii(p0.1);
        assert(spec_parse_header(line) == Ok::<Option<(Seq<char>, Seq<char>)>, ParseError>(
            Some((p0.0, p0.1)),
        ));
        // the new pair lands at the end of the accumulator
        assert forall|i: int| 0 <= i < acc.len() implies !names_match(
            #[trigger] acc[i].0,
            p0.0,
        ) by {}
        lemma_put_absent(acc, p0.0, p0.1);
        let acc2 = acc + seq![(p0.0, p0.1)];
        assert(put(acc, p0.0, p0.1) == acc2);
        assert(is_ascii_chars(p0.0) && is_ascii_chars(p0.1));
        assert(headers_wf(acc2)) by {
            assert forall|i: int| 0 <= i < acc2.len() implies is_ascii_chars(#[trigger] acc2[i].0)
                && is_ascii_chars(acc2[i].1) by {
                if i < acc.len() {
                    assert(acc2[i] == acc[i]);
                    assert(is_ascii_chars(acc[i].0) && is_ascii_chars(acc[i].1));
                } else {
                    assert(acc2[i] == (p0.0, p0.1));
                    assert(is_ascii_chars(p0.0));
                    assert(is_ascii_chars(p0.1));
                }
            }
            assert forall|i: int, j: int| 0 <= i < j < acc2.len() implies !names_match(
                #[trigger] acc2[i].0,
                #[trigger] acc2[j].0,
            ) by {
                if j < acc.len() {
                    assert(acc2[i] == acc[i] && acc2[j] == acc[j]);
                } else {
                    assert(acc2[i] == acc[i] && acc2[j] == (p0.0, p0.1));
                }
            }
        }
        let ht = hs.drop_first();
        assert forall|i: int|
            0 <= i < ht.len() implies header_name_ok(#[trigger] ht[i].0) && header_value_ok(
            ht[i].1,
        ) by {
            assert(ht[i] == hs[i + 1]);
        }
        assert forall|i: int, j: int| 0 <= i < j < ht.len() implies !names_match(
            #[trigger] ht[i].0,
            #[trigger] ht[j].0,
        ) by {
            assert(ht[i] == hs[i + 1] && ht[j] == hs[j + 1]);
        }
        assert forall|i: int, j: int|
            0 <= i < acc2.len() && 0 <= j < ht.len() implies !names_match(
            #[trigger] acc2[i].0,
            #[trigger] ht[j].0,
        ) by {
            assert(ht[j] == hs[j + 1]);
            if i < acc.len() {
                assert(acc2[i] == acc[i]);
            } else {
                assert(acc2[i] == (p0.0, p0.1));
                assert(!names_match(hs[0].0, hs[j + 1].0));
            }
        }
        lemma_parse_ser_headers(acc2, ht, tail);
        assert(acc2 + ht =~= acc + hs);
    }
}

/// Serializing any serializable request and parsing the result back yields
/// exactly the same request: the wire codec loses nothing.
pub proof fn lemma_request_round_trip(m: ReqModel)
    requires
        serializable(m),
    ensures
        spec_parse_request(ser_request(m)) == Ok::<ReqModel, ParseError>(m),
{
    let w = ser_request(m);
    let hstail = ser_headers(m.headers) + seq![13u8, 10u8] + m.body;
    assert(w =~= ser_start(m.method, m.path) + hstail);
    lemma_parse_ser_start(m.method, m.path, hstail);
    assert(headers_wf(m.headers));
    lemma_parse_ser_headers(Seq::empty(), m.headers, m.body);
    assert(Seq::empty() + m.headers =~= m.headers);
    assert(spec_parse_headers(Seq::empty(), take_line(w).1) == Ok::<
        (Seq<(Seq<char>, Seq<char>)>, Seq<u8>),
        ParseError,
    >((m.headers, m.body)));
    match lookup(m.headers, "content-length"@) {
        Some(v) => {
            assert(m.body.take(dec_val(bytes_of_chars(v)) as int) =~= m.body);
        },
        None => {
            assert(m.body =~= Seq::<u8>::empty());
        },
    }
    assert(spec_parse_body(m.headers, m.body) == Ok::<Seq<u8>, ParseError>(m.body));
    lemma_bytes_of_chars_ascii(m.path);
    assert(chars_of_bytes(bytes_of_chars(m.path)) =~= m.path);
}

/// When parsing succeeds the body length equals the declared
/// `Content-Length`, and with no such header the body is empty.
pub proof fn lemma_content_length_honest(s: Seq<u8>, m: ReqModel)
    requires
        spec_parse_request(s) == Ok::<ReqModel, ParseError>(m),
    ensures
        match lookup(m.headers, "content-length"@) {
            Some(v) => m.body.len() == dec_val(bytes_of_chars(v)),
            None => m.body.len() == 0,
        },
{
}

} // verus!
