//! The HTTP/1.0 message codec.
//!
//! Parsing reads a raw byte stream into a request line, a case-folded header
//! mapping and a length-delimited body; serializing emits a status line,
//! headers with a computed `Content-Length`, and the body. Line endings are
//! `\r\n`; header lookup keys are lower-cased; header values are trimmed.
use vstd::prelude::*;

verus! {

use crate::dict::Dict;
use crate::dict::lookup;
use crate::encoding::is_valid_utf8;
use crate::text::dec_rep;
use crate::text::find_byte_from;
use crate::text::find_from;
use crate::text::is_digit;
use crate::text::is_ws;
use crate::text::lemma_find_from_bounds;
use crate::text::lemma_find_from_is;
use crate::text::lower;
use crate::text::lower_bytes;
use crate::text::parse_usize_or_zero;
use crate::text::push_bytes;
use crate::text::starts_with;
use crate::text::usize_to_decimal;
use crate::text::parsed_or_zero;
use crate::text::sub_bytes;
use crate::text::trim;
use crate::text::trim_bytes;

/// A request verb the server understands; anything else is rejected.
#[derive(Clone, Copy, PartialEq, Eq, Structural, Debug)]
pub enum Method {
    Get,
    Post,
}

/// A response status the router can produce.
#[derive(Clone, Copy, PartialEq, Eq, Structural, Debug)]
pub enum Status {
    Okay,
    NotFound,
    Unauthorized,
}

/// A fatal connection-level failure: no response bytes are written for these.
#[derive(Clone, Copy, PartialEq, Eq, Structural, Debug)]
pub enum ServerError {
    MalformedHeader,
    Utf8ParseError,
    UnsupportedMethod,
    WriteToStream,
}

/// The `\r\n` line terminator.
pub open spec fn crlf() -> Seq<u8> {
    seq![13u8, 10u8]
}

/// The `GET` verb on the wire.
pub open spec fn get_tok() -> Seq<u8> {
    seq!['G' as u8, 'E' as u8, 'T' as u8]
}

/// The `POST` verb on the wire.
pub open spec fn post_tok() -> Seq<u8> {
    seq!['P' as u8, 'O' as u8, 'S' as u8, 'T' as u8]
}

/// The lower-cased header key under which a body length is declared.
pub open spec fn cl_key() -> Seq<u8> {
    seq!['c' as u8, 'o' as u8, 'n' as u8, 't' as u8, 'e' as u8, 'n' as u8, 't' as u8, '-' as u8,
        'l' as u8, 'e' as u8, 'n' as u8, 'g' as u8, 't' as u8, 'h' as u8]
}

/// Position just past the line that starts at `pos`: one past the next
/// newline byte, or the end of the stream when no newline follows.
pub open spec fn line_end(s: Seq<u8>, pos: int) -> int {
    match find_from(s, 10, pos) {
        Some(i) => i + 1,
        None => s.len() as int,
    }
}

pub proof fn lemma_line_end_bounds(s: Seq<u8>, pos: int)
    requires
        0 <= pos < s.len(),
    ensures
        pos < line_end(s, pos) <= s.len(),
{
    lemma_find_from_bounds(s, 10, pos);
}

/// The key/value binding contributed by one header line: the line splits at
/// its first colon into a lower-cased key and a trimmed value, and a line
/// with no colon contributes nothing.
pub open spec fn header_pair_of_line(l: Seq<u8>) -> Seq<(Seq<u8>, Seq<u8>)> {
    match find_from(l, 58, 0) {
        Some(i) => seq![(lower(l.take(i)), trim(l.skip(i + 1)))],
        None => Seq::empty(),
    }
}

/// The header bindings read from `s` starting at `pos`, in order of
/// appearance, stopping at an empty (`\r\n`) line or the end of the stream.
pub open spec fn header_pairs_from(s: Seq<u8>, pos: int) -> Seq<(Seq<u8>, Seq<u8>)>
    decreases s.len() - pos,
    when 0 <= pos <= s.len()
    via header_pairs_from_decreases
{
    if pos >= s.len() {
        Seq::empty()
    } else {
        let e = line_end(s, pos);
        let l = s.subrange(pos, e);
        if l == crlf() {
            Seq::empty()
        } else {
            header_pair_of_line(l) + header_pairs_from(s, e)
        }
    }
}

#[via_fn]
proof fn header_pairs_from_decreases(s: Seq<u8>, pos: int) {
    if pos < s.len() {
        lemma_line_end_bounds(s, pos);
    }
}

/// Position where the body starts: just past the empty line that ends the
/// header block, or the end of the stream if no empty line occurs.
pub open spec fn headers_end(s: Seq<u8>, pos: int) -> int
    decreases s.len() - pos,
    when 0 <= pos <= s.len()
    via headers_end_decreases
{
    if pos >= s.len() {
        s.len() as int
    } else {
        let e = line_end(s, pos);
        let l = s.subrange(pos, e);
        if l == crlf() {
            e
        } else {
            headers_end(s, e)
        }
    }
}

#[via_fn]
proof fn headers_end_decreases(s: Seq<u8>, pos: int) {
    if pos < s.len() {
        lemma_line_end_bounds(s, pos);
    }
}

pub proof fn lemma_headers_end_bounds(s: Seq<u8>, pos: int)
    requires
        0 <= pos <= s.len(),
    ensures
        pos <= headers_end(s, pos) <= s.len(),
    decreases s.len() - pos,
{
    if pos < s.len() {
        lemma_line_end_bounds(s, pos);
        let e = line_end(s, pos);
        if s.subrange(pos, e) != crlf() {
            lemma_headers_end_bounds(s, e);
        }
    }
}

/// The second operand where the first gives no binding.
pub open spec fn or_else(a: Option<Seq<u8>>, b: Option<Seq<u8>>) -> Option<Seq<u8>> {
    if a is Some {
        a
    } else {
        b
    }
}

pub proof fn lemma_lookup_concat(xs: Seq<(Seq<u8>, Seq<u8>)>, ys: Seq<(Seq<u8>, Seq<u8>)>, k: Seq<
    u8,
>)
    ensures
        lookup(xs + ys, k) == or_else(lookup(ys, k), lookup(xs, k)),
    decreases ys.len(),
{
    if ys.len() == 0 {
        assert(xs + ys =~= xs);
    } else {
        assert((xs + ys).drop_last() =~= xs + ys.drop_last());
        lemma_lookup_concat(xs, ys.drop_last(), k);
    }
}

/// A byte string without newline bytes; header values always have this
/// shape, because each one is cut from a single header line.
pub open spec fn newline_free(v: Seq<u8>) -> bool {
    forall|i: int| 0 <= i < v.len() ==> v[i] != 10
}

proof fn lemma_header_pairs_values_newline_free(s: Seq<u8>, pos: int)
    requires
        0 <= pos <= s.len(),
    ensures
        forall|j: int|
            0 <= j < header_pairs_from(s, pos).len() ==> newline_free(
                (#[trigger] header_pairs_from(s, pos)[j]).1,
            ),
    decreases s.len() - pos,
{
    if pos < s.len() {
        lemma_line_end_bounds(s, pos);
        lemma_find_from_bounds(s, 10, pos);
        let e = line_end(s, pos);
        let l = s.subrange(pos, e);
        if l != crlf() {
            let hp = header_pair_of_line(l);
            assert(forall|m: int| 0 <= m < l.len() - 1 ==> l[m] != 10) by {
                assert(forall|m: int| 0 <= m < l.len() ==> l[m] == s[pos + m]);
            }
            match find_from(l, 58, 0) {
                Some(c) => {
                    lemma_find_from_bounds(l, 58, 0);
                    let t = l.skip(c + 1);
                    assert(forall|m: int| 0 <= m < t.len() - 1 ==> t[m] != 10) by {
                        assert(forall|m: int| 0 <= m < t.len() ==> t[m] == l[c + 1 + m]);
                    }
                    crate::text::lemma_trim_no_byte(t, 10);
                    assert(newline_free(trim(t)));
                    assert(hp[0].1 == trim(t));
                },
                None => {
                },
            }
            lemma_header_pairs_values_newline_free(s, e);
            assert forall|j: int|
                0 <= j < header_pairs_from(s, pos).len() implies newline_free(
                (header_pairs_from(s, pos)[j]).1,
            ) by {
                assert(header_pairs_from(s, pos)[j] == (hp + header_pairs_from(s, e))[j]);
                if j >= hp.len() {
                    assert((hp + header_pairs_from(s, e))[j] == header_pairs_from(s, e)[j
                        - hp.len()]);
                }
            }
        }
    }
}

proof fn lemma_lookup_value_newline_free(ps: Seq<(Seq<u8>, Seq<u8>)>, k: Seq<u8>)
    requires
        forall|j: int| 0 <= j < ps.len() ==> newline_free((#[trigger] ps[j]).1),
        lookup(ps, k) is Some,
    ensures
        newline_free(lookup(ps, k)->0),
    decreases ps.len(),
{
    assert(ps[ps.len() - 1] == ps.last());
    if ps.last().0 != k {
        assert(forall|j: int|
            0 <= j < ps.drop_last().len() ==> newline_free((#[trigger] ps.drop_last()[j]).1));
        lemma_lookup_value_newline_free(ps.drop_last(), k);
    }
}

/// Whatever a header lookup finds holds no newline byte: every stored value
/// was cut out of a single header line and trimmed.
pub proof fn lemma_header_lookup_newline_free(s: Seq<u8>, pos: int, k: Seq<u8>)
    requires
        0 <= pos <= s.len(),
        lookup(header_pairs_from(s, pos), k) is Some,
    ensures
        newline_free(lookup(header_pairs_from(s, pos), k)->0),
{
    lemma_header_pairs_values_newline_free(s, pos);
    lemma_lookup_value_newline_free(header_pairs_from(s, pos), k);
}

/// A line without its trailing terminator: a closing `\r\n`, or a bare
/// closing `\n`, is dropped.
pub open spec fn strip_line_end(s: Seq<u8>) -> Seq<u8> {
    if s.len() >= 2 && s[s.len() - 2] == 13 && s[s.len() - 1] == 10 {
        s.take(s.len() - 2)
    } else if s.len() >= 1 && s[s.len() - 1] == 10 {
        s.take(s.len() - 1)
    } else {
        s
    }
}

/// The verb and path of a request line holding exactly three
/// space-separated tokens. The line splits at its first two spaces; a line
/// with fewer tokens, or one whose version token holds yet another space
/// before the line terminator, has no parts.
pub open spec fn request_line_parts(l: Seq<u8>) -> Option<(Seq<u8>, Seq<u8>)> {
    match find_from(l, 32, 0) {
        Some(i) => match find_from(l, 32, i + 1) {
            Some(j) => if find_from(strip_line_end(l.skip(j + 1)), 32, 0) is Some {
                None
            } else {
                Some((l.take(i), l.subrange(i + 1, j)))
            },
            None => None,
        },
        None => None,
    }
}

/// The verb a method token names, if the server supports it.
pub open spec fn method_of(m: Seq<u8>) -> Option<Method> {
    if m == get_tok() {
        Some(Method::Get)
    } else if m == post_tok() {
        Some(Method::Post)
    } else {
        None
    }
}

/// The declared body length: the `content-length` header's value read as a
/// decimal number, with an absent header or an unparsable value counting as
/// zero.
pub open spec fn content_length_of(hs: Seq<(Seq<u8>, Seq<u8>)>) -> int {
    match lookup(hs, cl_key()) {
        Some(v) => parsed_or_zero(v),
        None => 0,
    }
}

/// Exec bytes of the `content-length` lookup key.
fn cl_key_bytes() -> (r: Vec<u8>)
    ensures
        r@ == cl_key(),
{
    let mut v: Vec<u8> = Vec::new();
    v.push(99);
    v.push(111);
    v.push(110);
    v.push(116);
    v.push(101);
    v.push(110);
    v.push(116);
    v.push(45);
    v.push(108);
    v.push(101);
    v.push(110);
    v.push(103);
    v.push(116);
    v.push(104);
    proof {
        assert(v@ =~= cl_key());
    }
    v
}

/// Exec read of the declared body length from a parsed header mapping.
pub fn content_length(headers: &Dict) -> (r: usize)
    ensures
        r == content_length_of(headers@),
{
    let key = cl_key_bytes();
    match headers.get(key.as_slice()) {
        Some(v) => parse_usize_or_zero(v.as_slice()),
        None => 0,
    }
}

/// Exec split of a request line into its verb and path.
///
/// A line without exactly three space-separated tokens — too few, or a
/// further space before the line terminator — is malformed; a verb other
/// than `GET` or `POST` is unsupported. These are fatal: the connection is
/// dropped without a response.
pub fn parse_request_line(line: &[u8]) -> (r: Result<(Method, Vec<u8>), ServerError>)
    ensures
        match request_line_parts(line@) {
            None => r == Result::<(Method, Vec<u8>), ServerError>::Err(ServerError::MalformedHeader),
            Some(parts) => match method_of(parts.0) {
                None => r == Result::<(Method, Vec<u8>), ServerError>::Err(
                    ServerError::UnsupportedMethod,
                ),
                Some(m) => r is Ok && r->Ok_0.0 == m && r->Ok_0.1@ == parts.1,
            },
        },
{
    let n = line.len();
    let i = match find_byte_from(line, 32, 0) {
        Some(i) => i,
        None => {
            return Err(ServerError::MalformedHeader);
        },
    };
    proof {
        lemma_find_from_bounds(line@, 32, 0);
        assert(i < n);
    }
    let j = match find_byte_from(line, 32, i + 1) {
        Some(j) => j,
        None => {
            return Err(ServerError::MalformedHeader);
        },
    };
    proof {
        lemma_find_from_bounds(line@, 32, i + 1);
        assert(j < n);
    }
    let ghost t = line@.skip(j + 1);
    let ghost ver = strip_line_end(t);
    proof {
        assert(t.len() == line@.len() - j - 1);
        assert(forall|m: int| 0 <= m < t.len() ==> t[m] == line@[j + 1 + m]);
        assert(ver.len() <= t.len());
        assert(forall|m: int| 0 <= m < ver.len() ==> ver[m] == t[m]);
    }
    match find_byte_from(line, 32, j + 1) {
        Some(k) => {
            proof {
                lemma_find_from_bounds(line@, 32, j + 1);
                let kp = k - j - 1;
                assert(t[kp] == 32);
                assert(kp < ver.len());
                assert forall|m: int| 0 <= m < kp implies ver[m] != 32 by {
                    assert(ver[m] == line@[j + 1 + m]);
                }
                lemma_find_from_is(ver, 32, 0, kp);
            }
            return Err(ServerError::MalformedHeader);
        },
        None => {
            proof {
                lemma_find_from_bounds(line@, 32, j + 1);
                lemma_find_from_bounds(ver, 32, 0);
                assert(find_from(ver, 32, 0) is None) by {
                    if find_from(ver, 32, 0) is Some {
                        let w = find_from(ver, 32, 0)->0;
                        assert(ver[w] == 32);
                        assert(ver[w] == line@[j + 1 + w]);
                    }
                }
            }
        },
    }
    let method = sub_bytes(line, 0, i);
    let url = sub_bytes(line, i + 1, j);
    let m = if method.len() == 3 && method[0] == 71 && method[1] == 69 && method[2] == 84 {
        proof {
            assert(method@ =~= get_tok());
        }
        Method::Get
    } else if method.len() == 4 && method[0] == 80 && method[1] == 79 && method[2] == 83
        && method[3] == 84 {
        proof {
            assert(method@ =~= post_tok());
        }
        Method::Post
    } else {
        proof {
            assert(method@ != get_tok() && method@ != post_tok()) by {
                if method@.len() == 3 {
                    assert(method@[0] != 71 || method@[1] != 69 || method@[2] != 84);
                }
                if method@.len() == 4 {
                    assert(method@[0] != 80 || method@[1] != 79 || method@[2] != 83 || method@[3]
                        != 84);
                }
            }
        }
        return Err(ServerError::UnsupportedMethod);
    };
    Ok((m, url))
}

/// A parsed request: verb, path, case-folded header mapping, and body.
pub struct Request {
    pub method: Method,
    pub url: Vec<u8>,
    pub headers: Dict,
    pub body: Vec<u8>,
}

/// Ghost image of a parsed request, with the headers as the parsed binding
/// sequence.
pub ghost struct RequestView {
    pub method: Method,
    pub url: Seq<u8>,
    pub headers: Seq<(Seq<u8>, Seq<u8>)>,
    pub body: Seq<u8>,
}

/// What parsing a whole raw request yields: the request line split first,
/// then the headers, then exactly `content-length` bytes of body, which must
/// be valid text.
///
/// `MalformedHeader` means exactly that the request line does not consist
/// of three space-separated tokens. A buffer holding fewer body bytes than
/// the headers declare — a client that closed early — is reported as
/// `Utf8ParseError`, the error for request bytes that cannot be read as
/// the declared text, just as a failed read of the stream is.
pub open spec fn spec_parse_request(raw: Seq<u8>) -> Result<RequestView, ServerError> {
    let e1 = line_end(raw, 0);
    let l1 = raw.take(e1);
    match request_line_parts(l1) {
        None => Err(ServerError::MalformedHeader),
        Some(parts) => match method_of(parts.0) {
            None => Err(ServerError::UnsupportedMethod),
            Some(m) => {
                let hs = header_pairs_from(raw, e1);
                let bstart = headers_end(raw, e1);
                let cl = content_length_of(hs);
                if cl == 0 {
                    Ok(
                        RequestView {
                            method: m,
                            url: parts.1,
                            headers: hs,
                            body: Seq::empty(),
                        },
                    )
                } else if bstart + cl > raw.len() {
                    Err(ServerError::Utf8ParseError)
                } else if !vstd::utf8::valid_utf8(raw.subrange(bstart, bstart + cl)) {
                    Err(ServerError::Utf8ParseError)
                } else {
                    Ok(
                        RequestView {
                            method: m,
                            url: parts.1,
                            headers: hs,
                            body: raw.subrange(bstart, bstart + cl),
                        },
                    )
                }
            },
        },
    }
}

/// Exec parse of a whole raw request, faithful to `spec_parse_request`;
/// on success the body's byte length always equals the declared
/// `content-length` value.
pub fn parse_request(raw: &[u8]) -> (r: Result<Request, ServerError>)
    ensures
        match (r, spec_parse_request(raw@)) {
            (Ok(req), Ok(v)) => req.method == v.method && req.url@ == v.url && req.body@ == v.body
                && forall|k: Seq<u8>| lookup(req.headers@, k) == lookup(v.headers, k),
            (Err(a), Err(b)) => a == b,
            _ => false,
        },
        r is Ok ==> r->Ok_0.body@.len() == content_length_of(
            header_pairs_from(raw@, line_end(raw@, 0)),
        ),
        r is Ok ==> vstd::utf8::valid_utf8(r->Ok_0.body@),
{
    let n = raw.len();
    let e1 = match find_byte_from(raw, 10, 0) {
        Some(i) => {
            proof {
                lemma_find_from_bounds(raw@, 10, 0);
                assert(i < n);
            }
            i + 1
        },
        None => n,
    };
    proof {
        lemma_find_from_bounds(raw@, 10, 0);
        assert(e1 == line_end(raw@, 0));
    }
    let line1 = sub_bytes(raw, 0, e1);
    proof {
        assert(line1@ =~= raw@.take(e1 as int));
    }
    let (method, url) = match parse_request_line(line1.as_slice()) {
        Ok(p) => p,
        Err(er) => {
            return Err(er);
        },
    };
    let headers = read_response_headers(raw, e1);
    let bstart = headers_body_start(raw, e1);
    let cl = content_length(&headers);
    let ghost hs = header_pairs_from(raw@, e1 as int);
    proof {
        assert(lookup(headers@, cl_key()) == lookup(hs, cl_key()));
        assert(cl == content_length_of(hs));
    }
    let body: Vec<u8> = if cl == 0 {
        Vec::new()
    } else {
        if cl > raw.len() - bstart {
            return Err(ServerError::Utf8ParseError);
        }
        let b = sub_bytes(raw, bstart, bstart + cl);
        if !is_valid_utf8(b.as_slice()) {
            return Err(ServerError::Utf8ParseError);
        }
        b
    };
    proof {
        if cl == 0 {
            assert(body@ =~= Seq::<u8>::empty());
            assert(vstd::utf8::valid_utf8(body@));
        }
    }
    Ok(Request { method, url, headers, body })
}

/// Exec parse of a header block: every line at or after `from`, up to an
/// empty line or the end of `block`, contributes its binding. The result
/// answers lookups exactly as the parsed binding sequence does.
pub fn read_response_headers(block: &[u8], from: usize) -> (r: Dict)
    requires
        from <= block@.len(),
    ensures
        forall|k: Seq<u8>| lookup(r@, k) == lookup(header_pairs_from(block@, from as int), k),
{
    let mut d = Dict::new();
    let mut pos: usize = from;
    while pos < block.len()
        invariant
            pos <= block@.len(),
            forall|k: Seq<u8>|
                lookup(header_pairs_from(block@, from as int), k) == or_else(
                    lookup(header_pairs_from(block@, pos as int), k),
                    lookup(d@, k),
                ),
        decreases block@.len() - pos,
    {
        let e = match find_byte_from(block, 10, pos) {
            Some(i) => {
                proof {
                    lemma_find_from_bounds(block@, 10, pos as int);
                }
                i + 1
            },
            None => block.len(),
        };
        proof {
            lemma_find_from_bounds(block@, 10, pos as int);
            assert(e == line_end(block@, pos as int));
        }
        let line = sub_bytes(block, pos, e);
        let ghost l = block@.subrange(pos as int, e as int);
        if line.len() == 2 && line[0] == 13 && line[1] == 10 {
            proof {
                assert(l =~= crlf());
                assert(header_pairs_from(block@, pos as int) =~= Seq::<(Seq<u8>, Seq<u8>)>::empty());
            }
            return d;
        }
        proof {
            assert(l != crlf());
            assert(header_pairs_from(block@, pos as int) == header_pair_of_line(l)
                + header_pairs_from(block@, e as int));
        }
        match find_byte_from(line.as_slice(), 58, 0) {
            Some(i) => {
                proof {
                    lemma_find_from_bounds(line@, 58, 0);
                }
                let key = lower_bytes(sub_bytes(line.as_slice(), 0, i).as_slice());
                let value = trim_bytes(sub_bytes(line.as_slice(), i + 1, line.len()).as_slice());
                let ghost p = (key@, value@);
                proof {
                    assert(l.take(i as int) =~= line@.subrange(0, i as int));
                    assert(l.skip(i + 1) =~= line@.subrange(i + 1, line@.len() as int));
                    assert(header_pair_of_line(l) =~= seq![p]);
                }
                let ghost d0 = d@;
                d.insert(key, value);
                proof {
                    assert(seq![p].drop_last() =~= Seq::<(Seq<u8>, Seq<u8>)>::empty());
                    assert(d@.drop_last() =~= d0);
                    assert forall|k: Seq<u8>|
                        lookup(header_pairs_from(block@, from as int), k) == or_else(
                            lookup(header_pairs_from(block@, e as int), k),
                            lookup(d@, k),
                        ) by {
                        assert(lookup(header_pairs_from(block@, from as int), k) == or_else(
                            lookup(header_pairs_from(block@, pos as int), k),
                            lookup(d0, k),
                        ));
                        lemma_lookup_concat(seq![p], header_pairs_from(block@, e as int), k);
                        assert(lookup(Seq::<(Seq<u8>, Seq<u8>)>::empty(), k) is None);
                        assert(lookup(seq![p], k) == (if p.0 == k {
                            Some(p.1)
                        } else {
                            Option::<Seq<u8>>::None
                        }));
                        assert(lookup(d@, k) == (if p.0 == k {
                            Some(p.1)
                        } else {
                            lookup(d0, k)
                        }));
                    }
                }
            },
            None => {
                proof {
                    assert(header_pair_of_line(l) =~= Seq::<(Seq<u8>, Seq<u8>)>::empty());
                    assert(header_pair_of_line(l) + header_pairs_from(block@, e as int)
                        =~= header_pairs_from(block@, e as int));
                }
            },
        }
        pos = e;
    }
    proof {
        assert(header_pairs_from(block@, pos as int) =~= Seq::<(Seq<u8>, Seq<u8>)>::empty());
    }
    d
}

/// Exec scan for the position just past the header block's empty line.
pub fn headers_body_start(block: &[u8], from: usize) -> (r: usize)
    requires
        from <= block@.len(),
    ensures
        r == headers_end(block@, from as int),
        from <= r <= block@.len(),
{
    let mut pos: usize = from;
    while pos < block.len()
        invariant
            from <= pos <= block@.len(),
            headers_end(block@, from as int) == headers_end(block@, pos as int),
        decreases block@.len() - pos,
    {
        let e = match find_byte_from(block, 10, pos) {
            Some(i) => {
                proof {
                    lemma_find_from_bounds(block@, 10, pos as int);
                }
                i + 1
            },
            None => block.len(),
        };
        proof {
            lemma_find_from_bounds(block@, 10, pos as int);
            assert(e == line_end(block@, pos as int));
        }
        if e - pos == 2 && block[pos] == 13 && block[pos + 1] == 10 {
            proof {
                assert(block@.subrange(pos as int, e as int) =~= crlf());
            }
            return e;
        }
        proof {
            assert(block@.subrange(pos as int, e as int) != crlf()) by {
                let l = block@.subrange(pos as int, e as int);
                if l.len() == 2 {
                    assert(l[0] == block@[pos as int] && l[1] == block@[pos + 1]);
                }
            }
        }
        pos = e;
    }
    pos
}

/// The `: ` separator written between a header key and its value.
pub open spec fn colon_space() -> Seq<u8> {
    seq![58u8, 32u8]
}

/// The `HTTP/1.0 ` prefix of every status line.
pub open spec fn http_prefix() -> Seq<u8> {
    seq!['H' as u8, 'T' as u8, 'T' as u8, 'P' as u8, '/' as u8, '1' as u8, '.' as u8, '0' as u8,
        ' ' as u8]
}

/// The `Content-Length: ` label as written on the wire.
pub open spec fn cl_label() -> Seq<u8> {
    seq!['C' as u8, 'o' as u8, 'n' as u8, 't' as u8, 'e' as u8, 'n' as u8, 't' as u8, '-' as u8,
        'L' as u8, 'e' as u8, 'n' as u8, 'g' as u8, 't' as u8, 'h' as u8, ':' as u8, ' ' as u8]
}

/// View of a key/value vector as its byte-sequence pairs.
pub open spec fn pairs_view(ps: Seq<(Vec<u8>, Vec<u8>)>) -> Seq<(Seq<u8>, Seq<u8>)> {
    ps.map_values(|p: (Vec<u8>, Vec<u8>)| (p.0@, p.1@))
}

/// One serialized header line, `Key: Value\r\n`.
pub open spec fn header_line(p: (Seq<u8>, Seq<u8>)) -> Seq<u8> {
    p.0 + colon_space() + p.1 + crlf()
}

/// The serialized header lines of `hs`, in order.
pub open spec fn header_lines(hs: Seq<(Seq<u8>, Seq<u8>)>) -> Seq<u8>
    decreases hs.len(),
{
    if hs.len() == 0 {
        Seq::empty()
    } else {
        header_line(hs.first()) + header_lines(hs.drop_first())
    }
}

pub proof fn lemma_header_lines_push(hs: Seq<(Seq<u8>, Seq<u8>)>, p: (Seq<u8>, Seq<u8>))
    ensures
        header_lines(hs.push(p)) == header_lines(hs) + header_line(p),
    decreases hs.len(),
{
    if hs.len() == 0 {
        assert(hs.push(p).drop_first() =~= Seq::<(Seq<u8>, Seq<u8>)>::empty());
        assert(hs.push(p).first() == p);
        assert(header_lines(Seq::<(Seq<u8>, Seq<u8>)>::empty()) =~= Seq::<u8>::empty());
        assert(header_lines(hs.push(p)) =~= header_lines(hs) + header_line(p));
    } else {
        assert(hs.push(p).drop_first() =~= hs.drop_first().push(p));
        assert(hs.push(p).first() == hs.first());
        lemma_header_lines_push(hs.drop_first(), p);
        assert(header_line(hs.first()) + (header_lines(hs.drop_first()) + header_line(p))
            =~= (header_line(hs.first()) + header_lines(hs.drop_first())) + header_line(p));
    }
}

/// The full serialized response: status line, computed `Content-Length`,
/// the given headers in order, an empty line, then the body bytes.
pub open spec fn spec_serialize_response(
    status: Seq<u8>,
    hs: Seq<(Seq<u8>, Seq<u8>)>,
    body: Seq<u8>,
) -> Seq<u8> {
    http_prefix() + status + crlf() + cl_label() + dec_rep(body.len()) + crlf() + header_lines(hs)
        + crlf() + body
}

/// Exec bytes of the status-line prefix.
fn http_prefix_bytes() -> (r: Vec<u8>)
    ensures
        r@ == http_prefix(),
{
    let mut v: Vec<u8> = Vec::new();
    v.push(72);
    v.push(84);
    v.push(84);
    v.push(80);
    v.push(47);
    v.push(49);
    v.push(46);
    v.push(48);
    v.push(32);
    proof {
        assert(v@ =~= http_prefix());
    }
    v
}

/// Exec bytes of the `Content-Length: ` label.
fn cl_label_bytes() -> (r: Vec<u8>)
    ensures
        r@ == cl_label(),
{
    let mut v: Vec<u8> = Vec::new();
    v.push(67);
    v.push(111);
    v.push(110);
    v.push(116);
    v.push(101);
    v.push(110);
    v.push(116);
    v.push(45);
    v.push(76);
    v.push(101);
    v.push(110);
    v.push(103);
    v.push(116);
    v.push(104);
    v.push(58);
    v.push(32);
    proof {
        assert(v@ =~= cl_label());
    }
    v
}

/// Exec serializer for a whole response. `Content-Length` is computed from
/// the body's byte length; the given headers follow it in order.
pub fn serialize_response(
    status: &[u8],
    headers: &Vec<(Vec<u8>, Vec<u8>)>,
    body: &[u8],
) -> (r: Vec<u8>)
    ensures
        r@ == spec_serialize_response(status@, pairs_view(headers@), body@),
{
    let mut out = http_prefix_bytes();
    push_bytes(&mut out, status);
    out.push(13);
    out.push(10);
    let label = cl_label_bytes();
    push_bytes(&mut out, label.as_slice());
    let digits = usize_to_decimal(body.len());
    push_bytes(&mut out, digits.as_slice());
    out.push(13);
    out.push(10);
    let ghost pre = http_prefix() + status@ + crlf() + cl_label() + dec_rep(body@.len()) + crlf();
    proof {
        assert(out@ =~= pre);
        assert(pairs_view(headers@).take(0) =~= Seq::<(Seq<u8>, Seq<u8>)>::empty());
        assert(out@ =~= pre + header_lines(pairs_view(headers@).take(0)));
    }
    let mut i: usize = 0;
    while i < headers.len()
        invariant
            i <= headers@.len(),
            pre == http_prefix() + status@ + crlf() + cl_label() + dec_rep(body@.len()) + crlf(),
            out@ == pre + header_lines(pairs_view(headers@).take(i as int)),
        decreases headers@.len() - i,
    {
        let p = &headers[i];
        push_bytes(&mut out, p.0.as_slice());
        out.push(58);
        out.push(32);
        push_bytes(&mut out, p.1.as_slice());
        out.push(13);
        out.push(10);
        proof {
            let ghost hv = pairs_view(headers@);
            assert(hv.take(i + 1) =~= hv.take(i as int).push(hv[i as int]));
            lemma_header_lines_push(hv.take(i as int), hv[i as int]);
            assert(hv[i as int] == (p.0@, p.1@));
            assert(header_line(hv[i as int]) =~= p.0@ + colon_space() + p.1@ + crlf());
            assert(out@ =~= pre + header_lines(hv.take(i + 1)));
        }
        i = i + 1;
    }
    out.push(13);
    out.push(10);
    push_bytes(&mut out, body);
    proof {
        let ghost hv = pairs_view(headers@);
        assert(hv.take(hv.len() as int) =~= hv);
        assert(out@ =~= spec_serialize_response(status@, hv, body@));
    }
    out
}

/// The status token of a serialized status line: what stands between the
/// `HTTP/1.0 ` prefix and the closing `\r\n`.
pub open spec fn spec_parse_status(line: Seq<u8>) -> Option<Seq<u8>> {
    if line.len() >= 9 && line.take(9) == http_prefix() {
        let rest = line.skip(9);
        if rest.len() >= 2 && rest.skip(rest.len() - 2) == crlf() {
            Some(rest.take(rest.len() - 2))
        } else {
            Some(rest)
        }
    } else {
        None
    }
}

/// Exec read of the status token from a response's first line.
pub fn parse_status_line(line: &[u8]) -> (r: Option<Vec<u8>>)
    ensures
        match r {
            Some(v) => spec_parse_status(line@) == Some(v@),
            None => spec_parse_status(line@) is None,
        },
{
    let prefix = http_prefix_bytes();
    if !starts_with(line, prefix.as_slice()) {
        return None;
    }
    let n = line.len();
    if n >= 11 && line[n - 2] == 13 && line[n - 1] == 10 {
        let v = sub_bytes(line, 9, n - 2);
        proof {
            let rest = line@.skip(9);
            assert(rest.skip(rest.len() - 2) =~= crlf());
            assert(rest.take(rest.len() - 2) =~= line@.subrange(9, n - 2));
        }
        Some(v)
    } else {
        let v = sub_bytes(line, 9, n);
        proof {
            let rest = line@.skip(9);
            if rest.len() >= 2 {
                assert(rest.skip(rest.len() - 2) != crlf()) by {
                    assert(rest.skip(rest.len() - 2)[0] == line@[n - 2]);
                    assert(rest.skip(rest.len() - 2)[1] == line@[n - 1]);
                }
            }
            assert(rest =~= line@.subrange(9, n as int));
        }
        Some(v)
    }
}


/// A header pair the serializer can emit and the parser will read back under
/// its own key: the key holds no newline or colon, the value holds no
/// newline, and the key does not fold to the `content-length` lookup key.
pub open spec fn serializable_header(p: (Seq<u8>, Seq<u8>)) -> bool {
    &&& forall|i: int| 0 <= i < p.0.len() ==> p.0[i] != 10 && p.0[i] != 58
    &&& forall|i: int| 0 <= i < p.1.len() ==> p.1[i] != 10
    &&& lower(p.0) != cl_key()
}

proof fn lemma_parse_header_lines(
    out: Seq<u8>,
    pos: int,
    hs: Seq<(Seq<u8>, Seq<u8>)>,
    body: Seq<u8>,
)
    requires
        0 <= pos <= out.len(),
        out.skip(pos) == header_lines(hs) + crlf() + body,
        forall|j: int| 0 <= j < hs.len() ==> serializable_header(#[trigger] hs[j]),
    ensures
        lookup(header_pairs_from(out, pos), cl_key()) is None,
    decreases hs.len(),
{
    let tail = out.skip(pos);
    assert(forall|j: int| 0 <= j < tail.len() ==> tail[j] == out[pos + j]);
    if hs.len() == 0 {
        assert(header_lines(hs) =~= Seq::<u8>::empty());
        assert(tail =~= crlf() + body);
        assert(tail[0] == 13 && tail[1] == 10);
        assert(out[pos] == 13 && out[pos + 1] == 10);
        lemma_find_from_is(out, 10, pos, pos + 1);
        assert(line_end(out, pos) == pos + 2);
        assert(out.subrange(pos, pos + 2) =~= crlf());
        assert(header_pairs_from(out, pos) =~= Seq::<(Seq<u8>, Seq<u8>)>::empty());
        assert(lookup(Seq::<(Seq<u8>, Seq<u8>)>::empty(), cl_key()) is None);
    } else {
        let p = hs.first();
        assert(serializable_header(p));
        let hl = header_line(p);
        let klen = p.0.len() as int;
        let vlen = p.1.len() as int;
        let llen = klen + 2 + vlen + 2;
        assert(hl.len() == llen);
        assert(header_lines(hs) == hl + header_lines(hs.drop_first()));
        let rest2 = header_lines(hs.drop_first()) + crlf() + body;
        assert(tail =~= hl + rest2);
        assert(hl[llen - 1] == crlf()[1] && crlf()[1] == 10);
        assert forall|j: int| 0 <= j < llen - 1 implies hl[j] != 10 by {
            if j < klen {
                assert(hl[j] == p.0[j]);
            } else if j < klen + 2 {
                assert(hl[j] == colon_space()[j - klen]);
            } else if j < klen + 2 + vlen {
                assert(hl[j] == p.1[j - klen - 2]);
            } else {
                assert(hl[j] == crlf()[0]);
            }
        }
        assert(out[pos + llen - 1] == tail[llen - 1] && tail[llen - 1] == hl[llen - 1]);
        assert forall|j: int| pos <= j < pos + llen - 1 implies out[j] != 10 by {
            assert(out[j] == tail[j - pos]);
            assert(tail[j - pos] == hl[j - pos]);
        }
        lemma_find_from_is(out, 10, pos, pos + llen - 1);
        assert(line_end(out, pos) == pos + llen);
        let l = out.subrange(pos, pos + llen);
        assert(l =~= hl);
        assert(l != crlf());
        assert(l[klen] == colon_space()[0] && colon_space()[0] == 58);
        assert forall|j: int| 0 <= j < klen implies l[j] != 58 by {
            assert(l[j] == p.0[j]);
        }
        lemma_find_from_is(l, 58, 0, klen);
        let pair = (lower(l.take(klen)), trim(l.skip(klen + 1)));
        assert(header_pair_of_line(l) == seq![pair]);
        assert(l.take(klen) =~= p.0);
        assert(header_pairs_from(out, pos) == header_pair_of_line(l) + header_pairs_from(
            out,
            pos + llen,
        ));
        assert forall|j: int| 0 <= j < rest2.len() implies out.skip(pos + llen)[j] == rest2[j] by {
            assert(out.skip(pos + llen)[j] == out[pos + llen + j]);
            assert(tail[llen + j] == out[pos + llen + j]);
            assert((hl + rest2)[llen + j] == rest2[j]);
        }
        assert(out.skip(pos + llen) =~= rest2);
        lemma_parse_header_lines(out, pos + llen, hs.drop_first(), body);
        lemma_lookup_concat(seq![pair], header_pairs_from(out, pos + llen), cl_key());
        assert(seq![pair].drop_last() =~= Seq::<(Seq<u8>, Seq<u8>)>::empty());
        assert(lookup(Seq::<(Seq<u8>, Seq<u8>)>::empty(), cl_key()) is None);
        assert(pair.0 != cl_key());
        assert(lookup(seq![pair], cl_key()) is None);
    }
}

proof fn lemma_parse_cl_line(out: Seq<u8>, pos: int, n: nat, rest: Seq<u8>)
    requires
        0 <= pos <= out.len(),
        out.skip(pos) == cl_label() + dec_rep(n) + crlf() + rest,
    ensures
        line_end(out, pos) == pos + 18 + dec_rep(n).len(),
        header_pairs_from(out, pos) == seq![(cl_key(), dec_rep(n))] + header_pairs_from(
            out,
            pos + 18 + dec_rep(n).len(),
        ),
{
    let tail = out.skip(pos);
    assert(forall|j: int| 0 <= j < tail.len() ==> tail[j] == out[pos + j]);
    let d = dec_rep(n);
    let dlen = d.len() as int;
    crate::text::lemma_dec_rep_digits(n);
    let llen = 16 + dlen + 2;
    let hl = cl_label() + d + crlf();
    assert(hl.len() == llen);
    assert(tail.len() == llen + rest.len());
    assert(out.len() == pos + tail.len());
    assert(hl[llen - 1] == crlf()[1] && crlf()[1] == 10);
    assert forall|j: int| 0 <= j < llen - 1 implies hl[j] != 10 by {
        if j < 16 {
            assert(hl[j] == cl_label()[j]);
        } else if j < 16 + dlen {
            assert(hl[j] == d[j - 16]);
            assert(is_digit(d[j - 16]));
        } else {
            assert(hl[j] == crlf()[0]);
        }
    }
    assert(out[pos + llen - 1] == tail[llen - 1] && tail[llen - 1] == hl[llen - 1]);
    assert forall|j: int| pos <= j < pos + llen - 1 implies out[j] != 10 by {
        assert(out[j] == tail[j - pos]);
        assert(tail[j - pos] == hl[j - pos]);
    }
    lemma_find_from_is(out, 10, pos, pos + llen - 1);
    assert(line_end(out, pos) == pos + llen);
    let l = out.subrange(pos, pos + llen);
    assert(l =~= hl);
    assert(l != crlf());
    assert(l[14] == cl_label()[14] && cl_label()[14] == 58);
    assert forall|j: int| 0 <= j < 14 implies l[j] != 58 by {
        assert(l[j] == cl_label()[j]);
    }
    lemma_find_from_is(l, 58, 0, 14);
    assert(header_pair_of_line(l) == seq![(lower(l.take(14)), trim(l.skip(15)))]);
    assert(lower(l.take(14)) =~= cl_key()) by {
        assert(l.take(14) =~= cl_label().take(14));
    }
    let t = l.skip(15);
    assert(t =~= seq![32u8] + d + crlf());
    assert(t[0] == 32 && is_ws(t[0]));
    assert(t[1] == d[0] && !is_ws(t[1]));
    crate::text::lemma_trim_start_skip(t, 1);
    let t2 = t.skip(1);
    assert(t2 =~= d + crlf());
    assert(t2[dlen] == 13 && t2[dlen + 1] == 10);
    assert(forall|j: int| dlen <= j < t2.len() ==> is_ws(t2[j]));
    assert(t2[dlen - 1] == d[dlen - 1] && !is_ws(t2[dlen - 1]));
    crate::text::lemma_trim_end_take(t2, dlen);
    assert(t2.take(dlen) =~= d);
    assert(trim(t) == d);
    assert(header_pairs_from(out, pos) == header_pair_of_line(l) + header_pairs_from(
        out,
        pos + llen,
    ));
    assert(header_pair_of_line(l) =~= seq![(cl_key(), d)]);
}

/// Serializing a response and re-parsing its first line and header block
/// yields the original status token, and a `content-length` entry whose
/// value is exactly the decimal byte length of the body.
#[verifier::rlimit(100)]
pub proof fn lemma_response_round_trip(status: Seq<u8>, hs: Seq<(Seq<u8>, Seq<u8>)>, body: Seq<u8>)
    requires
        forall|i: int| 0 <= i < status.len() ==> status[i] != 10,
        forall|j: int| 0 <= j < hs.len() ==> serializable_header(#[trigger] hs[j]),
        body.len() <= usize::MAX,
    ensures
        ({
            let out = spec_serialize_response(status, hs, body);
            let e1 = line_end(out, 0);
            &&& spec_parse_status(out.take(e1)) == Some(status)
            &&& lookup(header_pairs_from(out, e1), cl_key()) == Some(dec_rep(body.len()))
            &&& content_length_of(header_pairs_from(out, e1)) == body.len()
        }),
{
    let out = spec_serialize_response(status, hs, body);
    let slen = status.len() as int;
    let l1 = http_prefix() + status + crlf();
    let e1 = 9 + slen + 2;
    assert(l1.len() == e1);
    let d = dec_rep(body.len());
    let dlen = d.len() as int;
    crate::text::lemma_dec_rep_digits(body.len());
    let clline = cl_label() + d + crlf();
    let rest2 = header_lines(hs) + crlf() + body;
    assert(out =~= l1 + (clline + rest2));
    assert(forall|j: int| 0 <= j < l1.len() ==> out[j] == l1[j]);
    assert(l1[e1 - 1] == crlf()[1] && crlf()[1] == 10);
    assert forall|j: int| 0 <= j < e1 - 1 implies l1[j] != 10 by {
        if j < 9 {
            assert(l1[j] == http_prefix()[j]);
        } else if j < 9 + slen {
            assert(l1[j] == status[j - 9]);
        } else {
            assert(l1[j] == crlf()[0]);
        }
    }
    assert(out[e1 - 1] == 10);
    assert forall|j: int| 0 <= j < e1 - 1 implies out[j] != 10 by {
        assert(out[j] == l1[j]);
    }
    lemma_find_from_is(out, 10, 0, e1 - 1);
    assert(line_end(out, 0) == e1);
    let line = out.take(e1);
    assert(line =~= l1);
    assert(line.take(9) =~= http_prefix());
    let after = line.skip(9);
    assert(after =~= status + crlf());
    assert(after.skip(after.len() - 2) =~= crlf());
    assert(after.take(after.len() - 2) =~= status);
    assert(spec_parse_status(line) == Some(status));
    assert(out.skip(e1) =~= clline + rest2);
    assert(out.skip(e1) =~= cl_label() + d + crlf() + rest2) by {
        assert(clline + rest2 =~= cl_label() + d + crlf() + rest2);
    }
    lemma_parse_cl_line(out, e1, body.len(), rest2);
    let e2 = e1 + 18 + dlen;
    assert forall|j: int| 0 <= j < rest2.len() implies out.skip(e2)[j] == rest2[j] by {
        assert(out.skip(e2)[j] == out[e2 + j]);
        assert(out.skip(e1)[18 + dlen + j] == out[e2 + j]);
        assert((cl_label() + d + crlf() + rest2)[18 + dlen + j] == rest2[j]);
    }
    assert(out.skip(e2) =~= rest2);
    lemma_parse_header_lines(out, e2, hs, body);
    lemma_lookup_concat(
        seq![(cl_key(), d)],
        header_pairs_from(out, e2),
        cl_key(),
    );
    assert(seq![(cl_key(), d)].drop_last() =~= Seq::<(Seq<u8>, Seq<u8>)>::empty());
    assert(lookup(seq![(cl_key(), d)], cl_key()) == Some(d));
    assert(lookup(header_pairs_from(out, e1), cl_key()) == Some(d));
    crate::text::lemma_dec_value_of_rep(body.len());
    assert(crate::text::unsigned_digits(d) == d) by {
        assert(is_digit(d[0]));
    }
    assert(crate::text::parsed_or_zero(d) == body.len());
    assert(content_length_of(header_pairs_from(out, e1)) == body.len());
}


/// The wire token of a response status.
pub open spec fn status_bytes(st: Status) -> Seq<u8> {
    match st {
        Status::Okay => seq!['2' as u8, '0' as u8, '0' as u8, ' ' as u8, 'O' as u8, 'K' as u8],
        Status::NotFound => seq!['4' as u8, '0' as u8, '4' as u8, ' ' as u8, 'N' as u8, 'o' as u8,
            't' as u8, ' ' as u8, 'F' as u8, 'o' as u8, 'u' as u8, 'n' as u8, 'd' as u8],
        Status::Unauthorized => seq!['4' as u8, '0' as u8, '1' as u8, ' ' as u8, 'U' as u8,
            'n' as u8, 'a' as u8, 'u' as u8, 't' as u8, 'h' as u8, 'o' as u8, 'r' as u8, 'i' as u8,
            'z' as u8, 'e' as u8, 'd' as u8],
    }
}

/// Exec bytes of a status token.
pub fn status_token(st: Status) -> (r: Vec<u8>)
    ensures
        r@ == status_bytes(st),
{
    let mut v: Vec<u8> = Vec::new();
    match st {
        Status::Okay => {
            v.push(50);
            v.push(48);
            v.push(48);
            v.push(32);
            v.push(79);
            v.push(75);
        },
        Status::NotFound => {
            v.push(52);
            v.push(48);
            v.push(52);
            v.push(32);
            v.push(78);
            v.push(111);
            v.push(116);
            v.push(32);
            v.push(70);
            v.push(111);
            v.push(117);
            v.push(110);
            v.push(100);
        },
        Status::Unauthorized => {
            v.push(52);
            v.push(48);
            v.push(49);
            v.push(32);
            v.push(85);
            v.push(110);
            v.push(97);
            v.push(117);
            v.push(116);
            v.push(104);
            v.push(111);
            v.push(114);
            v.push(105);
            v.push(122);
            v.push(101);
            v.push(100);
        },
    }
    proof {
        assert(v@ =~= status_bytes(st));
    }
    v
}

/// The wire name of a request verb, as the 404 page prints it.
pub open spec fn method_bytes(m: Method) -> Seq<u8> {
    match m {
        Method::Get => get_tok(),
        Method::Post => post_tok(),
    }
}

/// Exec bytes of a verb's wire name.
pub fn method_token(m: Method) -> (r: Vec<u8>)
    ensures
        r@ == method_bytes(m),
{
    let mut v: Vec<u8> = Vec::new();
    match m {
        Method::Get => {
            v.push(71);
            v.push(69);
            v.push(84);
        },
        Method::Post => {
            v.push(80);
            v.push(79);
            v.push(83);
            v.push(84);
        },
    }
    proof {
        assert(v@ =~= method_bytes(m));
    }
    v
}

} // verus!
