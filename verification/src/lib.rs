//! A small verified HTTP/1.0 guestbook server core.
//!
//! The library owns the request/response protocol engine: parsing raw
//! request bytes, session and CSRF-nonce bookkeeping, the credential check,
//! the guestbook itself, and the routing that ties them together. A thin
//! driver outside the library accepts TCP connections, reads one request's
//! bytes, hands them to [`run_server`], and writes the response bytes back.
use vstd::prelude::*;

pub mod auth;
pub mod codec;
pub mod dict;
pub mod encoding;
pub mod escape;
pub mod guestbook;
pub mod html;
pub mod random;
pub mod router;
pub mod session;
pub mod text;

verus! {

use vstd::string::StrSliceExecFns;
use vstd::string::StringSliceAdditionalSpecFns;

use crate::codec::RequestView;
use crate::codec::cl_key;
use crate::codec::content_length_of;
use crate::codec::header_pairs_from;
use crate::codec::lemma_header_lookup_newline_free;
use crate::codec::lemma_response_round_trip;
use crate::codec::line_end;
use crate::codec::newline_free;
use crate::codec::serializable_header;
use crate::codec::spec_parse_status;
use crate::codec::Status;
use crate::codec::ServerError;
use crate::codec::parse_request;
use crate::codec::serialize_response;
use crate::codec::spec_parse_request;
use crate::codec::spec_serialize_response;
use crate::codec::status_bytes;
use crate::codec::status_token;
use crate::dict::lookup;
use crate::guestbook::EntryView;
use crate::guestbook::GuestbookEntry;
use crate::router::Assets;
use crate::router::do_request_with_nonce;
use crate::router::spec_do_request;
use crate::session::SessionStore;
use crate::session::SessionView;
use crate::session::empty_session;
use crate::session::session_lookup;
use crate::text::all_digits;
use crate::text::push_bytes;
use crate::text::starts_with;
use crate::text::sub_bytes;

/// The lower-cased header key under which a request presents its cookie.
pub open spec fn cookie_key() -> Seq<u8> {
    seq!['c' as u8, 'o' as u8, 'o' as u8, 'k' as u8, 'i' as u8, 'e' as u8]
}

/// The header name under which a fresh token is handed to the client.
pub open spec fn set_cookie_name() -> Seq<u8> {
    seq!['S' as u8, 'e' as u8, 't' as u8, '-' as u8, 'C' as u8, 'o' as u8, 'o' as u8, 'k' as u8,
        'i' as u8, 'e' as u8]
}

/// The `token=` prefix of the cookie value.
pub open spec fn token_prefix() -> Seq<u8> {
    seq!['t' as u8, 'o' as u8, 'k' as u8, 'e' as u8, 'n' as u8, '=' as u8]
}

/// The `; SameSite=Lax` attribute appended to an issued cookie.
pub open spec fn samesite_suffix() -> Seq<u8> {
    seq![';' as u8, ' ' as u8, 'S' as u8, 'a' as u8, 'm' as u8, 'e' as u8, 'S' as u8, 'i' as u8,
        't' as u8, 'e' as u8, '=' as u8, 'L' as u8, 'a' as u8, 'x' as u8]
}

/// The session token a request names: the rest of a cookie that starts with
/// `token=`, and otherwise the given fresh token.
///
/// This honors exactly a cookie that is a single `token=<value>` pair, the
/// only kind this server ever issues, so it covers the whole canonical
/// flow. A cookie of any other shape names no session: the request runs
/// under a fresh token, and since `Set-Cookie` is issued only when no
/// cookie header came at all, the client is never told that token and the
/// session it creates stays unreachable. General cookie-pair parsing is
/// deliberately not attempted.
pub open spec fn spec_token(cookie: Option<Seq<u8>>, fresh: Seq<u8>) -> Seq<u8> {
    match cookie {
        Some(c) => if c.len() >= 6 && c.take(6) == token_prefix() {
            c.skip(6)
        } else {
            fresh
        },
        None => fresh,
    }
}

fn cookie_key_bytes() -> (r: Vec<u8>)
    ensures
        r@ == cookie_key(),
{
    let mut v: Vec<u8> = Vec::new();
    v.push(99);
    v.push(111);
    v.push(111);
    v.push(107);
    v.push(105);
    v.push(101);
    proof {
        assert(v@ =~= cookie_key());
    }
    v
}

fn set_cookie_name_bytes() -> (r: Vec<u8>)
    ensures
        r@ == set_cookie_name(),
{
    let mut v: Vec<u8> = Vec::new();
    v.push(83);
    v.push(101);
    v.push(116);
    v.push(45);
    v.push(67);
    v.push(111);
    v.push(111);
    v.push(107);
    v.push(105);
    v.push(101);
    proof {
        assert(v@ =~= set_cookie_name());
    }
    v
}

fn token_prefix_bytes() -> (r: Vec<u8>)
    ensures
        r@ == token_prefix(),
{
    let mut v: Vec<u8> = Vec::new();
    v.push(116);
    v.push(111);
    v.push(107);
    v.push(101);
    v.push(110);
    v.push(61);
    proof {
        assert(v@ =~= token_prefix());
    }
    v
}

fn samesite_suffix_bytes() -> (r: Vec<u8>)
    ensures
        r@ == samesite_suffix(),
{
    let mut v: Vec<u8> = Vec::new();
    v.push(59);
    v.push(32);
    v.push(83);
    v.push(97);
    v.push(109);
    v.push(101);
    v.push(83);
    v.push(105);
    v.push(116);
    v.push(101);
    v.push(61);
    v.push(76);
    v.push(97);
    v.push(120);
    proof {
        assert(v@ =~= samesite_suffix());
    }
    v
}

/// The entry every fresh guestbook starts with.
pub open spec fn seeded_entry() -> EntryView {
    EntryView { comment: "Pavel was here".spec_bytes(), author: "crashoverride".spec_bytes() }
}

/// Everything the server owns for the life of the process.
pub struct ServerState {
    pub entries: Vec<GuestbookEntry>,
    pub sessions: SessionStore,
    pub assets: Assets,
}

impl ServerState {
    /// A fresh server: the seeded guestbook, no sessions, and the given
    /// static assets.
    pub fn new(assets: Assets) -> (r: ServerState)
        ensures
            r.entries.deep_view() == seq![seeded_entry()],
            r.sessions@ == Seq::<(Seq<u8>, SessionView)>::empty(),
            r.assets@ == assets@,
    {
        let mut entries: Vec<GuestbookEntry> = Vec::new();
        entries.push(
            GuestbookEntry {
                comment: "Pavel was here".as_bytes_vec(),
                author: "crashoverride".as_bytes_vec(),
            },
        );
        proof {
            assert(entries.deep_view() =~= seq![seeded_entry()]);
        }
        ServerState { entries, sessions: SessionStore::new(), assets }
    }
}

/// What handling one parsed request leaves behind: the response bytes, the
/// new entry sequence, and the one session binding that changed.
#[verifier::ext_equal]
pub ghost struct HandleOut {
    pub response: Seq<u8>,
    pub entries: Seq<EntryView>,
    pub token: Seq<u8>,
    pub session: SessionView,
}

/// One whole request/response exchange over the parsed request: resolve the
/// session named by the cookie (or a fresh token), dispatch, and serialize,
/// issuing a `Set-Cookie` exactly when the request carried no cookie.
pub open spec fn spec_handle(
    assets: crate::router::AssetsView,
    entries: Seq<EntryView>,
    sessions: Seq<(Seq<u8>, SessionView)>,
    req: RequestView,
    token_fresh: Seq<u8>,
    nonce_fresh: Seq<u8>,
) -> HandleOut {
    let cookie = lookup(req.headers, cookie_key());
    let token = spec_token(cookie, token_fresh);
    let sess = match session_lookup(sessions, token) {
        Some(s) => s,
        None => empty_session(),
    };
    let out = spec_do_request(assets, entries, sess, req.method, req.url, req.body, nonce_fresh);
    let hdrs: Seq<(Seq<u8>, Seq<u8>)> = if cookie is Some {
        Seq::empty()
    } else {
        seq![(set_cookie_name(), token_prefix() + token + samesite_suffix())]
    };
    HandleOut {
        response: spec_serialize_response(status_bytes(out.status), hdrs, out.body),
        entries: out.entries,
        token,
        session: out.session,
    }
}

/// Run the server on one connection's raw request bytes.
///
/// A request that fails to parse gets no response bytes: the error says
/// why, and the stores are untouched. Otherwise the result is exactly the
/// serialized response of `spec_handle` for some fresh digit-string token
/// and nonce, and the stores are updated as it says.
pub fn run_server(state: &mut ServerState, raw: &[u8]) -> (r: Result<Vec<u8>, ServerError>)
    ensures
        final(state).assets@ == old(state).assets@,
        match spec_parse_request(raw@) {
            Err(e) => {
                &&& r == Result::<Vec<u8>, ServerError>::Err(e)
                &&& final(state).entries.deep_view() == old(state).entries.deep_view()
                &&& forall|k: Seq<u8>|
                    session_lookup(final(state).sessions@, k) == session_lookup(
                        old(state).sessions@,
                        k,
                    )
            },
            Ok(req) => {
                &&& r is Ok
                &&& exists|tf: Seq<u8>, nf: Seq<u8>|
                    #![trigger all_digits(tf), all_digits(nf)]
                    {
                        let out = spec_handle(
                            old(state).assets@,
                            old(state).entries.deep_view(),
                            old(state).sessions@,
                            req,
                            tf,
                            nf,
                        );
                        &&& all_digits(tf)
                        &&& all_digits(nf)
                        &&& r->Ok_0@ == out.response
                        &&& final(state).entries.deep_view() == out.entries
                        &&& forall|k: Seq<u8>|
                            session_lookup(final(state).sessions@, k) == (if k == out.token {
                                Some(out.session)
                            } else {
                                session_lookup(old(state).sessions@, k)
                            })
                    }
            },
        },
{
    let req = match parse_request(raw) {
        Ok(q) => q,
        Err(e) => {
            return Err(e);
        },
    };
    let ghost rv = spec_parse_request(raw@)->Ok_0;
    let ckey = cookie_key_bytes();
    let tprefix = token_prefix_bytes();
    let ghost mut tfw: Seq<u8> = Seq::empty();
    let (token, had_cookie): (Vec<u8>, bool) = match req.headers.get(ckey.as_slice()) {
        Some(c) => {
            if starts_with(c.as_slice(), tprefix.as_slice()) {
                let t = sub_bytes(c.as_slice(), 6, c.len());
                proof {
                    assert(t@ =~= c@.skip(6));
                }
                (t, true)
            } else {
                let t = crate::random::get_random_number();
                proof {
                    tfw = t@;
                }
                (t, true)
            }
        },
        None => {
            let t = crate::random::get_random_number();
            proof {
                tfw = t@;
            }
            (t, false)
        },
    };
    let ghost cookie = lookup(rv.headers, cookie_key());
    proof {
        assert(token@ == spec_token(cookie, tfw));
        assert(had_cookie == (cookie is Some));
        assert(all_digits(tfw));
    }
    let mut sess = state.sessions.resolve(token.as_slice());
    let nonce = crate::random::get_random_number();
    let ghost nf = nonce@;
    let ghost sess0 = sess@;
    let (status, body) = do_request_with_nonce(
        &state.assets,
        &mut state.entries,
        &mut sess,
        req.method,
        req.url.as_slice(),
        &req.headers,
        req.body.as_slice(),
        nonce,
    );
    state.sessions.put(token.as_slice(), sess);
    let mut hdrs: Vec<(Vec<u8>, Vec<u8>)> = Vec::new();
    if !had_cookie {
        let mut cookie_val = token_prefix_bytes();
        push_bytes(&mut cookie_val, token.as_slice());
        let suffix = samesite_suffix_bytes();
        push_bytes(&mut cookie_val, suffix.as_slice());
        let name = set_cookie_name_bytes();
        hdrs.push((name, cookie_val));
    }
    let st = status_token(status);
    let resp = serialize_response(st.as_slice(), &hdrs, body.as_slice());
    proof {
        let out = spec_handle(
            old(state).assets@,
            old(state).entries.deep_view(),
            old(state).sessions@,
            rv,
            tfw,
            nf,
        );
        assert(out.token == token@);
        if had_cookie {
            assert(crate::codec::pairs_view(hdrs@) =~= Seq::<(Seq<u8>, Seq<u8>)>::empty());
        } else {
            assert(crate::codec::pairs_view(hdrs@) =~= seq![
                (set_cookie_name(), token_prefix() + token@ + samesite_suffix()),
            ]);
        }
        assert(resp@ == out.response);
        assert(final(state).entries.deep_view() == out.entries);
        assert(all_digits(tfw) && all_digits(nf));
    }
    Ok(resp)
}


/// The round trip holds of every response the server emits: for any raw
/// request that parses, the response `spec_handle` serializes has a first
/// line that parses back to the dispatched status token, and a header block
/// whose `content-length` entry is exactly the decimal byte length of the
/// body. This discharges the serialize/re-parse lemma's side conditions for
/// the one header the server ever adds.
#[verifier::rlimit(100)]
pub proof fn lemma_run_server_round_trip(
    assets: crate::router::AssetsView,
    entries: Seq<EntryView>,
    sessions: Seq<(Seq<u8>, SessionView)>,
    raw: Seq<u8>,
    token_fresh: Seq<u8>,
    nonce_fresh: Seq<u8>,
)
    requires
        spec_parse_request(raw) is Ok,
        all_digits(token_fresh),
        ({
            let req = spec_parse_request(raw)->Ok_0;
            let token = spec_token(lookup(req.headers, cookie_key()), token_fresh);
            let sess = match session_lookup(sessions, token) {
                Some(s) => s,
                None => empty_session(),
            };
            spec_do_request(
                assets,
                entries,
                sess,
                req.method,
                req.url,
                req.body,
                nonce_fresh,
            ).body.len() <= usize::MAX
        }),
    ensures
        ({
            let req = spec_parse_request(raw)->Ok_0;
            let token = spec_token(lookup(req.headers, cookie_key()), token_fresh);
            let sess = match session_lookup(sessions, token) {
                Some(s) => s,
                None => empty_session(),
            };
            let route = spec_do_request(
                assets,
                entries,
                sess,
                req.method,
                req.url,
                req.body,
                nonce_fresh,
            );
            let out = spec_handle(assets, entries, sessions, req, token_fresh, nonce_fresh);
            let e1 = line_end(out.response, 0);
            &&& spec_parse_status(out.response.take(e1)) == Some(status_bytes(route.status))
            &&& lookup(header_pairs_from(out.response, e1), cl_key()) == Some(
                crate::text::dec_rep(route.body.len() as nat),
            )
            &&& content_length_of(header_pairs_from(out.response, e1)) == route.body.len()
        }),
{
    let req = spec_parse_request(raw)->Ok_0;
    let cookie = lookup(req.headers, cookie_key());
    let token = spec_token(cookie, token_fresh);
    let sess = match session_lookup(sessions, token) {
        Some(s) => s,
        None => empty_session(),
    };
    let route = spec_do_request(assets, entries, sess, req.method, req.url, req.body, nonce_fresh);
    let out = spec_handle(assets, entries, sessions, req, token_fresh, nonce_fresh);
    let st = status_bytes(route.status);
    assert(req.headers == header_pairs_from(raw, line_end(raw, 0)));
    assert(newline_free(token)) by {
        match cookie {
            Some(c) => {
                if c.len() >= 6 && c.take(6) == token_prefix() {
                    if raw.len() > 0 {
                        crate::codec::lemma_line_end_bounds(raw, 0);
                    }
                    lemma_header_lookup_newline_free(raw, line_end(raw, 0), cookie_key());
                    assert(newline_free(c));
                    assert forall|i: int| 0 <= i < token.len() implies token[i] != 10 by {
                        assert(token[i] == c[6 + i]);
                    }
                } else {
                    assert(forall|i: int|
                        0 <= i < token.len() ==> crate::text::is_digit(#[trigger] token[i]));
                }
            },
            None => {
                assert(forall|i: int|
                    0 <= i < token.len() ==> crate::text::is_digit(#[trigger] token[i]));
            },
        }
    }
    assert(forall|i: int| 0 <= i < st.len() ==> st[i] != 10) by {
        match route.status {
            Status::Okay => {
            },
            Status::NotFound => {
            },
            Status::Unauthorized => {
            },
        }
    }
    let hdrs: Seq<(Seq<u8>, Seq<u8>)> = if cookie is Some {
        Seq::empty()
    } else {
        seq![(set_cookie_name(), token_prefix() + token + samesite_suffix())]
    };
    assert forall|j: int| 0 <= j < hdrs.len() implies serializable_header(#[trigger] hdrs[j]) by {
        let p = hdrs[0];
        assert(p.0 == set_cookie_name());
        assert(forall|i: int|
            0 <= i < p.0.len() ==> (#[trigger] p.0[i]) != 10 && p.0[i] != 58);
        assert(crate::text::lower(p.0).len() == 10);
        assert(cl_key().len() == 14);
        assert forall|i: int| 0 <= i < p.1.len() implies (#[trigger] p.1[i]) != 10 by {
            if i < 6 {
                assert(p.1[i] == token_prefix()[i]);
            } else if i < 6 + token.len() {
                assert(p.1[i] == token[i - 6]);
            } else {
                assert(p.1[i] == samesite_suffix()[i - 6 - token.len()]);
            }
        }
    }
    lemma_response_round_trip(st, hdrs, route.body);
    assert(out.response == crate::codec::spec_serialize_response(st, hdrs, route.body));
}

} // verus!
