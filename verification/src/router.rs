//! The router: form decoding and the (method, path) dispatch table.
use vstd::prelude::*;

verus! {

use crate::auth::do_login;
use crate::auth::spec_login;
use crate::codec::Method;
use crate::codec::Status;
use crate::dict::Dict;
use crate::dict::lookup;
use crate::guestbook::AddEntryError;
use crate::guestbook::EntryView;
use crate::guestbook::GuestbookEntry;
use crate::guestbook::add_entry;
use crate::guestbook::guest_key;
use crate::guestbook::nonce_key;
use crate::guestbook::spec_add_entry;
use crate::html::comments_html;
use crate::html::get_comments_html_with_nonce;
use crate::html::get_not_found_html;
use crate::html::invalid_login_html;
use crate::html::invalid_login_page;
use crate::html::login_required_html;
use crate::html::login_required_page;
use crate::html::not_found_html;
use crate::session::Session;
use crate::session::SessionView;
use crate::text::all_digits;
use crate::text::bytes_eq;
use crate::text::copy_bytes;
use crate::text::find_byte_from;
use crate::text::find_from;
use crate::text::lemma_find_from_bounds;
use crate::text::sub_bytes;
use crate::auth::username_key;
use crate::auth::password_key;

/// The binding contributed by one form field: it splits at its first `=`
/// into a name and a value, and a field with no `=` contributes nothing.
pub open spec fn field_pair(f: Seq<u8>) -> Seq<(Seq<u8>, Seq<u8>)> {
    match find_from(f, 61, 0) {
        Some(i) => seq![(f.take(i), f.skip(i + 1))],
        None => Seq::empty(),
    }
}

/// The form bindings read from `s` at or after `pos`: fields are separated
/// by `&`, and the last field runs to the end.
pub open spec fn form_pairs_from(s: Seq<u8>, pos: int) -> Seq<(Seq<u8>, Seq<u8>)>
    decreases s.len() - pos,
    when 0 <= pos <= s.len()
    via form_pairs_from_decreases
{
    match find_from(s, 38, pos) {
        Some(a) => field_pair(s.subrange(pos, a)) + form_pairs_from(s, a + 1),
        None => field_pair(s.subrange(pos, s.len() as int)),
    }
}

#[via_fn]
proof fn form_pairs_from_decreases(s: Seq<u8>, pos: int) {
    lemma_find_from_bounds(s, 38, pos);
}

/// The whole decoded form. No percent-decoding happens anywhere: separators
/// are `&` and `=` alone.
pub open spec fn form_pairs(s: Seq<u8>) -> Seq<(Seq<u8>, Seq<u8>)> {
    form_pairs_from(s, 0)
}

/// Insert one field's binding, if it has one.
fn insert_field(d: &mut Dict, field: Vec<u8>)
    ensures
        forall|k: Seq<u8>|
            lookup(final(d)@, k) == crate::codec::or_else(
                lookup(field_pair(field@), k),
                lookup(old(d)@, k),
            ),
{
    match find_byte_from(field.as_slice(), 61, 0) {
        Some(i) => {
            proof {
                lemma_find_from_bounds(field@, 61, 0);
            }
            let key = sub_bytes(field.as_slice(), 0, i);
            let value = sub_bytes(field.as_slice(), i + 1, field.len());
            let ghost p = (key@, value@);
            proof {
                assert(field@.take(i as int) =~= field@.subrange(0, i as int));
                assert(field@.skip(i + 1) =~= field@.subrange(i + 1, field@.len() as int));
                assert(field_pair(field@) =~= seq![p]);
            }
            let ghost d0 = d@;
            d.insert(key, value);
            proof {
                assert(d@.drop_last() =~= d0);
                assert(seq![p].drop_last() =~= Seq::<(Seq<u8>, Seq<u8>)>::empty());
                assert forall|k: Seq<u8>|
                    lookup(d@, k) == crate::codec::or_else(
                        lookup(field_pair(field@), k),
                        lookup(d0, k),
                    ) by {
                    assert(lookup(Seq::<(Seq<u8>, Seq<u8>)>::empty(), k) is None);
                }
            }
        },
        None => {
            proof {
                assert(field_pair(field@) =~= Seq::<(Seq<u8>, Seq<u8>)>::empty());
                assert forall|k: Seq<u8>|
                    lookup(d@, k) == crate::codec::or_else(
                        lookup(field_pair(field@), k),
                        lookup(d@, k),
                    ) by {
                    assert(lookup(Seq::<(Seq<u8>, Seq<u8>)>::empty(), k) is None);
                }
            }
        },
    }
}

/// Exec decode of a form body into its field bindings. The result answers
/// lookups exactly as the decoded binding sequence does.
pub fn decode_form(body: &[u8]) -> (r: Dict)
    ensures
        forall|k: Seq<u8>| lookup(r@, k) == lookup(form_pairs(body@), k),
{
    let n = body.len();
    let mut d = Dict::new();
    let mut pos: usize = 0;
    loop
        invariant
            pos <= n,
            n == body@.len(),
            forall|k: Seq<u8>|
                lookup(form_pairs(body@), k) == crate::codec::or_else(
                    lookup(form_pairs_from(body@, pos as int), k),
                    lookup(d@, k),
                ),
        decreases n - pos,
    {
        match find_byte_from(body, 38, pos) {
            Some(a) => {
                proof {
                    lemma_find_from_bounds(body@, 38, pos as int);
                    assert(a < n);
                }
                let field = sub_bytes(body, pos, a);
                let ghost fp = field_pair(field@);
                let ghost rest = form_pairs_from(body@, a + 1);
                proof {
                    assert(field@ =~= body@.subrange(pos as int, a as int));
                    assert(form_pairs_from(body@, pos as int) == fp + rest);
                }
                let ghost d0 = d@;
                insert_field(&mut d, field);
                proof {
                    assert forall|k: Seq<u8>|
                        lookup(form_pairs(body@), k) == crate::codec::or_else(
                            lookup(rest, k),
                            lookup(d@, k),
                        ) by {
                        crate::codec::lemma_lookup_concat(fp, rest, k);
                    }
                }
                pos = a + 1;
            },
            None => {
                proof {
                    lemma_find_from_bounds(body@, 38, pos as int);
                }
                let field = sub_bytes(body, pos, n);
                let ghost fp = field_pair(field@);
                proof {
                    assert(field@ =~= body@.subrange(pos as int, n as int));
                    assert(form_pairs_from(body@, pos as int) == fp);
                }
                insert_field(&mut d, field);
                return d;
            },
        }
    }
}

/// The fixed static-content inputs the router serves verbatim: the login
/// form page and the two script/style assets.
pub struct Assets {
    pub login_form: Vec<u8>,
    pub comment_js: Vec<u8>,
    pub comment_css: Vec<u8>,
}

/// Ghost image of the static assets.
#[verifier::ext_equal]
pub ghost struct AssetsView {
    pub login_form: Seq<u8>,
    pub comment_js: Seq<u8>,
    pub comment_css: Seq<u8>,
}

impl View for Assets {
    type V = AssetsView;

    open spec fn view(&self) -> AssetsView {
        AssetsView {
            login_form: self.login_form@,
            comment_js: self.comment_js@,
            comment_css: self.comment_css@,
        }
    }
}

/// What handling a request leaves behind: the response pieces and the new
/// store contents.
#[verifier::ext_equal]
pub ghost struct RouteOut {
    pub status: Status,
    pub body: Seq<u8>,
    pub entries: Seq<EntryView>,
    pub session: SessionView,
}

/// The session as the guestbook view leaves it: rendering for a logged-in
/// user stores the fresh nonce; everyone else's session stays as it was.
pub open spec fn rendered_session(session: SessionView, nonce: Seq<u8>) -> SessionView {
    if session.user is Some {
        SessionView { user: session.user, nonce: Some(nonce) }
    } else {
        session
    }
}

/// The guestbook page as rendered for `session`: the nonce shows only for a
/// logged-in user.
pub open spec fn rendered_page(entries: Seq<EntryView>, session: SessionView, nonce: Seq<u8>) -> Seq<
    u8,
> {
    comments_html(
        entries,
        session.user,
        if session.user is Some {
            nonce
        } else {
            Seq::<u8>::empty()
        },
    )
}

/// The path `/`.
pub open spec fn url_root() -> Seq<u8> {
    seq!['/' as u8]
}

/// The path `/login`.
pub open spec fn url_login() -> Seq<u8> {
    seq!['/' as u8, 'l' as u8, 'o' as u8, 'g' as u8, 'i' as u8, 'n' as u8]
}

/// The path `/comment.js`.
pub open spec fn url_js() -> Seq<u8> {
    seq!['/' as u8, 'c' as u8, 'o' as u8, 'm' as u8, 'm' as u8, 'e' as u8, 'n' as u8, 't' as u8,
        '.' as u8, 'j' as u8, 's' as u8]
}

/// The path `/comment.css`.
pub open spec fn url_css() -> Seq<u8> {
    seq!['/' as u8, 'c' as u8, 'o' as u8, 'm' as u8, 'm' as u8, 'e' as u8, 'n' as u8, 't' as u8,
        '.' as u8, 'c' as u8, 's' as u8, 's' as u8]
}

/// The path `/add`.
pub open spec fn url_add() -> Seq<u8> {
    seq!['/' as u8, 'a' as u8, 'd' as u8, 'd' as u8]
}

/// The dispatch table. `nonce` is the fresh value a render may store and
/// embed; everything else is a function of the arguments.
pub open spec fn spec_do_request(
    assets: AssetsView,
    entries: Seq<EntryView>,
    session: SessionView,
    method: Method,
    url: Seq<u8>,
    body: Seq<u8>,
    nonce: Seq<u8>,
) -> RouteOut {
    if method == Method::Get && url == url_root() {
        RouteOut {
            status: Status::Okay,
            body: rendered_page(entries, session, nonce),
            entries,
            session: rendered_session(session, nonce),
        }
    } else if method == Method::Get && url == url_login() {
        RouteOut { status: Status::Okay, body: assets.login_form, entries, session }
    } else if method == Method::Get && url == url_js() {
        RouteOut { status: Status::Okay, body: assets.comment_js, entries, session }
    } else if method == Method::Get && url == url_css() {
        RouteOut { status: Status::Okay, body: assets.comment_css, entries, session }
    } else if method == Method::Post && url == url_root() {
        let login = spec_login(session, form_pairs(body));
        if login.0 {
            RouteOut {
                status: Status::Okay,
                body: rendered_page(entries, login.1, nonce),
                entries,
                session: rendered_session(login.1, nonce),
            }
        } else {
            RouteOut { status: Status::Unauthorized, body: invalid_login_html(), entries, session }
        }
    } else if method == Method::Post && url == url_add() {
        let added = spec_add_entry(entries, session, form_pairs(body));
        if added.0 == Result::<(), AddEntryError>::Err(AddEntryError::RequireLogin) {
            RouteOut { status: Status::Unauthorized, body: login_required_html(), entries, session }
        } else {
            RouteOut {
                status: Status::Okay,
                body: rendered_page(added.1, session, nonce),
                entries: added.1,
                session: rendered_session(session, nonce),
            }
        }
    } else {
        RouteOut { status: Status::NotFound, body: not_found_html(method, url), entries, session }
    }
}

fn url_root_bytes() -> (r: Vec<u8>)
    ensures
        r@ == url_root(),
{
    let mut v: Vec<u8> = Vec::new();
    v.push(47);
    proof {
        assert(v@ =~= url_root());
    }
    v
}

fn url_login_bytes() -> (r: Vec<u8>)
    ensures
        r@ == url_login(),
{
    let mut v: Vec<u8> = Vec::new();
    v.push(47);
    v.push(108);
    v.push(111);
    v.push(103);
    v.push(105);
    v.push(110);
    proof {
        assert(v@ =~= url_login());
    }
    v
}

fn url_js_bytes() -> (r: Vec<u8>)
    ensures
        r@ == url_js(),
{
    let mut v: Vec<u8> = Vec::new();
    v.push(47);
    v.push(99);
    v.push(111);
    v.push(109);
    v.push(109);
    v.push(101);
    v.push(110);
    v.push(116);
    v.push(46);
    v.push(106);
    v.push(115);
    proof {
        assert(v@ =~= url_js());
    }
    v
}

fn url_css_bytes() -> (r: Vec<u8>)
    ensures
        r@ == url_css(),
{
    let mut v: Vec<u8> = Vec::new();
    v.push(47);
    v.push(99);
    v.push(111);
    v.push(109);
    v.push(109);
    v.push(101);
    v.push(110);
    v.push(116);
    v.push(46);
    v.push(99);
    v.push(115);
    v.push(115);
    proof {
        assert(v@ =~= url_css());
    }
    v
}

fn url_add_bytes() -> (r: Vec<u8>)
    ensures
        r@ == url_add(),
{
    let mut v: Vec<u8> = Vec::new();
    v.push(47);
    v.push(97);
    v.push(100);
    v.push(100);
    proof {
        assert(v@ =~= url_add());
    }
    v
}

/// Exec dispatch with a caller-chosen fresh nonce, faithful to
/// `spec_do_request`.
pub fn do_request_with_nonce(
    assets: &Assets,
    entries: &mut Vec<GuestbookEntry>,
    session: &mut Session,
    method: Method,
    url: &[u8],
    _headers: &Dict,
    body: &[u8],
    nonce: Vec<u8>,
) -> (r: (Status, Vec<u8>))
    ensures
        ({
            let out = spec_do_request(
                assets@,
                old(entries).deep_view(),
                old(session)@,
                method,
                url@,
                body@,
                nonce@,
            );
            r.0 == out.status && r.1@ == out.body && final(entries).deep_view() == out.entries
                && final(session)@ == out.session
        }),
{
    let is_get = match method {
        Method::Get => true,
        Method::Post => false,
    };
    let root = url_root_bytes();
    if is_get && bytes_eq(url, root.as_slice()) {
        let page = get_comments_html_with_nonce(session, entries, nonce);
        return (Status::Okay, page);
    }
    let login_url = url_login_bytes();
    if is_get && bytes_eq(url, login_url.as_slice()) {
        return (Status::Okay, copy_bytes(&assets.login_form));
    }
    let js_url = url_js_bytes();
    if is_get && bytes_eq(url, js_url.as_slice()) {
        return (Status::Okay, copy_bytes(&assets.comment_js));
    }
    let css_url = url_css_bytes();
    if is_get && bytes_eq(url, css_url.as_slice()) {
        return (Status::Okay, copy_bytes(&assets.comment_css));
    }
    if !is_get && bytes_eq(url, root.as_slice()) {
        let params = decode_form(body);
        let ghost fp = form_pairs(body@);
        proof {
            assert(lookup(params@, username_key()) == lookup(fp, username_key()));
            assert(lookup(params@, password_key()) == lookup(fp, password_key()));
            assert(spec_login(old(session)@, params@) == spec_login(old(session)@, fp));
        }
        let logged_in = do_login(session, &params);
        if logged_in {
            let page = get_comments_html_with_nonce(session, entries, nonce);
            return (Status::Okay, page);
        } else {
            return (Status::Unauthorized, invalid_login_page());
        }
    }
    let add_url = url_add_bytes();
    if !is_get && bytes_eq(url, add_url.as_slice()) {
        let params = decode_form(body);
        let ghost fp = form_pairs(body@);
        proof {
            assert(lookup(params@, nonce_key()) == lookup(fp, nonce_key()));
            assert(lookup(params@, guest_key()) == lookup(fp, guest_key()));
            assert(spec_add_entry(old(entries).deep_view(), old(session)@, params@)
                == spec_add_entry(old(entries).deep_view(), old(session)@, fp));
        }
        match add_entry(entries, session, &params) {
            Err(AddEntryError::RequireLogin) => {
                return (Status::Unauthorized, login_required_page());
            },
            _ => {
                let page = get_comments_html_with_nonce(session, entries, nonce);
                return (Status::Okay, page);
            },
        }
    }
    (Status::NotFound, get_not_found_html(method, url))
}

/// Exec dispatch as the connection driver calls it: any nonce a render
/// needs is drawn fresh here, so only its digit-string shape is promised.
pub fn do_request(
    assets: &Assets,
    entries: &mut Vec<GuestbookEntry>,
    session: &mut Session,
    method: Method,
    url: &[u8],
    headers: &Dict,
    body: &[u8],
) -> (r: (Status, Vec<u8>))
    ensures
        exists|n: Seq<u8>|
            {
                let out = spec_do_request(
                    assets@,
                    old(entries).deep_view(),
                    old(session)@,
                    method,
                    url@,
                    body@,
                    n,
                );
                &&& #[trigger] all_digits(n)
                &&& r.0 == out.status
                &&& r.1@ == out.body
                &&& final(entries).deep_view() == out.entries
                &&& final(session)@ == out.session
            },
{
    let nonce = crate::random::get_random_number();
    let ghost n = nonce@;
    let r = do_request_with_nonce(assets, entries, session, method, url, headers, body, nonce);
    proof {
        assert(all_digits(n));
    }
    r
}


/// A POST to `/add` from a session with no user answers 401 with the
/// login-required page, and neither the guestbook nor the session changes.
pub proof fn lemma_add_requires_login(
    assets: AssetsView,
    entries: Seq<EntryView>,
    session: SessionView,
    body: Seq<u8>,
    nonce: Seq<u8>,
)
    requires
        session.user is None,
    ensures
        ({
            let out = spec_do_request(
                assets,
                entries,
                session,
                Method::Post,
                url_add(),
                body,
                nonce,
            );
            &&& out.status == Status::Unauthorized
            &&& out.body == login_required_html()
            &&& out.entries == entries
            &&& out.session == session
        }),
{
    assert(url_add() != url_root()) by {
        assert(url_add().len() != url_root().len());
    }
}

/// A POST to `/add` whose submitted nonce does not equal the session's
/// currently stored one answers 200 with a re-rendered guestbook view, and
/// no entry is appended.
pub proof fn lemma_bad_nonce_rerenders(
    assets: AssetsView,
    entries: Seq<EntryView>,
    session: SessionView,
    body: Seq<u8>,
    nonce: Seq<u8>,
)
    requires
        session.user is Some,
        !crate::guestbook::nonce_matches(session, form_pairs(body)),
    ensures
        ({
            let out = spec_do_request(
                assets,
                entries,
                session,
                Method::Post,
                url_add(),
                body,
                nonce,
            );
            &&& out.status == Status::Okay
            &&& out.entries == entries
            &&& out.body == rendered_page(entries, session, nonce)
        }),
{
    assert(url_add() != url_root()) by {
        assert(url_add().len() != url_root().len());
    }
    assert(spec_add_entry(entries, session, form_pairs(body)).0 == Result::<
        (),
        AddEntryError,
    >::Err(AddEntryError::BadNonce));
}

} // verus!
