//! The rendered pages: the guestbook view, the fixed error pages, and the
//! defensive server-error response.
use vstd::prelude::*;

verus! {

use vstd::string::StrSliceExecFns;
use vstd::string::StringSliceAdditionalSpecFns;

use crate::codec::ServerError;
use crate::codec::Method;
use crate::codec::method_bytes;
use crate::codec::method_token;
use crate::codec::spec_serialize_response;
use crate::codec::serialize_response;
use crate::escape::dumb_escape;
use crate::escape::dumb_html_escape;
use crate::guestbook::EntryView;
use crate::guestbook::GuestbookEntry;
use crate::session::Session;
use crate::session::SessionView;
use crate::text::all_digits;
use crate::text::push_bytes;

/// The page shown for a failed login attempt.
pub open spec fn invalid_login_html() -> Seq<u8> {
    "<html><body><h1>Invalid Login!</h1><a href=\"/login\">Try again!</a></body></html>".spec_bytes()
}

/// Exec bytes of the failed-login page.
pub fn invalid_login_page() -> (r: Vec<u8>)
    ensures
        r@ == invalid_login_html(),
{
    "<html><body><h1>Invalid Login!</h1><a href=\"/login\">Try again!</a></body></html>".as_bytes_vec()
}

/// The page shown when a mutating action needs a login first.
pub open spec fn login_required_html() -> Seq<u8> {
    "<html><body><h1>You must be logged in to perform this action!</h1><a href=\"/login\">Sign in!</a></body></html>".spec_bytes()
}

/// Exec bytes of the login-required page.
pub fn login_required_page() -> (r: Vec<u8>)
    ensures
        r@ == login_required_html(),
{
    "<html><body><h1>You must be logged in to perform this action!</h1><a href=\"/login\">Sign in!</a></body></html>".as_bytes_vec()
}

/// Head of the guestbook view, up to the first entry.
pub open spec fn comments_head() -> Seq<u8> {
    "<html><head><link rel=\"stylesheet\" href=\"comment.css\"/></head><body>".spec_bytes()
}

/// One rendered entry: the comment and its author, both defused.
pub open spec fn entry_html(e: EntryView) -> Seq<u8> {
    "<p>".spec_bytes() + dumb_escape(e.comment) + " <i>by ".spec_bytes() + dumb_escape(e.author)
        + "</i></p>".spec_bytes()
}

/// All entries, rendered in insertion order.
pub open spec fn entries_html(es: Seq<EntryView>) -> Seq<u8>
    decreases es.len(),
{
    if es.len() == 0 {
        Seq::empty()
    } else {
        entry_html(es.first()) + entries_html(es.drop_first())
    }
}

pub proof fn lemma_entries_html_push(es: Seq<EntryView>, e: EntryView)
    ensures
        entries_html(es.push(e)) == entries_html(es) + entry_html(e),
    decreases es.len(),
{
    if es.len() == 0 {
        assert(es.push(e).drop_first() =~= Seq::<EntryView>::empty());
        assert(es.push(e).first() == e);
        assert(entries_html(Seq::<EntryView>::empty()) =~= Seq::<u8>::empty());
        assert(entries_html(es.push(e)) =~= entries_html(es) + entry_html(e));
    } else {
        assert(es.push(e).drop_first() =~= es.drop_first().push(e));
        assert(es.push(e).first() == es.first());
        lemma_entries_html_push(es.drop_first(), e);
        assert(entry_html(es.first()) + (entries_html(es.drop_first()) + entry_html(e)) =~= (
        entry_html(es.first()) + entries_html(es.drop_first())) + entry_html(e));
    }
}

/// The form block under the entries: a post form with a hidden nonce for a
/// logged-in user, or a sign-in link for everyone else.
pub open spec fn login_form_html(user: Option<Seq<u8>>, nonce: Seq<u8>) -> Seq<u8> {
    match user {
        Some(u) => "<h1>Hello, ".spec_bytes() + u
            + "</h1> <form action=\"add\" method=\"post\"> <p><input name=\"guest\"></p> <p><button>Sign the book!</button></p> <input name=\"nonce\" type=\"hidden\" value=\"".spec_bytes()
            + nonce + "\"> </form>".spec_bytes(),
        None => "<a href=\"/login\">Sign in to write in the guest book</a>".spec_bytes(),
    }
}

/// Tail of the guestbook view, after the form block.
pub open spec fn comments_tail() -> Seq<u8> {
    "<strong></strong><script src=\"/comment.js\"></script></body></html>".spec_bytes()
}

/// The whole guestbook view for the given entries, user and nonce. The
/// nonce only shows for a logged-in user.
pub open spec fn comments_html(es: Seq<EntryView>, user: Option<Seq<u8>>, nonce: Seq<u8>) -> Seq<
    u8,
> {
    comments_head() + entries_html(es) + login_form_html(user, nonce) + comments_tail()
}

/// Exec render of the guestbook view with a caller-chosen nonce. For a
/// logged-in session the nonce is stored as the session's current one and
/// embedded in the form; otherwise the session is untouched.
pub fn get_comments_html_with_nonce(
    session: &mut Session,
    entries: &Vec<GuestbookEntry>,
    nonce: Vec<u8>,
) -> (r: Vec<u8>)
    ensures
        match old(session)@.user {
            Some(u) => final(session)@ == (SessionView { user: Some(u), nonce: Some(nonce@) })
                && r@ == comments_html(entries.deep_view(), Some(u), nonce@),
            None => final(session)@ == old(session)@ && r@ == comments_html(
                entries.deep_view(),
                None,
                Seq::<u8>::empty(),
            ),
        },
{
    let mut out = "<html><head><link rel=\"stylesheet\" href=\"comment.css\"/></head><body>".as_bytes_vec();
    let ghost dv = entries.deep_view();
    proof {
        assert(dv.take(0) =~= Seq::<EntryView>::empty());
        assert(entries_html(dv.take(0)) =~= Seq::<u8>::empty());
        assert(out@ =~= comments_head() + entries_html(dv.take(0)));
    }
    let mut i: usize = 0;
    while i < entries.len()
        invariant
            i <= entries@.len(),
            dv == entries.deep_view(),
            dv.len() == entries@.len(),
            out@ == comments_head() + entries_html(dv.take(i as int)),
        decreases entries@.len() - i,
    {
        let e = &entries[i];
        let ghost out0 = out@;
        let p_open = "<p>".as_bytes_vec();
        push_bytes(&mut out, p_open.as_slice());
        let esc_comment = dumb_html_escape(e.comment.as_slice());
        push_bytes(&mut out, esc_comment.as_slice());
        let by_mid = " <i>by ".as_bytes_vec();
        push_bytes(&mut out, by_mid.as_slice());
        let esc_author = dumb_html_escape(e.author.as_slice());
        push_bytes(&mut out, esc_author.as_slice());
        let p_close = "</i></p>".as_bytes_vec();
        push_bytes(&mut out, p_close.as_slice());
        proof {
            assert(dv[i as int] == e@);
            assert(out@ =~= out0 + entry_html(dv[i as int]));
            assert(dv.take(i + 1) =~= dv.take(i as int).push(dv[i as int]));
            lemma_entries_html_push(dv.take(i as int), dv[i as int]);
            assert(out@ =~= comments_head() + entries_html(dv.take(i + 1)));
        }
        i = i + 1;
    }
    proof {
        assert(dv.take(dv.len() as int) =~= dv);
    }
    let logged_in = session.user.is_some();
    if logged_in {
        let ghost u = old(session)@.user->0;
        let ghost out1 = out@;
        let hello = "<h1>Hello, ".as_bytes_vec();
        push_bytes(&mut out, hello.as_slice());
        match &session.user {
            Some(uv) => push_bytes(&mut out, uv.as_slice()),
            None => (),
        }
        let form_mid = "</h1> <form action=\"add\" method=\"post\"> <p><input name=\"guest\"></p> <p><button>Sign the book!</button></p> <input name=\"nonce\" type=\"hidden\" value=\"".as_bytes_vec();
        push_bytes(&mut out, form_mid.as_slice());
        push_bytes(&mut out, nonce.as_slice());
        let form_end = "\"> </form>".as_bytes_vec();
        push_bytes(&mut out, form_end.as_slice());
        proof {
            assert(out@ =~= out1 + login_form_html(Some(u), nonce@));
        }
        session.nonce = Some(nonce);
    } else {
        let link = "<a href=\"/login\">Sign in to write in the guest book</a>".as_bytes_vec();
        let ghost out1 = out@;
        push_bytes(&mut out, link.as_slice());
        proof {
            assert(out@ =~= out1 + login_form_html(None, Seq::<u8>::empty()));
        }
    }
    let tail = "<strong></strong><script src=\"/comment.js\"></script></body></html>".as_bytes_vec();
    push_bytes(&mut out, tail.as_slice());
    proof {
        if old(session)@.user is Some {
            assert(out@ =~= comments_html(dv, old(session)@.user, nonce@));
        } else {
            assert(out@ =~= comments_html(dv, None, Seq::<u8>::empty()));
        }
    }
    out
}

/// Exec render of the guestbook view as the router uses it: for a logged-in
/// session a fresh random nonce is drawn, stored, and embedded; the page is
/// otherwise a pure function of the entries and the session's user.
pub fn get_comments_html(session: &mut Session, entries: &Vec<GuestbookEntry>) -> (r: Vec<u8>)
    ensures
        match old(session)@.user {
            Some(u) => exists|n: Seq<u8>|
                #[trigger] all_digits(n) && final(session)@ == (SessionView {
                    user: Some(u),
                    nonce: Some(n),
                }) && r@ == comments_html(entries.deep_view(), Some(u), n),
            None => final(session)@ == old(session)@ && r@ == comments_html(
                entries.deep_view(),
                None,
                Seq::<u8>::empty(),
            ),
        },
{
    let nonce = crate::random::get_random_number();
    let ghost n = nonce@;
    let r = get_comments_html_with_nonce(session, entries, nonce);
    proof {
        if old(session)@.user is Some {
            assert(all_digits(n));
        }
    }
    r
}

/// The 404 page: it names the unmatched verb and path.
pub open spec fn not_found_html(m: Method, url: Seq<u8>) -> Seq<u8> {
    "<html><body><h1>".spec_bytes() + method_bytes(m) + " ".spec_bytes() + url
        + " not found!</h1></body></html>".spec_bytes()
}

/// Exec render of the 404 page.
pub fn get_not_found_html(method: Method, url: &[u8]) -> (r: Vec<u8>)
    ensures
        r@ == not_found_html(method, url@),
{
    let mut out = "<html><body><h1>".as_bytes_vec();
    let m = method_token(method);
    push_bytes(&mut out, m.as_slice());
    let sp = " ".as_bytes_vec();
    push_bytes(&mut out, sp.as_slice());
    push_bytes(&mut out, url);
    let tail = " not found!</h1></body></html>".as_bytes_vec();
    push_bytes(&mut out, tail.as_slice());
    proof {
        assert(out@ =~= not_found_html(method, url@));
    }
    out
}

/// The printed name of a fatal connection error, as the defensive error
/// page spells it.
pub open spec fn error_name(err: ServerError) -> Seq<u8> {
    match err {
        ServerError::MalformedHeader => "MalformedHeader".spec_bytes(),
        ServerError::Utf8ParseError => "Utf8ParseError".spec_bytes(),
        ServerError::UnsupportedMethod => "UnsupportedMethod".spec_bytes(),
        ServerError::WriteToStream => "WriteToStream".spec_bytes(),
    }
}

/// The defensive server-error page body.
pub open spec fn server_error_body(err: ServerError) -> Seq<u8> {
    "<html><body><p>Server error!</p><p>Details: ".spec_bytes() + error_name(err)
        + "</p></body></html>".spec_bytes()
}

/// Exec render of the defensive server-error page body.
pub fn get_server_error_body(err: ServerError) -> (r: Vec<u8>)
    ensures
        r@ == server_error_body(err),
{
    let mut out = "<html><body><p>Server error!</p><p>Details: ".as_bytes_vec();
    let name = match err {
        ServerError::MalformedHeader => "MalformedHeader".as_bytes_vec(),
        ServerError::Utf8ParseError => "Utf8ParseError".as_bytes_vec(),
        ServerError::UnsupportedMethod => "UnsupportedMethod".as_bytes_vec(),
        ServerError::WriteToStream => "WriteToStream".as_bytes_vec(),
    };
    push_bytes(&mut out, name.as_slice());
    let tail = "</p></body></html>".as_bytes_vec();
    push_bytes(&mut out, tail.as_slice());
    proof {
        assert(out@ =~= server_error_body(err));
    }
    out
}

/// The `500` status token of the defensive response.
pub open spec fn status_500() -> Seq<u8> {
    seq!['5' as u8, '0' as u8, '0' as u8]
}

/// The whole defensive server-error response: a `500` status line, a
/// computed `Content-Length`, no other headers, then the error page body.
pub open spec fn server_error_response(err: ServerError) -> Seq<u8> {
    spec_serialize_response(status_500(), Seq::empty(), server_error_body(err))
}

/// Exec render of the whole defensive server-error response. Nothing in the
/// normal request path produces it; it stands ready for a driver that wants
/// to answer rather than drop a connection.
pub fn get_server_error_response(err: ServerError) -> (r: Vec<u8>)
    ensures
        r@ == server_error_response(err),
{
    let body = get_server_error_body(err);
    let mut status: Vec<u8> = Vec::new();
    status.push(53);
    status.push(48);
    status.push(48);
    proof {
        assert(status@ =~= status_500());
    }
    let headers: Vec<(Vec<u8>, Vec<u8>)> = Vec::new();
    let r = serialize_response(status.as_slice(), &headers, body.as_slice());
    proof {
        assert(crate::codec::pairs_view(headers@) =~= Seq::<(Seq<u8>, Seq<u8>)>::empty());
    }
    r
}

} // verus!
