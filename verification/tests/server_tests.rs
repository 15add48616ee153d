use guestbook::codec::Method;
use guestbook::codec::ServerError;
use guestbook::codec::Status;
use guestbook::dict::Dict;
use guestbook::guestbook::GuestbookEntry;
use guestbook::html::get_server_error_body;
use guestbook::html::get_server_error_response;
use guestbook::router::do_request;
use guestbook::router::Assets;
use guestbook::run_server;
use guestbook::session::Session;
use guestbook::ServerState;

fn assets() -> Assets {
    Assets {
        login_form: b"<html><body>login form</body></html>".to_vec(),
        comment_js: b"window.alert('js');".to_vec(),
        comment_css: b"body { color: red; }".to_vec(),
    }
}

fn fresh_state() -> ServerState {
    ServerState::new(assets())
}

fn find_sub(haystack: &[u8], needle: &[u8]) -> Option<usize> {
    if needle.is_empty() || haystack.len() < needle.len() {
        return None;
    }
    (0..=haystack.len() - needle.len()).find(|&i| &haystack[i..i + needle.len()] == needle)
}

fn contains(haystack: &[u8], needle: &[u8]) -> bool {
    find_sub(haystack, needle).is_some()
}

/// The value between `marker` and the next `stop` byte.
fn extract_after(response: &[u8], marker: &[u8], stop: u8) -> Vec<u8> {
    let at = find_sub(response, marker).expect("marker not found") + marker.len();
    let mut out = Vec::new();
    for &b in &response[at..] {
        if b == stop {
            break;
        }
        out.push(b);
    }
    out
}

#[test]
fn index_get_request() {
    let mut state = fresh_state();
    let resp = run_server(&mut state, b"GET / HTTP/1.1\r\nHost: google.com\r\n\r\n").unwrap();
    assert!(resp.starts_with(b"HTTP/1.0 200 OK\r\n"));
    assert!(contains(&resp, b"Set-Cookie: token="));
    assert!(contains(&resp, b"SameSite=Lax"));
    assert!(contains(&resp, b"<p>Pavel was here <i>by crashoverride</i></p>"));
    assert!(contains(&resp, b"Sign in to write in the guest book"));
}

#[test]
fn index_get_escapes_stored_tags() {
    let mut state = fresh_state();
    state.entries.push(GuestbookEntry {
        comment: b"<script>hi</script>".to_vec(),
        author: b"<b>bold</b>".to_vec(),
    });
    let resp = run_server(&mut state, b"GET / HTTP/1.1\r\n\r\n").unwrap();
    assert!(contains(&resp, b"!!script>hi!!!script"));
    assert!(contains(&resp, b"!!b>bold!!!b"));
    assert!(!contains(&resp, b"<script>hi"));
    assert!(!contains(&resp, b"<b>bold"));
}

#[test]
fn request_with_cookie_gets_no_set_cookie() {
    let mut state = fresh_state();
    let resp = run_server(
        &mut state,
        b"GET / HTTP/1.1\r\nCookie: token=12345\r\n\r\n",
    )
    .unwrap();
    assert!(resp.starts_with(b"HTTP/1.0 200 OK\r\n"));
    assert!(!contains(&resp, b"Set-Cookie"));
}

#[test]
fn index_post_request() {
    let mut state = fresh_state();
    let body = b"username=crashoverride&password=0cool";
    let raw = format!(
        "POST / HTTP/1.1\r\nContent-Length:{}\r\nHost: google.com\r\n\r\n{}",
        body.len(),
        String::from_utf8(body.to_vec()).unwrap()
    );
    let resp = run_server(&mut state, raw.as_bytes()).unwrap();
    assert!(resp.starts_with(b"HTTP/1.0 200 OK\r\n"));
    assert!(contains(&resp, b"<h1>Hello, crashoverride</h1>"));
    let token = extract_after(&resp, b"Set-Cookie: token=", b';');
    let sess = state.sessions.resolve(&token);
    assert_eq!(sess.user, Some(b"crashoverride".to_vec()));
    assert!(sess.nonce.is_some());
}

#[test]
fn index_post_request_fail() {
    let mut state = fresh_state();
    let body = b"username=crashoverride&password=wrong";
    let raw = format!(
        "POST / HTTP/1.1\r\nContent-Length:{}\r\n\r\n{}",
        body.len(),
        String::from_utf8(body.to_vec()).unwrap()
    );
    let resp = run_server(&mut state, raw.as_bytes()).unwrap();
    assert!(resp.starts_with(b"HTTP/1.0 401 Unauthorized\r\n"));
    assert!(contains(&resp, b"<h1>Invalid Login!</h1>"));
    let token = extract_after(&resp, b"Set-Cookie: token=", b';');
    let sess = state.sessions.resolve(&token);
    assert_eq!(sess.user, None);
}

#[test]
fn login_get_request() {
    let mut state = fresh_state();
    let resp = run_server(&mut state, b"GET /login HTTP/1.1\r\n\r\n").unwrap();
    assert!(resp.starts_with(b"HTTP/1.0 200 OK\r\n"));
    assert!(contains(&resp, b"<html><body>login form</body></html>"));
}

#[test]
fn serve_get_js() {
    let mut state = fresh_state();
    let resp = run_server(&mut state, b"GET /comment.js HTTP/1.1\r\n\r\n").unwrap();
    assert!(resp.starts_with(b"HTTP/1.0 200 OK\r\n"));
    assert!(resp.ends_with(b"\r\n\r\nwindow.alert('js');"));
    assert!(contains(&resp, b"Content-Length: 19\r\n"));
}

#[test]
fn serve_get_css() {
    let mut state = fresh_state();
    let resp = run_server(&mut state, b"GET /comment.css HTTP/1.1\r\n\r\n").unwrap();
    assert!(resp.starts_with(b"HTTP/1.0 200 OK\r\n"));
    assert!(resp.ends_with(b"\r\n\r\nbody { color: red; }"));
}

#[test]
fn unhandled_path() {
    let mut state = fresh_state();
    let resp = run_server(&mut state, b"GET /does-not-exist HTTP/1.1\r\n\r\n").unwrap();
    assert!(resp.starts_with(b"HTTP/1.0 404 Not Found\r\n"));
    assert!(contains(&resp, b"<h1>GET /does-not-exist not found!</h1>"));
}

#[test]
fn bad_verb_is_a_connection_error() {
    let mut state = fresh_state();
    assert_eq!(
        run_server(&mut state, b"BREW /pot HTTP/1.1\r\n\r\n"),
        Err(ServerError::UnsupportedMethod)
    );
    assert_eq!(
        run_server(&mut state, b"nonsense\r\n\r\n"),
        Err(ServerError::MalformedHeader)
    );
    assert_eq!(state.entries.len(), 1);
}

#[test]
fn add_post_success() {
    let mut state = fresh_state();
    let login_body = b"username=crashoverride&password=0cool";
    let login = format!(
        "POST / HTTP/1.1\r\nContent-Length:{}\r\n\r\n{}",
        login_body.len(),
        String::from_utf8(login_body.to_vec()).unwrap()
    );
    let resp = run_server(&mut state, login.as_bytes()).unwrap();
    let token = extract_after(&resp, b"Set-Cookie: token=", b';');
    let nonce = extract_after(&resp, b"name=\"nonce\" type=\"hidden\" value=\"", b'"');
    assert!(!nonce.is_empty() || state.sessions.resolve(&token).nonce == Some(nonce.clone()));
    let body = format!(
        "guest=new_guest&nonce={}",
        String::from_utf8(nonce).unwrap()
    );
    let raw = format!(
        "POST /add HTTP/1.1\r\nContent-Length:{}\r\nCookie: token={}\r\n\r\n{}",
        body.len(),
        String::from_utf8(token).unwrap(),
        body
    );
    let resp = run_server(&mut state, raw.as_bytes()).unwrap();
    assert!(resp.starts_with(b"HTTP/1.0 200 OK\r\n"));
    assert!(contains(&resp, b"<p>new_guest <i>by crashoverride</i></p>"));
    assert_eq!(state.entries.len(), 2);
    assert_eq!(state.entries[1].comment, b"new_guest".to_vec());
    assert_eq!(state.entries[1].author, b"crashoverride".to_vec());
}

#[test]
fn add_post_fail_login() {
    let mut state = fresh_state();
    let body = b"guest=new_guest";
    let raw = format!(
        "POST /add HTTP/1.1\r\nContent-Length:{}\r\n\r\n{}",
        body.len(),
        String::from_utf8(body.to_vec()).unwrap()
    );
    let resp = run_server(&mut state, raw.as_bytes()).unwrap();
    assert!(resp.starts_with(b"HTTP/1.0 401 Unauthorized\r\n"));
    assert!(contains(
        &resp,
        b"You must be logged in to perform this action!"
    ));
    assert_eq!(state.entries.len(), 1);
}

#[test]
fn add_post_fail_bad_nonce() {
    let mut state = fresh_state();
    let login_body = b"username=crashoverride&password=0cool";
    let login = format!(
        "POST / HTTP/1.1\r\nContent-Length:{}\r\n\r\n{}",
        login_body.len(),
        String::from_utf8(login_body.to_vec()).unwrap()
    );
    let resp = run_server(&mut state, login.as_bytes()).unwrap();
    let token = extract_after(&resp, b"Set-Cookie: token=", b';');
    let body = b"guest=new_guest&nonce=4359084950348509";
    let raw = format!(
        "POST /add HTTP/1.1\r\nContent-Length:{}\r\nCookie: token={}\r\n\r\n{}",
        body.len(),
        String::from_utf8(token).unwrap(),
        String::from_utf8(body.to_vec()).unwrap()
    );
    let resp = run_server(&mut state, raw.as_bytes()).unwrap();
    assert!(resp.starts_with(b"HTTP/1.0 200 OK\r\n"));
    assert!(contains(&resp, b"<h1>Hello, crashoverride</h1>"));
    assert_eq!(state.entries.len(), 1);
}

#[test]
fn add_post_fail_no_value() {
    let mut state = fresh_state();
    let login_body = b"username=crashoverride&password=0cool";
    let login = format!(
        "POST / HTTP/1.1\r\nContent-Length:{}\r\n\r\n{}",
        login_body.len(),
        String::from_utf8(login_body.to_vec()).unwrap()
    );
    let resp = run_server(&mut state, login.as_bytes()).unwrap();
    let token = extract_after(&resp, b"Set-Cookie: token=", b';');
    let nonce = extract_after(&resp, b"name=\"nonce\" type=\"hidden\" value=\"", b'"');
    let body = format!("nonce={}", String::from_utf8(nonce).unwrap());
    let raw = format!(
        "POST /add HTTP/1.1\r\nContent-Length:{}\r\nCookie: token={}\r\n\r\n{}",
        body.len(),
        String::from_utf8(token).unwrap(),
        body
    );
    let resp = run_server(&mut state, raw.as_bytes()).unwrap();
    assert!(resp.starts_with(b"HTTP/1.0 200 OK\r\n"));
    assert_eq!(state.entries.len(), 1);
}

#[test]
fn router_add_without_login_answers_unauthorized() {
    let a = assets();
    let mut entries: Vec<GuestbookEntry> = Vec::new();
    let mut session = Session { user: None, nonce: None };
    let headers = Dict::new();
    let (status, body) = do_request(
        &a,
        &mut entries,
        &mut session,
        Method::Post,
        b"/add",
        &headers,
        b"guest=x&nonce=1",
    );
    assert_eq!(status, Status::Unauthorized);
    assert!(contains(&body, b"You must be logged in"));
    assert_eq!(entries.len(), 0);
}

#[test]
fn router_add_with_wrong_nonce_rerenders() {
    let a = assets();
    let mut entries: Vec<GuestbookEntry> = Vec::new();
    let mut session = Session {
        user: Some(b"crashoverride".to_vec()),
        nonce: Some(b"111".to_vec()),
    };
    let headers = Dict::new();
    let (status, body) = do_request(
        &a,
        &mut entries,
        &mut session,
        Method::Post,
        b"/add",
        &headers,
        b"guest=x&nonce=222",
    );
    assert_eq!(status, Status::Okay);
    assert!(contains(&body, b"<h1>Hello, crashoverride</h1>"));
    assert_eq!(entries.len(), 0);
}

#[test]
fn server_error_page_names_the_error() {
    let body = get_server_error_body(ServerError::MalformedHeader);
    assert_eq!(
        body,
        b"<html><body><p>Server error!</p><p>Details: MalformedHeader</p></body></html>".to_vec()
    );
    let resp = get_server_error_response(ServerError::WriteToStream);
    let expected_body = b"<html><body><p>Server error!</p><p>Details: WriteToStream</p></body></html>";
    let expected = format!(
        "HTTP/1.0 500\r\nContent-Length: {}\r\n\r\n{}",
        expected_body.len(),
        String::from_utf8(expected_body.to_vec()).unwrap()
    );
    assert_eq!(resp, expected.as_bytes().to_vec());
}
