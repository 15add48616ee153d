use guestbook::auth::do_login;
use guestbook::auth::is_valid_user;
use guestbook::guestbook::add_entry;
use guestbook::guestbook::validate_nonce;
use guestbook::guestbook::AddEntryError;
use guestbook::guestbook::GuestbookEntry;
use guestbook::router::decode_form;
use guestbook::session::Session;
use guestbook::session::SessionStore;

fn logged_in_session(nonce: &[u8]) -> Session {
    Session {
        user: Some(b"crashoverride".to_vec()),
        nonce: Some(nonce.to_vec()),
    }
}

#[test]
fn credential_table_is_exact() {
    assert!(is_valid_user(b"crashoverride", b"0cool"));
    assert!(is_valid_user(b"cerealkiller", b"emmanuel"));
    assert!(!is_valid_user(b"crashoverride", b"wrong"));
    assert!(!is_valid_user(b"crashoverride", b"emmanuel"));
    assert!(!is_valid_user(b"nobody", b"0cool"));
    assert!(!is_valid_user(b"", b""));
}

#[test]
fn login_success_records_user() {
    let mut session = Session { user: None, nonce: None };
    let form = decode_form(b"username=crashoverride&password=0cool");
    assert!(do_login(&mut session, &form));
    assert_eq!(session.user, Some(b"crashoverride".to_vec()));
}

#[test]
fn login_failure_leaves_session_alone() {
    let mut session = Session { user: None, nonce: None };
    let form = decode_form(b"username=crashoverride&password=wrong");
    assert!(!do_login(&mut session, &form));
    assert_eq!(session.user, None);
    let form = decode_form(b"username=crashoverride");
    assert!(!do_login(&mut session, &form));
    assert_eq!(session.user, None);
}

#[test]
fn form_decoding_splits_on_separators() {
    let form = decode_form(b"a=1&b=2&c=x=y&noequals&=empty");
    assert_eq!(form.get(b"a"), Some(&b"1".to_vec()));
    assert_eq!(form.get(b"b"), Some(&b"2".to_vec()));
    assert_eq!(form.get(b"c"), Some(&b"x=y".to_vec()));
    assert_eq!(form.get(b"noequals"), None);
    assert_eq!(form.get(b""), Some(&b"empty".to_vec()));
}

#[test]
fn form_decoding_keeps_percent_sequences_verbatim() {
    let form = decode_form(b"guest=a%20b");
    assert_eq!(form.get(b"guest"), Some(&b"a%20b".to_vec()));
}

#[test]
fn nonce_validation_is_exact_equality() {
    let session = logged_in_session(b"12345");
    assert!(validate_nonce(&session, &decode_form(b"nonce=12345")));
    assert!(!validate_nonce(&session, &decode_form(b"nonce=1234")));
    assert!(!validate_nonce(&session, &decode_form(b"guest=x")));
    let bare = Session { user: Some(b"u".to_vec()), nonce: None };
    assert!(!validate_nonce(&bare, &decode_form(b"nonce=")));
}

#[test]
fn add_entry_requires_login_first() {
    let mut entries: Vec<GuestbookEntry> = Vec::new();
    let session = Session { user: None, nonce: None };
    let form = decode_form(b"guest=hi&nonce=1");
    assert_eq!(
        add_entry(&mut entries, &session, &form),
        Err(AddEntryError::RequireLogin)
    );
    assert_eq!(entries.len(), 0);
}

#[test]
fn add_entry_rejects_stale_nonce() {
    let mut entries: Vec<GuestbookEntry> = Vec::new();
    let session = logged_in_session(b"777");
    let form = decode_form(b"guest=hi&nonce=888");
    assert_eq!(
        add_entry(&mut entries, &session, &form),
        Err(AddEntryError::BadNonce)
    );
    assert_eq!(entries.len(), 0);
}

#[test]
fn add_entry_needs_guest_field() {
    let mut entries: Vec<GuestbookEntry> = Vec::new();
    let session = logged_in_session(b"777");
    let form = decode_form(b"nonce=777");
    assert_eq!(
        add_entry(&mut entries, &session, &form),
        Err(AddEntryError::MissingValue)
    );
    assert_eq!(entries.len(), 0);
}

#[test]
fn add_entry_appends_comment_and_author() {
    let mut entries: Vec<GuestbookEntry> = Vec::new();
    let session = logged_in_session(b"777");
    let form = decode_form(b"guest=new_guest&nonce=777");
    assert_eq!(add_entry(&mut entries, &session, &form), Ok(()));
    assert_eq!(entries.len(), 1);
    assert_eq!(entries[0].comment, b"new_guest".to_vec());
    assert_eq!(entries[0].author, b"crashoverride".to_vec());
}

#[test]
fn add_entry_drops_long_comment_but_succeeds() {
    let mut entries: Vec<GuestbookEntry> = Vec::new();
    let session = logged_in_session(b"777");
    let form = decode_form(b"guest=elevenchars&nonce=777");
    assert_eq!(add_entry(&mut entries, &session, &form), Ok(()));
    assert_eq!(entries.len(), 0);
}

#[test]
fn add_entry_counts_characters_not_bytes() {
    let mut entries: Vec<GuestbookEntry> = Vec::new();
    let session = logged_in_session(b"777");
    let mut body = b"nonce=777&guest=".to_vec();
    body.extend_from_slice("éééééééééé".as_bytes());
    let form = decode_form(&body);
    assert_eq!(add_entry(&mut entries, &session, &form), Ok(()));
    assert_eq!(entries.len(), 1);
    assert_eq!(entries[0].comment, "éééééééééé".as_bytes().to_vec());
}

#[test]
fn session_store_round_trips_sessions() {
    let mut store = SessionStore::new();
    let fresh = store.resolve(b"42");
    assert_eq!(fresh.user, None);
    assert_eq!(fresh.nonce, None);
    store.put(
        b"42",
        Session {
            user: Some(b"u".to_vec()),
            nonce: Some(b"n".to_vec()),
        },
    );
    let back = store.resolve(b"42");
    assert_eq!(back.user, Some(b"u".to_vec()));
    assert_eq!(back.nonce, Some(b"n".to_vec()));
    let other = store.resolve(b"43");
    assert_eq!(other.user, None);
    store.put(
        b"42",
        Session { user: Some(b"v".to_vec()), nonce: None },
    );
    let back = store.resolve(b"42");
    assert_eq!(back.user, Some(b"v".to_vec()));
    assert_eq!(back.nonce, None);
}
