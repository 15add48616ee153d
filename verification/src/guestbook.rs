//! The guestbook store: an append-only sequence of (comment, author)
//! entries.
//!
//! Appending checks, in order, that the session is logged in, that the
//! submitted CSRF nonce equals the session's current one, and that a `guest`
//! field is present. A comment over the length limit is silently dropped:
//! the call still succeeds, but nothing is stored.
use vstd::prelude::*;

verus! {

use crate::dict::Dict;
use crate::dict::lookup;
use crate::encoding::char_count;
use crate::encoding::count_chars;
use crate::session::Session;
use crate::session::SessionView;
use crate::text::bytes_eq;
use crate::text::copy_bytes;

/// The longest comment the guestbook stores, counted in characters, not
/// bytes.
pub const MAX_ENTRY_LENGTH: usize = 10;

/// One stored guestbook entry.
pub struct GuestbookEntry {
    pub comment: Vec<u8>,
    pub author: Vec<u8>,
}

/// Ghost image of a guestbook entry.
#[verifier::ext_equal]
pub ghost struct EntryView {
    pub comment: Seq<u8>,
    pub author: Seq<u8>,
}

impl View for GuestbookEntry {
    type V = EntryView;

    open spec fn view(&self) -> EntryView {
        EntryView { comment: self.comment@, author: self.author@ }
    }
}

impl DeepView for GuestbookEntry {
    type V = EntryView;

    open spec fn deep_view(&self) -> EntryView {
        self.view()
    }
}

/// Why an append was refused.
#[derive(Clone, Copy, PartialEq, Eq, Structural, Debug)]
pub enum AddEntryError {
    RequireLogin,
    BadNonce,
    MissingValue,
}

/// The form field carrying the submitted comment.
pub open spec fn guest_key() -> Seq<u8> {
    seq!['g' as u8, 'u' as u8, 'e' as u8, 's' as u8, 't' as u8]
}

/// The form field carrying the submitted CSRF nonce.
pub open spec fn nonce_key() -> Seq<u8> {
    seq!['n' as u8, 'o' as u8, 'n' as u8, 'c' as u8, 'e' as u8]
}

/// True when the form's nonce equals the nonce the session currently holds;
/// an absent nonce on either side fails.
pub open spec fn nonce_matches(session: SessionView, form: Seq<(Seq<u8>, Seq<u8>)>) -> bool {
    match (session.nonce, lookup(form, nonce_key())) {
        (Some(sn), Some(fn_)) => sn == fn_,
        _ => false,
    }
}

/// What an append attempt does. Checks run in order: login, nonce, field
/// presence. A comment whose character count exceeds `MAX_ENTRY_LENGTH`
/// still reports success but stores nothing.
pub open spec fn spec_add_entry(
    entries: Seq<EntryView>,
    session: SessionView,
    form: Seq<(Seq<u8>, Seq<u8>)>,
) -> (Result<(), AddEntryError>, Seq<EntryView>) {
    match session.user {
        None => (Err(AddEntryError::RequireLogin), entries),
        Some(user) => if !nonce_matches(session, form) {
            (Err(AddEntryError::BadNonce), entries)
        } else {
            match lookup(form, guest_key()) {
                None => (Err(AddEntryError::MissingValue), entries),
                Some(guest) => if char_count(guest) <= MAX_ENTRY_LENGTH {
                    (Ok(()), entries.push(EntryView { comment: guest, author: user }))
                } else {
                    (Ok(()), entries)
                },
            }
        },
    }
}

/// Exec bytes of the `guest` form key.
pub fn guest_key_bytes() -> (r: Vec<u8>)
    ensures
        r@ == guest_key(),
{
    let mut v: Vec<u8> = Vec::new();
    v.push(103);
    v.push(117);
    v.push(101);
    v.push(115);
    v.push(116);
    proof {
        assert(v@ =~= guest_key());
    }
    v
}

/// Exec bytes of the `nonce` form key.
pub fn nonce_key_bytes() -> (r: Vec<u8>)
    ensures
        r@ == nonce_key(),
{
    let mut v: Vec<u8> = Vec::new();
    v.push(110);
    v.push(111);
    v.push(110);
    v.push(99);
    v.push(101);
    proof {
        assert(v@ =~= nonce_key());
    }
    v
}

/// Exec check of a submitted nonce against the session's current one.
pub fn validate_nonce(session: &Session, data: &Dict) -> (r: bool)
    ensures
        r == nonce_matches(session@, data@),
{
    let nkey = nonce_key_bytes();
    match (&session.nonce, data.get(nkey.as_slice())) {
        (Some(sn), Some(fn_)) => bytes_eq(sn.as_slice(), fn_.as_slice()),
        _ => false,
    }
}

/// Exec append attempt, faithful to `spec_add_entry`.
pub fn add_entry(entries: &mut Vec<GuestbookEntry>, session: &Session, data: &Dict) -> (r: Result<
    (),
    AddEntryError,
>)
    ensures
        r == spec_add_entry(old(entries).deep_view(), session@, data@).0,
        final(entries).deep_view() == spec_add_entry(old(entries).deep_view(), session@, data@).1,
{
    let user = match &session.user {
        Some(u) => u,
        None => {
            return Err(AddEntryError::RequireLogin);
        },
    };
    if !validate_nonce(session, data) {
        return Err(AddEntryError::BadNonce);
    }
    let gkey = guest_key_bytes();
    let guest = match data.get(gkey.as_slice()) {
        Some(g) => g,
        None => {
            return Err(AddEntryError::MissingValue);
        },
    };
    if count_chars(guest.as_slice()) <= MAX_ENTRY_LENGTH {
        let entry = GuestbookEntry { comment: copy_bytes(guest), author: copy_bytes(user) };
        let ghost ev = entry@;
        entries.push(entry);
        proof {
            assert(entries.deep_view() =~= old(entries).deep_view().push(ev));
        }
    }
    Ok(())
}


/// A comment over the length limit is absorbed, not stored: whenever the
/// login, nonce and field checks pass but the comment's character count
/// exceeds `MAX_ENTRY_LENGTH`, the append reports success and the entry
/// sequence is exactly what it was.
pub proof fn lemma_long_comment_dropped(
    entries: Seq<EntryView>,
    session: SessionView,
    form: Seq<(Seq<u8>, Seq<u8>)>,
)
    requires
        session.user is Some,
        nonce_matches(session, form),
        lookup(form, guest_key()) is Some,
        char_count(lookup(form, guest_key())->0) > MAX_ENTRY_LENGTH,
    ensures
        spec_add_entry(entries, session, form).0 == Result::<(), AddEntryError>::Ok(()),
        spec_add_entry(entries, session, form).1 == entries,
{
}

} // verus!
