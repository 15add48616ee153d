//! The credential check and login flow.
//!
//! Credentials live in a fixed, in-code table and are compared by exact
//! string equality; a successful login records the username in the session.
use vstd::prelude::*;

verus! {

use crate::dict::Dict;
use crate::dict::lookup;
use crate::session::Session;
use crate::session::SessionView;
use crate::text::bytes_eq;
use crate::text::copy_bytes;

/// The form field naming the user logging in.
pub open spec fn username_key() -> Seq<u8> {
    seq!['u' as u8, 's' as u8, 'e' as u8, 'r' as u8, 'n' as u8, 'a' as u8, 'm' as u8, 'e' as u8]
}

/// The form field carrying the password.
pub open spec fn password_key() -> Seq<u8> {
    seq!['p' as u8, 'a' as u8, 's' as u8, 's' as u8, 'w' as u8, 'o' as u8, 'r' as u8, 'd' as u8]
}

/// The first entry of the credential table: user `crashoverride`.
pub open spec fn user_crashoverride() -> Seq<u8> {
    seq!['c' as u8, 'r' as u8, 'a' as u8, 's' as u8, 'h' as u8, 'o' as u8, 'v' as u8, 'e' as u8,
        'r' as u8, 'r' as u8, 'i' as u8, 'd' as u8, 'e' as u8]
}

/// The password expected for `crashoverride`.
pub open spec fn pass_crashoverride() -> Seq<u8> {
    seq!['0' as u8, 'c' as u8, 'o' as u8, 'o' as u8, 'l' as u8]
}

/// The second entry of the credential table: user `cerealkiller`.
pub open spec fn user_cerealkiller() -> Seq<u8> {
    seq!['c' as u8, 'e' as u8, 'r' as u8, 'e' as u8, 'a' as u8, 'l' as u8, 'k' as u8, 'i' as u8,
        'l' as u8, 'l' as u8, 'e' as u8, 'r' as u8]
}

/// The password expected for `cerealkiller`.
pub open spec fn pass_cerealkiller() -> Seq<u8> {
    seq!['e' as u8, 'm' as u8, 'm' as u8, 'a' as u8, 'n' as u8, 'u' as u8, 'e' as u8, 'l' as u8]
}

/// True exactly when the pair stands in the credential table.
pub open spec fn valid_user(u: Seq<u8>, p: Seq<u8>) -> bool {
    ||| (u == user_crashoverride() && p == pass_crashoverride())
    ||| (u == user_cerealkiller() && p == pass_cerealkiller())
}

/// Exec bytes of the `username` form key.
pub fn username_key_bytes() -> (r: Vec<u8>)
    ensures
        r@ == username_key(),
{
    let mut v: Vec<u8> = Vec::new();
    v.push(117);
    v.push(115);
    v.push(101);
    v.push(114);
    v.push(110);
    v.push(97);
    v.push(109);
    v.push(101);
    proof {
        assert(v@ =~= username_key());
    }
    v
}

/// Exec bytes of the `password` form key.
pub fn password_key_bytes() -> (r: Vec<u8>)
    ensures
        r@ == password_key(),
{
    let mut v: Vec<u8> = Vec::new();
    v.push(112);
    v.push(97);
    v.push(115);
    v.push(115);
    v.push(119);
    v.push(111);
    v.push(114);
    v.push(100);
    proof {
        assert(v@ =~= password_key());
    }
    v
}

fn user_crashoverride_bytes() -> (r: Vec<u8>)
    ensures
        r@ == user_crashoverride(),
{
    let mut v: Vec<u8> = Vec::new();
    v.push(99);
    v.push(114);
    v.push(97);
    v.push(115);
    v.push(104);
    v.push(111);
    v.push(118);
    v.push(101);
    v.push(114);
    v.push(114);
    v.push(105);
    v.push(100);
    v.push(101);
    proof {
        assert(v@ =~= user_crashoverride());
    }
    v
}

fn pass_crashoverride_bytes() -> (r: Vec<u8>)
    ensures
        r@ == pass_crashoverride(),
{
    let mut v: Vec<u8> = Vec::new();
    v.push(48);
    v.push(99);
    v.push(111);
    v.push(111);
    v.push(108);
    proof {
        assert(v@ =~= pass_crashoverride());
    }
    v
}

fn user_cerealkiller_bytes() -> (r: Vec<u8>)
    ensures
        r@ == user_cerealkiller(),
{
    let mut v: Vec<u8> = Vec::new();
    v.push(99);
    v.push(101);
    v.push(114);
    v.push(101);
    v.push(97);
    v.push(108);
    v.push(107);
    v.push(105);
    v.push(108);
    v.push(108);
    v.push(101);
    v.push(114);
    proof {
        assert(v@ =~= user_cerealkiller());
    }
    v
}

fn pass_cerealkiller_bytes() -> (r: Vec<u8>)
    ensures
        r@ == pass_cerealkiller(),
{
    let mut v: Vec<u8> = Vec::new();
    v.push(101);
    v.push(109);
    v.push(109);
    v.push(97);
    v.push(110);
    v.push(117);
    v.push(101);
    v.push(108);
    proof {
        assert(v@ =~= pass_cerealkiller());
    }
    v
}

/// Exec check of a username/password pair against the credential table.
pub fn is_valid_user(username: &[u8], password: &[u8]) -> (r: bool)
    ensures
        r == valid_user(username@, password@),
{
    let u1 = user_crashoverride_bytes();
    if bytes_eq(username, u1.as_slice()) {
        let p1 = pass_crashoverride_bytes();
        return bytes_eq(password, p1.as_slice());
    }
    let u2 = user_cerealkiller_bytes();
    if bytes_eq(username, u2.as_slice()) {
        let p2 = pass_cerealkiller_bytes();
        return bytes_eq(password, p2.as_slice());
    }
    false
}

/// What a login attempt does: with both fields present and the pair in the
/// credential table, the session's user becomes that username and the
/// attempt succeeds; otherwise nothing changes and it fails.
pub open spec fn spec_login(session: SessionView, form: Seq<(Seq<u8>, Seq<u8>)>) -> (bool,
    SessionView) {
    match (lookup(form, username_key()), lookup(form, password_key())) {
        (Some(u), Some(p)) => if valid_user(u, p) {
            (true, SessionView { user: Some(u), nonce: session.nonce })
        } else {
            (false, session)
        },
        _ => (false, session),
    }
}

/// Exec login attempt over decoded form fields.
pub fn do_login(session: &mut Session, data: &Dict) -> (r: bool)
    ensures
        r == spec_login(old(session)@, data@).0,
        final(session)@ == spec_login(old(session)@, data@).1,
{
    let ukey = username_key_bytes();
    let pkey = password_key_bytes();
    let username = match data.get(ukey.as_slice()) {
        Some(u) => u,
        None => {
            return false;
        },
    };
    let password = match data.get(pkey.as_slice()) {
        Some(p) => p,
        None => {
            return false;
        },
    };
    if is_valid_user(username.as_slice(), password.as_slice()) {
        session.user = Some(copy_bytes(username));
        return true;
    }
    false
}

} // verus!
