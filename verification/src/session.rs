//! Sessions and the session store.
//!
//! A session is addressed by an opaque token carried in a cookie and holds
//! two optional values: the authenticated user, and the CSRF nonce issued
//! with the most recently rendered form. The store maps tokens to sessions
//! for the life of the process.
use vstd::prelude::*;

verus! {

use crate::text::bytes_eq;
use crate::text::copy_bytes;

/// Per-client state held between requests.
pub struct Session {
    pub user: Option<Vec<u8>>,
    pub nonce: Option<Vec<u8>>,
}

/// Ghost image of a session.
#[verifier::ext_equal]
pub ghost struct SessionView {
    pub user: Option<Seq<u8>>,
    pub nonce: Option<Seq<u8>>,
}

impl View for Session {
    type V = SessionView;

    open spec fn view(&self) -> SessionView {
        SessionView {
            user: match self.user {
                Some(u) => Some(u@),
                None => None,
            },
            nonce: match self.nonce {
                Some(n) => Some(n@),
                None => None,
            },
        }
    }
}

/// The state of a session nobody has touched yet.
pub open spec fn empty_session() -> SessionView {
    SessionView { user: None, nonce: None }
}

impl Session {
    /// A session with no user and no nonce.
    pub fn empty() -> (r: Session)
        ensures
            r@ == empty_session(),
    {
        Session { user: None, nonce: None }
    }

    /// A deep copy of the session.
    pub fn duplicate(&self) -> (r: Session)
        ensures
            r@ == self@,
    {
        let user = match &self.user {
            Some(u) => Some(copy_bytes(u)),
            None => None,
        };
        let nonce = match &self.nonce {
            Some(n) => Some(copy_bytes(n)),
            None => None,
        };
        Session { user, nonce }
    }
}

/// Last-write-wins lookup over token/session bindings.
pub open spec fn session_lookup(ps: Seq<(Seq<u8>, SessionView)>, k: Seq<u8>) -> Option<SessionView>
    decreases ps.len(),
{
    if ps.len() == 0 {
        None
    } else if ps.last().0 == k {
        Some(ps.last().1)
    } else {
        session_lookup(ps.drop_last(), k)
    }
}

/// All sessions the server has seen, keyed by token.
pub struct SessionStore {
    items: Vec<(Vec<u8>, Session)>,
}

impl View for SessionStore {
    type V = Seq<(Seq<u8>, SessionView)>;

    closed spec fn view(&self) -> Seq<(Seq<u8>, SessionView)> {
        self.items@.map_values(|p: (Vec<u8>, Session)| (p.0@, p.1@))
    }
}

impl SessionStore {
    pub fn new() -> (r: SessionStore)
        ensures
            r@ == Seq::<(Seq<u8>, SessionView)>::empty(),
    {
        let s = SessionStore { items: Vec::new() };
        proof {
            assert(s@ =~= Seq::<(Seq<u8>, SessionView)>::empty());
        }
        s
    }

    /// A copy of the session stored under `token`, or a fresh empty session
    /// when the token is unknown. The store itself is not changed.
    pub fn resolve(&self, token: &[u8]) -> (r: Session)
        ensures
            r@ == match session_lookup(self@, token@) {
                Some(sv) => sv,
                None => empty_session(),
            },
    {
        let mut i: usize = self.items.len();
        proof {
            assert(self@.take(i as int) =~= self@);
        }
        while i > 0
            invariant
                i <= self.items@.len(),
                self@.len() == self.items@.len(),
                session_lookup(self@, token@) == session_lookup(self@.take(i as int), token@),
            decreases i,
        {
            let p = &self.items[i - 1];
            proof {
                assert(self@[i - 1] == (p.0@, p.1@));
                assert(self@.take(i as int).last() == (p.0@, p.1@));
                assert(self@.take(i as int).drop_last() =~= self@.take(i - 1));
            }
            if bytes_eq(p.0.as_slice(), token) {
                return p.1.duplicate();
            }
            i = i - 1;
        }
        proof {
            assert(self@.take(0) =~= Seq::<(Seq<u8>, SessionView)>::empty());
        }
        Session::empty()
    }

    /// Store `sess` under `token`, replacing what the token previously
    /// named.
    pub fn put(&mut self, token: &[u8], sess: Session)
        ensures
            forall|k: Seq<u8>|
                session_lookup(final(self)@, k) == if k == token@ {
                    Some(sess@)
                } else {
                    session_lookup(old(self)@, k)
                },
    {
        let mut i: usize = self.items.len();
        proof {
            assert(self@.take(i as int) =~= self@);
        }
        while i > 0
            invariant
                i <= self.items@.len(),
                self@.len() == self.items@.len(),
                self@ == old(self)@,
                forall|j: int|
                    i <= j < self@.len() ==> (#[trigger] self@[j]).0 != token@,
            decreases i,
        {
            let found = {
                let p = &self.items[i - 1];
                proof {
                    assert(self@[i - 1] == (p.0@, p.1@));
                }
                bytes_eq(p.0.as_slice(), token)
            };
            if found {
                let ghost items0 = self.items@;
                let item = self.items.remove(i - 1);
                proof {
                    assert(item == items0[i - 1]);
                }
                self.items.insert(i - 1, (item.0, sess));
                proof {
                    let ghost upd = old(self)@.update(i - 1, (token@, sess@));
                    assert(self.items@ == items0.remove(i - 1).insert(i - 1, (item.0, sess)));
                    assert(self.items@.len() == items0.len());
                    assert forall|j: int| 0 <= j < self@.len() implies self@[j] == upd[j] by {
                        assert(self@[j] == (self.items@[j].0@, self.items@[j].1@));
                        assert(upd.len() == old(self)@.len());
                        if j < i - 1 {
                            assert(self.items@[j] == items0[j]);
                            assert(upd[j] == old(self)@[j]);
                            assert(old(self)@[j] == (items0[j].0@, items0[j].1@));
                        } else if j == i - 1 {
                            assert(self.items@[j] == (item.0, sess));
                            assert(item.0@ == token@);
                            assert(self@[j] == (token@, sess@));
                            assert(upd[j] == (token@, sess@));
                        } else {
                            assert(self.items@[j] == items0[j]);
                            assert(upd[j] == old(self)@[j]);
                            assert(old(self)@[j] == (items0[j].0@, items0[j].1@));
                        }
                    }
                    assert(self@ =~= upd);
                    lemma_session_update_last(old(self)@, i - 1, sess@);
                    assert(old(self)@[i - 1].0 == token@);
                }
                return ;
            }
            i = i - 1;
        }
        let tok = crate::text::sub_bytes(token, 0, token.len());
        proof {
            assert(tok@ =~= token@);
        }
        self.items.push((tok, sess));
        proof {
            assert(self@ =~= old(self)@.push((token@, sess@)));
            assert(self@.last().0 == token@);
            assert(self@.drop_last() =~= old(self)@);
        }
    }
}

/// Overwriting the newest binding of a token leaves every other token's
/// lookup unchanged and makes that token name the new session.
proof fn lemma_session_update_last(ps: Seq<(Seq<u8>, SessionView)>, i: int, sv: SessionView)
    requires
        0 <= i < ps.len(),
        forall|j: int| i < j < ps.len() ==> (#[trigger] ps[j]).0 != ps[i].0,
    ensures
        forall|k: Seq<u8>|
            session_lookup(ps.update(i, (ps[i].0, sv)), k) == if k == ps[i].0 {
                Some(sv)
            } else {
                session_lookup(ps, k)
            },
    decreases ps.len(),
{
    let ps2 = ps.update(i, (ps[i].0, sv));
    assert(ps[ps.len() - 1] == ps.last());
    if i == ps.len() - 1 {
        assert(ps2.last() == (ps[i].0, sv));
        assert(ps2.drop_last() =~= ps.drop_last());
        assert forall|k: Seq<u8>|
            session_lookup(ps2, k) == if k == ps[i].0 {
                Some(sv)
            } else {
                session_lookup(ps, k)
            } by {
            if k != ps[i].0 {
                assert(session_lookup(ps2, k) == session_lookup(ps2.drop_last(), k));
                assert(session_lookup(ps, k) == session_lookup(ps.drop_last(), k));
            }
        }
    } else {
        let pd = ps.drop_last();
        assert(ps2.last() == ps.last());
        assert(ps2.drop_last() =~= pd.update(i, (ps[i].0, sv)));
        assert(pd[i] == ps[i]);
        assert forall|j: int| i < j < pd.len() implies (#[trigger] pd[j]).0 != pd[i].0 by {
            assert(pd[j] == ps[j]);
        }
        lemma_session_update_last(pd, i, sv);
        assert forall|k: Seq<u8>|
            session_lookup(ps2, k) == if k == ps[i].0 {
                Some(sv)
            } else {
                session_lookup(ps, k)
            } by {
            assert(session_lookup(pd.update(i, (pd[i].0, sv)), k) == if k == pd[i].0 {
                Some(sv)
            } else {
                session_lookup(pd, k)
            });
            if ps.last().0 == k {
                assert((ps[ps.len() - 1]).0 != ps[i].0);
            } else {
                assert(session_lookup(ps2, k) == session_lookup(ps2.drop_last(), k));
                assert(session_lookup(ps, k) == session_lookup(pd, k));
            }
        }
    }
}

} // verus!
