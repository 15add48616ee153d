//! A small byte-string association list with last-write-wins lookup.
//!
//! Header fields and form fields both live in one of these. Lookups scan from
//! the newest binding backwards, so a later `insert` of the same key shadows
//! an earlier one, as a hash map's insert would.
use vstd::prelude::*;

verus! {

use crate::text::bytes_eq;

/// Last-write-wins lookup over a sequence of key/value bindings.
pub open spec fn lookup(ps: Seq<(Seq<u8>, Seq<u8>)>, k: Seq<u8>) -> Option<Seq<u8>>
    decreases ps.len(),
{
    if ps.len() == 0 {
        None
    } else if ps.last().0 == k {
        Some(ps.last().1)
    } else {
        lookup(ps.drop_last(), k)
    }
}

/// Bindings from byte-string keys to byte-string values.
pub struct Dict {
    pairs: Vec<(Vec<u8>, Vec<u8>)>,
}

impl View for Dict {
    type V = Seq<(Seq<u8>, Seq<u8>)>;

    closed spec fn view(&self) -> Seq<(Seq<u8>, Seq<u8>)> {
        self.pairs@.map_values(|p: (Vec<u8>, Vec<u8>)| (p.0@, p.1@))
    }
}

impl Dict {
    pub fn new() -> (r: Dict)
        ensures
            r@ == Seq::<(Seq<u8>, Seq<u8>)>::empty(),
    {
        let d = Dict { pairs: Vec::new() };
        proof {
            assert(d@ =~= Seq::<(Seq<u8>, Seq<u8>)>::empty());
        }
        d
    }

    /// Add a binding; it shadows any earlier binding of the same key.
    pub fn insert(&mut self, k: Vec<u8>, v: Vec<u8>)
        ensures
            final(self)@ == old(self)@.push((k@, v@)),
    {
        let ghost kv = (k@, v@);
        self.pairs.push((k, v));
        proof {
            assert(self@ =~= old(self)@.push(kv));
        }
    }

    /// The newest value bound to `k`, if any.
    pub fn get(&self, k: &[u8]) -> (r: Option<&Vec<u8>>)
        ensures
            match r {
                Some(v) => lookup(self@, k@) == Some(v@),
                None => lookup(self@, k@) is None,
            },
    {
        let mut i: usize = self.pairs.len();
        proof {
            assert(self@.take(i as int) =~= self@);
        }
        while i > 0
            invariant
                i <= self.pairs@.len(),
                self@.len() == self.pairs@.len(),
                lookup(self@, k@) == lookup(self@.take(i as int), k@),
            decreases i,
        {
            let p = &self.pairs[i - 1];
            proof {
                assert(self@[i - 1] == (p.0@, p.1@));
                assert(self@.take(i as int).last() == (p.0@, p.1@));
                assert(self@.take(i as int).drop_last() =~= self@.take(i - 1));
            }
            if bytes_eq(p.0.as_slice(), k) {
                return Some(&p.1);
            }
            i = i - 1;
        }
        proof {
            assert(self@.take(0) =~= Seq::<(Seq<u8>, Seq<u8>)>::empty());
        }
        None
    }

    /// Number of bindings held.
    pub fn len(&self) -> (r: usize)
        ensures
            r == self@.len(),
    {
        self.pairs.len()
    }
}

} // verus!
