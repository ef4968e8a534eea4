//! The registry of tunnels: which token is paired with which.

use std::collections::HashMap;
use vstd::prelude::*;
use vstd::std_specs::hash::*;

verus! {

broadcast use vstd::std_specs::hash::group_hash_axioms;

/// Every pairing is recorded in both directions, and no token is paired
/// with itself.
pub open spec fn symmetric(links: Map<usize, usize>) -> bool {
    forall|a: usize| #[trigger]
        links.contains_key(a) ==> links[a] != a && links.contains_key(links[a]) && links[links[a]]
            == a
}

/// `a` is paired with `b`.
pub open spec fn linked(links: Map<usize, usize>, a: usize, b: usize) -> bool {
    links.contains_key(a) && links[a] == b
}

/// The pairing after `a` and `b` were joined: nothing changes unless the
/// two differ and both are free.
pub open spec fn spec_link(links: Map<usize, usize>, a: usize, b: usize) -> Map<usize, usize> {
    if a != b && !links.contains_key(a) && !links.contains_key(b) {
        links.insert(a, b).insert(b, a)
    } else {
        links
    }
}

/// The pairing after `a` was released together with its peer.
pub open spec fn spec_unlink(links: Map<usize, usize>, a: usize) -> Map<usize, usize> {
    if links.contains_key(a) {
        links.remove(a).remove(links[a])
    } else {
        links
    }
}

/// In a symmetric pairing, `a` is paired with `b` exactly when `b` is
/// paired with `a`.
pub proof fn lemma_link_symmetry(links: Map<usize, usize>, a: usize, b: usize)
    requires
        symmetric(links),
    ensures
        linked(links, a, b) <==> linked(links, b, a),
{
}

/// Joining two tokens keeps a pairing symmetric.
pub proof fn lemma_link_keeps_symmetry(links: Map<usize, usize>, a: usize, b: usize)
    requires
        symmetric(links),
    ensures
        symmetric(spec_link(links, a, b)),
{
    let after = spec_link(links, a, b);
    assert forall|x: usize| #[trigger] after.contains_key(x) implies after[x] != x
        && after.contains_key(after[x]) && after[after[x]] == x by {
        if x != a && x != b && links.contains_key(x) {
            assert(links.contains_key(links[x]));
        }
    }
}

/// Releasing a token and its peer keeps a pairing symmetric.
pub proof fn lemma_unlink_keeps_symmetry(links: Map<usize, usize>, a: usize)
    requires
        symmetric(links),
    ensures
        symmetric(spec_unlink(links, a)),
{
    let after = spec_unlink(links, a);
    assert forall|x: usize| #[trigger] after.contains_key(x) implies after[x] != x
        && after.contains_key(after[x]) && after[after[x]] == x by {
        assert(links.contains_key(x));
        assert(links.contains_key(links[x]));
        if links.contains_key(a) {
            assert(links.contains_key(links[a]));
        }
    }
}

/// The registry of tunnels.  Each tunnel pairs two tokens, and each token
/// belongs to at most one tunnel.
pub struct Links {
    map: HashMap<usize, usize>,
}

impl View for Links {
    type V = Map<usize, usize>;

    closed spec fn view(&self) -> Map<usize, usize> {
        self.map@
    }
}

impl Links {
    /// The pairing is symmetric.
    pub open spec fn wf(&self) -> bool {
        symmetric(self@) && self@.dom().finite()
    }

    /// A registry without tunnels.
    pub fn new() -> (links: Links)
        ensures
            links.wf(),
            links@ == Map::<usize, usize>::empty(),
    {
        Links { map: HashMap::new() }
    }

    /// The token paired with `a`, if `a` is paired.
    pub fn peer(&self, a: usize) -> (peer: Option<usize>)
        ensures
            peer is Some == self@.contains_key(a),
            peer is Some ==> peer->0 == self@[a],
    {
        match self.map.get(&a) {
            Some(b) => Some(*b),
            None => None,
        }
    }

    /// Pairs `a` with `b` in both directions.  Nothing is changed, and
    /// `false` returned, where the two are the same token or one of them
    /// is already paired.
    pub fn link(&mut self, a: usize, b: usize) -> (joined: bool)
        requires
            old(self).wf(),
        ensures
            final(self).wf(),
            joined == (a != b && !old(self)@.contains_key(a) && !old(self)@.contains_key(b)),
            final(self)@ == spec_link(old(self)@, a, b),
    {
        if a == b || self.map.contains_key(&a) || self.map.contains_key(&b) {
            return false;
        }
        self.map.insert(a, b);
        self.map.insert(b, a);
        proof {
            lemma_link_keeps_symmetry(old(self)@, a, b);
        }
        true
    }

    /// Releases `a` and its peer from each other, both directions at once,
    /// and returns the peer.
    pub fn unlink(&mut self, a: usize) -> (peer: Option<usize>)
        requires
            old(self).wf(),
        ensures
            final(self).wf(),
            peer is Some == old(self)@.contains_key(a),
            peer is Some ==> peer->0 == old(self)@[a],
            final(self)@ == spec_unlink(old(self)@, a),
    {
        proof {
            lemma_unlink_keeps_symmetry(old(self)@, a);
        }
        match self.map.remove(&a) {
            Some(b) => {
                self.map.remove(&b);
                Some(b)
            },
            None => None,
        }
    }
}

} // verus!
