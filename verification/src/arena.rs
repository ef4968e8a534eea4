//! The table of live endpoints, indexed by small reusable tokens.

use vstd::prelude::*;
use slab::Slab;
use crate::endpoint::{
    Endpoint, EndpointView, spec_consume, spec_pull, spec_push, spec_receive,
};

verus! {

/// `slab::Slab`, whose inside stays hidden: all that is known of a slab
/// is what its wrappers below say.
#[verifier::external_type_specification]
#[verifier::external_body]
#[verifier::reject_recursive_types(T)]
pub struct ExSlab<T>(Slab<T>);

/// The largest capacity a table reserves ahead of use.
pub const RESERVE_MAX: usize = 65536;

/// The occupied slots of a slab: each key with the value stored under it.
pub uninterp spec fn slab_entries(slab: Slab<Endpoint>) -> Map<usize, EndpointView>;

/// The table that holds no endpoint.
pub open spec fn empty_table() -> Map<usize, EndpointView> {
    Map::empty()
}

/// `Slab::with_capacity`: an empty slab; the capacity only sizes the first
/// allocation, and is kept small enough for that allocation to be valid.
#[verifier::external_body]
fn slab_with_capacity(capacity: usize) -> (fresh: Slab<Endpoint>)
    requires
        capacity <= RESERVE_MAX,
    ensures
        slab_entries(fresh) == empty_table(),
{
    Slab::with_capacity(capacity)
}

/// `Slab::len`: the number of occupied slots.
#[verifier::external_body]
fn slab_len(slab: &Slab<Endpoint>) -> (len: usize)
    ensures
        len == slab_entries(*slab).len(),
{
    slab.len()
}

/// `Slab::contains`: whether a value is stored under `key`.
#[verifier::external_body]
fn slab_contains(slab: &Slab<Endpoint>, key: usize) -> (found: bool)
    ensures
        found == slab_entries(*slab).contains_key(key),
{
    slab.contains(key)
}

/// `Slab::insert`: stores the value under a key that was vacant and returns
/// that key; every other slot stays as it was.  Like a vector's `push`, it
/// gives up only where no memory is left for one more slot.
#[verifier::external_body]
fn slab_insert(slab: &mut Slab<Endpoint>, endpoint: Endpoint) -> (key: usize)
    ensures
        !slab_entries(*old(slab)).contains_key(key),
        slab_entries(*final(slab)) == slab_entries(*old(slab)).insert(key, endpoint@),
{
    slab.insert(endpoint)
}

/// `Slab::get`: the value stored under `key`, if any.
#[verifier::external_body]
fn slab_get(slab: &Slab<Endpoint>, key: usize) -> (found: Option<&Endpoint>)
    ensures
        found is Some == slab_entries(*slab).contains_key(key),
        found is Some ==> found->0@ == slab_entries(*slab)[key],
{
    slab.get(key)
}

/// `Slab`'s `IndexMut`: the value stored under an occupied `key`, to be
/// changed in place; the slot then holds what the borrow leaves there.
#[verifier::external_body]
fn slab_index_mut(slab: &mut Slab<Endpoint>, key: usize) -> (endpoint: &mut Endpoint)
    requires
        slab_entries(*old(slab)).contains_key(key),
    ensures
        endpoint@ == slab_entries(*old(slab))[key],
        slab_entries(*final(slab)) == slab_entries(*old(slab)).insert(key, final(endpoint)@),
{
    &mut slab[key]
}

/// `Slab::try_remove`: takes the value out of an occupied slot and frees
/// the key; on a vacant key nothing changes.
#[verifier::external_body]
fn slab_try_remove(slab: &mut Slab<Endpoint>, key: usize) -> (removed: Option<Endpoint>)
    ensures
        removed is Some == slab_entries(*old(slab)).contains_key(key),
        removed is Some ==> removed->0@ == slab_entries(*old(slab))[key],
        slab_entries(*final(slab)) == slab_entries(*old(slab)).remove(key),
{
    slab.try_remove(key)
}

/// The table of live endpoints.  A token names the slot of an endpoint
/// and may be given out again once its endpoint has been removed.
pub struct Arena {
    slab: Slab<Endpoint>,
    limit: usize,
}

impl View for Arena {
    type V = Map<usize, EndpointView>;

    closed spec fn view(&self) -> Map<usize, EndpointView> {
        slab_entries(self.slab)
    }
}

impl Arena {
    /// The configured maximum number of endpoints.
    pub closed spec fn limit(&self) -> nat {
        self.limit as nat
    }

    /// The table is finite and within its limit.
    pub open spec fn wf(&self) -> bool {
        &&& self@.dom().finite()
        &&& self@.len() <= self.limit()
    }

    /// An empty table that will hold at most `limit` endpoints.
    pub fn with_limit(limit: usize) -> (arena: Arena)
        ensures
            arena.wf(),
            arena@ == empty_table(),
            arena.limit() == limit,
    {
        let reserve = if limit <= RESERVE_MAX {
            limit
        } else {
            RESERVE_MAX
        };
        Arena { slab: slab_with_capacity(reserve), limit }
    }

    /// The configured maximum number of endpoints.
    pub fn capacity(&self) -> (limit: usize)
        ensures
            limit == self.limit(),
    {
        self.limit
    }

    /// The number of endpoints in the table.
    pub fn len(&self) -> (len: usize)
        ensures
            len == self@.len(),
    {
        slab_len(&self.slab)
    }

    /// Whether `token` names an endpoint of the table.
    pub fn contains(&self, token: usize) -> (found: bool)
        ensures
            found == self@.contains_key(token),
    {
        slab_contains(&self.slab, token)
    }

    /// The endpoint under `token`, if there is one.
    pub fn get(&self, token: usize) -> (found: Option<&Endpoint>)
        ensures
            found is Some == self@.contains_key(token),
            found is Some ==> found->0@ == self@[token],
    {
        slab_get(&self.slab, token)
    }

    /// Puts `endpoint` into a free slot of a table that has room, and
    /// returns its token.
    pub fn place(&mut self, endpoint: Endpoint) -> (token: usize)
        requires
            old(self).wf(),
            old(self)@.len() < old(self).limit(),
        ensures
            final(self).wf(),
            final(self).limit() == old(self).limit(),
            !old(self)@.contains_key(token),
            final(self)@ == old(self)@.insert(token, endpoint@),
    {
        slab_insert(&mut self.slab, endpoint)
    }

    /// Puts `endpoint` into a free slot and returns its token.  A table
    /// that has reached its limit takes nothing and hands the endpoint
    /// back.
    pub fn insert(&mut self, endpoint: Endpoint) -> (outcome: Result<usize, Endpoint>)
        requires
            old(self).wf(),
        ensures
            final(self).wf(),
            final(self).limit() == old(self).limit(),
            outcome is Ok == (old(self)@.len() < old(self).limit()),
            match outcome {
                Ok(token) => {
                    &&& !old(self)@.contains_key(token)
                    &&& final(self)@ == old(self)@.insert(token, endpoint@)
                },
                Err(back) => back@ == endpoint@ && final(self)@ == old(self)@,
            },
    {
        if slab_len(&self.slab) >= self.limit {
            return Err(endpoint);
        }
        Ok(self.place(endpoint))
    }

    /// Takes the endpoint under `token` out of the table and frees the
    /// token.  Nothing happens where the token names no endpoint.
    pub fn remove(&mut self, token: usize) -> (removed: Option<Endpoint>)
        requires
            old(self).wf(),
        ensures
            final(self).wf(),
            final(self).limit() == old(self).limit(),
            removed is Some == old(self)@.contains_key(token),
            removed is Some ==> removed->0@ == old(self)@[token],
            final(self)@ == old(self)@.remove(token),
    {
        slab_try_remove(&mut self.slab, token)
    }

    /// Appends bytes that arrived on the socket of `token` to its inbound
    /// buffer.  Returns whether the token names an endpoint.
    pub fn receive(&mut self, token: usize, bytes: Vec<u8>) -> (found: bool)
        requires
            old(self).wf(),
        ensures
            final(self).wf(),
            final(self).limit() == old(self).limit(),
            found == old(self)@.contains_key(token),
            found ==> final(self)@ == old(self)@.insert(
                token,
                spec_receive(old(self)@[token], bytes@),
            ),
            !found ==> final(self)@ == old(self)@,
    {
        if !slab_contains(&self.slab, token) {
            return false;
        }
        let endpoint = slab_index_mut(&mut self.slab, token);
        endpoint.receive(bytes);
        true
    }

    /// Empties the inbound buffer of `token` and returns what it held; an
    /// absent token yields no bytes.
    pub fn pull(&mut self, token: usize) -> (bytes: Vec<u8>)
        requires
            old(self).wf(),
        ensures
            final(self).wf(),
            final(self).limit() == old(self).limit(),
            old(self)@.contains_key(token) ==> {
                &&& bytes@ == old(self)@[token].inbound
                &&& final(self)@ == old(self)@.insert(token, spec_pull(old(self)@[token]))
            },
            !old(self)@.contains_key(token) ==> bytes@.len() == 0 && final(self)@ == old(self)@,
    {
        if !slab_contains(&self.slab, token) {
            return Vec::new();
        }
        let endpoint = slab_index_mut(&mut self.slab, token);
        let bytes = endpoint.pull();
        bytes
    }

    /// Appends `bytes` to the outbound buffer of `token`.  Returns whether
    /// the token names an endpoint.
    pub fn push(&mut self, token: usize, bytes: Vec<u8>) -> (found: bool)
        requires
            old(self).wf(),
        ensures
            final(self).wf(),
            final(self).limit() == old(self).limit(),
            found == old(self)@.contains_key(token),
            found ==> final(self)@ == old(self)@.insert(
                token,
                spec_push(old(self)@[token], bytes@),
            ),
            !found ==> final(self)@ == old(self)@,
    {
        if !slab_contains(&self.slab, token) {
            return false;
        }
        let endpoint = slab_index_mut(&mut self.slab, token);
        endpoint.push(bytes);
        true
    }

    /// Drops the first `n` bytes of the outbound buffer of `token`.
    /// Returns whether the token names an endpoint.
    pub fn consume(&mut self, token: usize, n: usize) -> (found: bool)
        requires
            old(self).wf(),
        ensures
            final(self).wf(),
            final(self).limit() == old(self).limit(),
            found == old(self)@.contains_key(token),
            found ==> final(self)@ == old(self)@.insert(
                token,
                spec_consume(old(self)@[token], n as nat),
            ),
            !found ==> final(self)@ == old(self)@,
    {
        if !slab_contains(&self.slab, token) {
            return false;
        }
        let endpoint = slab_index_mut(&mut self.slab, token);
        endpoint.consume(n);
        true
    }
}

} // verus!
