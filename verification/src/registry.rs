//! The connection registry: the open connections, each under its descriptor.

use std::collections::HashMap;
use vstd::prelude::*;
use vstd::std_specs::hash::spec_keys_iter;
use vstd::std_specs::iter::IteratorSpec;

verus! {

broadcast use vstd::std_specs::hash::group_hash_axioms;

/// The connections that are open, keyed by descriptor. A connection is in it
/// from the moment it is accepted until the moment its closure is detected;
/// `C` is whatever a caller keeps of a connection (its socket).
pub struct Registry<C> {
    connections: HashMap<i32, C>,
}

impl<C> View for Registry<C> {
    type V = Map<i32, C>;

    closed spec fn view(&self) -> Map<i32, C> {
        self.connections@
    }
}

impl<C> Registry<C> {
    /// A registry without connections.
    pub fn new() -> (made: Registry<C>)
        ensures
            made@ == Map::<i32, C>::empty(),
    {
        Registry { connections: HashMap::new() }
    }

    /// A registry holds finitely many connections.
    pub proof fn lemma_finite(&self)
        ensures
            self@.dom().finite(),
    {
        let walked = spec_keys_iter(&self.connections).remaining().unref();
        vstd::seq_lib::seq_to_set_is_finite(walked);
    }

    /// Registers `connection` under `fd`, and hands back the connection that
    /// was registered under `fd` before, if there was one.
    pub fn insert(&mut self, fd: i32, connection: C) -> (replaced: Option<C>)
        ensures
            final(self)@ == old(self)@.insert(fd, connection),
            replaced == if old(self)@.contains_key(fd) {
                Some(old(self)@[fd])
            } else {
                None
            },
    {
        self.connections.insert(fd, connection)
    }

    /// Retires the connection under `fd`, and hands it back if there was one.
    pub fn remove(&mut self, fd: i32) -> (retired: Option<C>)
        ensures
            final(self)@ == old(self)@.remove(fd),
            retired == if old(self)@.contains_key(fd) {
                Some(old(self)@[fd])
            } else {
                None
            },
    {
        self.connections.remove(&fd)
    }

    /// The connection under `fd`, if one is registered.
    pub fn get(&self, fd: i32) -> (found: Option<&C>)
        ensures
            found == if self@.contains_key(fd) {
                Some(&self@[fd])
            } else {
                None
            },
    {
        self.connections.get(&fd)
    }

    /// Whether a connection is registered under `fd`.
    pub fn contains(&self, fd: i32) -> (known: bool)
        ensures
            known == self@.contains_key(fd),
    {
        self.connections.contains_key(&fd)
    }

    /// The number of registered connections.
    pub fn len(&self) -> (count: usize)
        ensures
            count == self@.dom().len(),
            self@.dom().finite(),
    {
        proof {
            self.lemma_finite();
        }
        self.connections.len()
    }

    /// The registered descriptors, each once, in no particular order.
    pub fn descriptors(&self) -> (all: Vec<i32>)
        ensures
            all@.no_duplicates(),
            all@.to_set() == self@.dom(),
            all@.len() == self@.dom().len(),
    {
        let mut all: Vec<i32> = Vec::new();
        for fd in walk: self.connections.keys()
            invariant
                walk.seq() == spec_keys_iter(&self.connections).remaining(),
                all@.len() == walk.index(),
                forall|i: int| 0 <= i < all@.len() ==> all@[i] == *walk.seq()[i],
        {
            all.push(*fd);
        }
        proof {
            assert(all@ =~= spec_keys_iter(&self.connections).remaining().unref());
        }
        all
    }
}

} // verus!
