//! Storage for node outputs.
//!
//! The store in use is in memory. [`PersistentStore`] is a documented
//! interface, not an implementation: process restarts are not supported.

use vstd::prelude::*;
use std::collections::HashMap;
use crate::error::Error;
use crate::id::NodeId;

verus! {

broadcast use vstd::std_specs::hash::group_hash_axioms;

/// The key under which a node's value is kept: the slot index in the high
/// half, the generation in the low half.
pub open spec fn slot_key(id: NodeId) -> u64 {
    (id.index as int * 0x1_0000_0000 + id.generation as int) as u64
}

/// Distinct ids are kept under distinct keys.
pub proof fn lemma_slot_key_injective(a: NodeId, b: NodeId)
    ensures
        slot_key(a) == slot_key(b) <==> a == b,
{
    let ka = a.index as int * 0x1_0000_0000 + a.generation as int;
    let kb = b.index as int * 0x1_0000_0000 + b.generation as int;
    assert(0 <= ka <= u64::MAX);
    assert(0 <= kb <= u64::MAX);
    if ka == kb {
        assert(a.index == b.index && a.generation == b.generation) by (nonlinear_arith)
            requires
                ka == a.index as int * 0x1_0000_0000 + a.generation as int,
                kb == b.index as int * 0x1_0000_0000 + b.generation as int,
                ka == kb,
                0 <= a.generation < 0x1_0000_0000,
                0 <= b.generation < 0x1_0000_0000,
        ;
    }
}

fn key_of(id: NodeId) -> (k: u64)
    ensures
        k == slot_key(id),
{
    (id.index as u64) * 0x1_0000_0000u64 + (id.generation as u64)
}

/// A store of node outputs: values written under node ids and read back.
pub trait Store<V> {
    /// What the store holds, by slot key.
    spec fn contents(&self) -> Map<u64, V>;

    /// Write `value` for `id`. Every other value stays as it was; a store
    /// may decline to keep it (the persistent one keeps nothing), but what
    /// it holds for `id` afterwards is `value`.
    fn insert(&mut self, id: NodeId, value: V)
        ensures
            final(self).contents().remove(slot_key(id)) == old(self).contents().remove(slot_key(id)),
            final(self).contents().contains_key(slot_key(id)) ==> final(self).contents()[slot_key(id)] == value,
    ;

    /// The value held for `id`, if any.
    fn get(&self, id: NodeId) -> (r: Option<&V>)
        ensures
            r == (if self.contents().contains_key(slot_key(id)) { Some(&self.contents()[slot_key(id)]) } else { None }),
    ;

    /// Forget the value of `id`; every other value stays.
    fn remove(&mut self, id: NodeId)
        ensures
            final(self).contents() == old(self).contents().remove(slot_key(id)),
    ;

    /// Whether a value is held for `id`.
    fn contains(&self, id: NodeId) -> (r: bool)
        ensures
            r == self.contents().contains_key(slot_key(id)),
    ;

    /// How many values are held.
    fn len(&self) -> (n: usize)
        ensures
            n == self.contents().len(),
    ;

    /// Whether no value is held.
    fn is_empty(&self) -> (r: bool)
        ensures
            r == (self.contents().len() == 0),
    {
        self.len() == 0
    }

    /// Forget every value.
    fn clear(&mut self)
        ensures
            final(self).contents() == Map::<u64, V>::empty(),
    ;
}

/// Node outputs kept in memory. Its view maps the slot key of each node that
/// has a value to that value.
pub struct MemoryStore<V> {
    values: HashMap<u64, V>,
}

impl<V> View for MemoryStore<V> {
    type V = Map<u64, V>;

    closed spec fn view(&self) -> Map<u64, V> {
        self.values@
    }
}

impl<V> MemoryStore<V> {
    pub fn new() -> (s: MemoryStore<V>)
        ensures
            s@ == Map::<u64, V>::empty(),
    {
        MemoryStore { values: HashMap::new() }
    }

    /// The value of node `id`, if it has one.
    pub fn get_as(&self, id: NodeId) -> (r: Option<&V>)
        ensures
            r == (if self@.contains_key(slot_key(id)) { Some(&self@[slot_key(id)]) } else { None }),
    {
        self.values.get(&key_of(id))
    }
}

impl<V> Default for MemoryStore<V> {
    fn default() -> (s: MemoryStore<V>)
        ensures
            s@ == Map::<u64, V>::empty(),
    {
        MemoryStore::new()
    }
}

impl<V> Store<V> for MemoryStore<V> {
    open spec fn contents(&self) -> Map<u64, V> {
        self@
    }

    fn insert(&mut self, id: NodeId, value: V)
        ensures
            final(self)@ == old(self)@.insert(slot_key(id), value),
    {
        self.values.insert(key_of(id), value);
    }

    fn get(&self, id: NodeId) -> (r: Option<&V>)
        ensures
            r == (if self@.contains_key(slot_key(id)) { Some(&self@[slot_key(id)]) } else { None }),
    {
        self.values.get(&key_of(id))
    }

    fn remove(&mut self, id: NodeId)
        ensures
            final(self)@ == old(self)@.remove(slot_key(id)),
    {
        self.values.remove(&key_of(id));
    }

    fn contains(&self, id: NodeId) -> (r: bool)
        ensures
            r == self@.contains_key(slot_key(id)),
    {
        self.values.contains_key(&key_of(id))
    }

    fn len(&self) -> (n: usize)
        ensures
            n == self@.len(),
    {
        self.values.len()
    }

    fn is_empty(&self) -> (r: bool)
        ensures
            r == (self@.len() == 0),
    {
        self.values.len() == 0
    }

    fn clear(&mut self)
        ensures
            final(self)@ == Map::<u64, V>::empty(),
    {
        self.values.clear();
    }
}

/// A read gives back the last value written under the same id; writes and
/// removals under other ids leave it alone.
pub proof fn law_store_read_after_write<V>(m: Map<u64, V>, id: NodeId, other: NodeId, value: V)
    ensures
        m.insert(slot_key(id), value).contains_key(slot_key(id)),
        m.insert(slot_key(id), value)[slot_key(id)] == value,
        !m.remove(slot_key(id)).contains_key(slot_key(id)),
        other != id ==> (m.insert(slot_key(id), value).contains_key(slot_key(other)) == m.contains_key(slot_key(other))),
        other != id && m.contains_key(slot_key(other)) ==> m.insert(slot_key(id), value)[slot_key(other)] == m[slot_key(other)],
        other != id ==> (m.remove(slot_key(id)).contains_key(slot_key(other)) == m.contains_key(slot_key(other))),
{
    lemma_slot_key_injective(id, other);
}

/// The message persistence is refused with.
pub open spec fn msg_persistence_deferred() -> Seq<char> {
    "persistence is deferred (phase 14); use MemoryStore"@
}

/// Persistence is not implemented. The type exists so adapters can depend
/// on a stable name; opening one is always refused.
pub struct PersistentStore<V> {
    path: String,
    values: std::marker::PhantomData<V>,
}

impl<V> PersistentStore<V> {
    /// Always refused with `Unsupported`.
    pub fn open(path: &str) -> (r: Result<PersistentStore<V>, Error>)
        ensures
            r matches Err(e) && e.is_unsupported(msg_persistence_deferred()),
    {
        let _ = path;
        Err(Error::Unsupported("persistence is deferred (phase 14); use MemoryStore".to_owned()))
    }

    /// Where the store would live.
    pub closed spec fn location(&self) -> Seq<char> {
        self.path@
    }

    pub fn path(&self) -> (p: &str)
        ensures
            p@ == self.location(),
    {
        self.path.as_str()
    }
}

impl<V> Store<V> for PersistentStore<V> {
    /// A persistent store holds nothing.
    open spec fn contents(&self) -> Map<u64, V> {
        Map::empty()
    }

    fn insert(&mut self, id: NodeId, value: V)
        ensures
            *final(self) == *old(self),
    {
    }

    fn get(&self, id: NodeId) -> (r: Option<&V>)
        ensures
            r is None,
    {
        None
    }

    fn remove(&mut self, id: NodeId)
        ensures
            *final(self) == *old(self),
    {
    }

    fn contains(&self, id: NodeId) -> (r: bool)
        ensures
            !r,
    {
        false
    }

    fn len(&self) -> (n: usize)
        ensures
            n == 0,
    {
        0
    }

    fn clear(&mut self)
        ensures
            *final(self) == *old(self),
    {
    }
}

} // verus!
