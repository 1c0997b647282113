//! A bounded set of message ids already seen, emptied whenever it is full.

use crate::message::MsgId;
use vstd::prelude::*;

verus! {

/// The ids a cache remembers after `id` is inserted into one that remembers
/// `ids` and keeps up to `capacity` ids.
pub open spec fn after_insert(ids: Set<MsgId>, capacity: nat, id: MsgId) -> Set<MsgId> {
    if ids.contains(id) {
        ids
    } else if ids.len() >= capacity {
        set![id]
    } else {
        ids.insert(id)
    }
}

/// An inserted id is remembered.
pub proof fn law_insert_remembers(ids: Set<MsgId>, capacity: nat, id: MsgId)
    ensures
        after_insert(ids, capacity, id).contains(id),
{
}

/// Inserting the same id twice in a row: the second insert finds it (so it
/// is reported as a repeat) and changes nothing.
pub proof fn law_insert_twice(ids: Set<MsgId>, capacity: nat, id: MsgId)
    ensures
        after_insert(ids, capacity, id).contains(id),
        after_insert(after_insert(ids, capacity, id), capacity, id) == after_insert(ids, capacity, id),
{
}

/// Until the cache is full, an insert forgets nothing.
pub proof fn law_insert_keeps_others(ids: Set<MsgId>, capacity: nat, id: MsgId)
    requires
        ids.len() < capacity,
    ensures
        ids.subset_of(after_insert(ids, capacity, id)),
{
}

/// A cache never holds more ids than its capacity, or one id when its
/// capacity is zero.
pub proof fn law_insert_keeps_bound(ids: Set<MsgId>, capacity: nat, id: MsgId)
    requires
        ids.finite(),
        ids.len() <= capacity || ids.len() <= 1,
    ensures
        after_insert(ids, capacity, id).finite(),
        after_insert(ids, capacity, id).len() <= capacity || after_insert(ids, capacity, id).len()
            <= 1,
{
    if !ids.contains(id) && ids.len() >= capacity {
        assert(set![id].len() == 1) by {
            assert(set![id] =~= Set::<MsgId>::empty().insert(id));
        }
    }
}

/// Remembers the ids of messages this node has seen, to drop repeats.
///
/// At most `capacity` ids are kept (at least one, once an id was inserted):
/// when an unseen id arrives at a full cache, every remembered id is
/// forgotten first.
pub struct SeenCache {
    seen: Vec<MsgId>,
    capacity: usize,
}

impl SeenCache {
    /// The ids remembered.
    pub closed spec fn ids(&self) -> Set<MsgId> {
        self.seen@.to_set()
    }

    /// How many ids the cache keeps before it empties itself.
    pub closed spec fn max_ids(&self) -> nat {
        self.capacity as nat
    }

    /// The cache's invariant: each id once, and no more than the capacity
    /// (one id is kept even with a capacity of zero).
    pub closed spec fn wf(&self) -> bool {
        &&& self.seen@.no_duplicates()
        &&& (self.seen.len() <= self.capacity || self.seen.len() <= 1)
    }

    proof fn lemma_size(&self)
        requires
            self.wf(),
        ensures
            self.ids().len() == self.seen.len(),
            self.ids().finite(),
            self.ids().len() <= self.max_ids() || self.ids().len() <= 1,
    {
        self.seen@.unique_seq_to_set();
    }

    /// A remembered cache's set of ids is finite and within the bound.
    pub proof fn lemma_bounded(&self)
        requires
            self.wf(),
        ensures
            self.ids().finite(),
            self.ids().len() <= self.max_ids() || self.ids().len() <= 1,
    {
        self.lemma_size();
    }

    /// How many ids the cache keeps before it empties itself.
    pub fn capacity(&self) -> (n: usize)
        ensures
            n == self.max_ids(),
    {
        self.capacity
    }

    /// The ids remembered, each once.
    pub fn seen(&self) -> (ids: Vec<MsgId>)
        requires
            self.wf(),
        ensures
            ids@.no_duplicates(),
            ids@.to_set() == self.ids(),
    {
        let ids = self.seen.clone();
        proof {
            assert forall|i: int| 0 <= i < ids.len() implies ids@[i] == self.seen@[i] by {
                assert(cloned::<MsgId>(self.seen@[i], ids@[i]));
            }
            assert(ids@ =~= self.seen@);
        }
        ids
    }

    /// An empty cache that keeps up to `capacity` ids.
    pub fn new(capacity: usize) -> (cache: SeenCache)
        ensures
            cache.wf(),
            cache.ids() == Set::<MsgId>::empty(),
            cache.max_ids() == capacity,
            cache.ids().finite(),
    {
        let cache = SeenCache { seen: Vec::new(), capacity };
        assert(cache.seen@.to_set() =~= Set::<MsgId>::empty());
        cache
    }

    /// Whether `id` is remembered.
    pub fn contains(&self, id: &MsgId) -> (found: bool)
        ensures
            found == self.ids().contains(*id),
    {
        let mut i: usize = 0;
        while i < self.seen.len()
            invariant
                i <= self.seen.len(),
                forall|j: int| 0 <= j < i ==> self.seen@[j] != *id,
            decreases self.seen.len() - i,
        {
            if self.seen[i].same_as(id) {
                assert(self.seen@.to_set().contains(self.seen@[i as int]));
                return true;
            }
            i = i + 1;
        }
        proof {
            if self.seen@.to_set().contains(*id) {
                let k = choose|k: int| 0 <= k < self.seen@.len() && self.seen@[k] == *id;
                assert(self.seen@[k] == *id);
            }
        }
        false
    }

    /// Records `id`; returns whether it was new.
    ///
    /// A known id changes nothing. An unseen id that finds the cache full
    /// (as many ids as the capacity, or more) replaces all remembered ids.
    pub fn insert(&mut self, id: &MsgId) -> (fresh: bool)
        requires
            old(self).wf(),
        ensures
            final(self).wf(),
            final(self).max_ids() == old(self).max_ids(),
            fresh == !old(self).ids().contains(*id),
            final(self).ids() == after_insert(old(self).ids(), old(self).max_ids(), *id),
            final(self).ids().finite(),
            final(self).ids().len() <= final(self).max_ids() || final(self).ids().len() <= 1,
    {
        proof {
            self.lemma_size();
        }
        if self.contains(id) {
            return false;
        }
        if self.seen.len() >= self.capacity {
            self.seen.clear();
        }
        let ghost before = self.seen@;
        self.seen.push(*id);
        proof {
            assert(self.seen@ == before.push(*id));
            assert forall|x: MsgId| self.seen@.contains(x) <==> (before.contains(x) || x == *id) by {
                if x == *id {
                    assert(self.seen@[before.len() as int] == *id);
                }
                if before.contains(x) {
                    let k = choose|k: int| 0 <= k < before.len() && before[k] == x;
                    assert(self.seen@[k] == x);
                }
                if self.seen@.contains(x) && x != *id {
                    let k = choose|k: int| 0 <= k < self.seen@.len() && self.seen@[k] == x;
                    assert(before[k] == x);
                }
            }
            assert(self.seen@.to_set() =~= before.to_set().insert(*id));
            assert(!before.contains(*id));
            assert forall|a: int, b: int| 0 <= a < b < self.seen@.len() implies self.seen@[a] != self.seen@[b] by {
                if b == self.seen@.len() - 1 {
                    assert(before.contains(before[a]));
                }
            }
            if old(self).seen.len() >= old(self).capacity {
                assert(before.len() == 0);
                assert(self.seen@.to_set() =~= set![*id]);
            }
        }
        true
    }
}

} // verus!
