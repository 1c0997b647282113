//! A de-duplication cache that forgets the least recently seen id first.

use crate::message::MsgId;
use vstd::prelude::*;

verus! {

#[verifier::external_type_specification]
#[verifier::external_body]
#[verifier::reject_recursive_types(K)]
#[verifier::reject_recursive_types(V)]
#[verifier::reject_recursive_types(S)]
pub struct ExLruCache<K, V, S>(lru::LruCache<K, V, S>);

/// The keys of an `lru::LruCache`, most recently used first.
pub uninterp spec fn lru_order(cache: lru::LruCache<[u8; 32], ()>) -> Seq<[u8; 32]>;

/// The number of entries an `lru::LruCache` was made to hold.
pub uninterp spec fn lru_cap(cache: lru::LruCache<[u8; 32], ()>) -> nat;

/// `LruCache::new`, on the non-zero capacity `capacity`: an empty cache
/// that holds up to `capacity` entries.
#[verifier::external_body]
fn lru_new(capacity: usize) -> (cache: lru::LruCache<[u8; 32], ()>)
    requires
        capacity >= 1,
    ensures
        lru_order(cache) == Seq::<[u8; 32]>::empty(),
        lru_cap(cache) == capacity,
{
    lru::LruCache::new(std::num::NonZeroUsize::new(capacity).unwrap())
}

/// `LruCache::get`: finds `key`; a found key becomes the most recently
/// used one, a missing key changes nothing.
#[verifier::external_body]
fn lru_get(cache: &mut lru::LruCache<[u8; 32], ()>, key: &[u8; 32]) -> (found: bool)
    ensures
        found == lru_order(*old(cache)).contains(*key),
        lru_cap(*final(cache)) == lru_cap(*old(cache)),
        found ==> lru_order(*final(cache)) == seq![*key] + lru_order(*old(cache)).remove(
            lru_order(*old(cache)).index_of(*key),
        ),
        !found ==> lru_order(*final(cache)) == lru_order(*old(cache)),
{
    cache.get(key).is_some()
}

/// `LruCache::put` of a key with the unit value: the key becomes the most
/// recently used one; a key not yet there evicts the least recently used
/// key when the cache holds as many keys as its capacity.
#[verifier::external_body]
fn lru_put(cache: &mut lru::LruCache<[u8; 32], ()>, key: [u8; 32]) -> (replaced: bool)
    ensures
        replaced == lru_order(*old(cache)).contains(key),
        lru_cap(*final(cache)) == lru_cap(*old(cache)),
        replaced ==> lru_order(*final(cache)) == seq![key] + lru_order(*old(cache)).remove(
            lru_order(*old(cache)).index_of(key),
        ),
        !replaced && lru_order(*old(cache)).len() == lru_cap(*old(cache)) ==> lru_order(
            *final(cache),
        ) == seq![key] + lru_order(*old(cache)).drop_last(),
        !replaced && lru_order(*old(cache)).len() < lru_cap(*old(cache)) ==> lru_order(
            *final(cache),
        ) == seq![key] + lru_order(*old(cache)),
{
    cache.put(key, ()).is_some()
}

/// The keys of a cache holding `order` (most recent first) and up to
/// `capacity` keys, after `key` is inserted: the key moves or comes to the
/// front; a new key evicts the last one from a full cache.
pub open spec fn order_after_insert(order: Seq<[u8; 32]>, capacity: nat, key: [u8; 32]) -> Seq<
    [u8; 32],
> {
    if order.contains(key) {
        seq![key] + order.remove(order.index_of(key))
    } else if order.len() == capacity {
        seq![key] + order.drop_last()
    } else {
        seq![key] + order
    }
}

/// Remembers the ids of messages seen, forgetting the least recently seen
/// one when full.
pub struct SeenCache {
    cache: lru::LruCache<[u8; 32], ()>,
}

impl SeenCache {
    /// The remembered ids' bytes, most recently seen first.
    pub closed spec fn order(&self) -> Seq<[u8; 32]> {
        lru_order(self.cache)
    }

    /// How many ids the cache holds at most.
    pub closed spec fn capacity(&self) -> nat {
        lru_cap(self.cache)
    }

    /// Whether the cache remembers `id`.
    pub open spec fn remembers(&self, id: MsgId) -> bool {
        self.order().contains(id.0)
    }

    /// The cache's invariant: each id once, at most `capacity` of them, and
    /// a capacity of at least one.
    pub closed spec fn wf(&self) -> bool {
        &&& self.order().no_duplicates()
        &&& self.order().len() <= self.capacity()
        &&& self.capacity() >= 1
    }

    /// A well-formed cache remembers each id once, no more ids than its
    /// capacity, and has a capacity of at least one.
    pub proof fn lemma_bounded(&self)
        requires
            self.wf(),
        ensures
            self.order().no_duplicates(),
            self.order().len() <= self.capacity(),
            self.capacity() >= 1,
    {
    }

    /// An empty cache that holds up to `capacity` ids.
    pub fn new(capacity: usize) -> (cache: SeenCache)
        requires
            capacity >= 1,
        ensures
            cache.wf(),
            cache.order() == Seq::<[u8; 32]>::empty(),
            cache.capacity() >= 1,
            cache.capacity() == capacity,
    {
        SeenCache { cache: lru_new(capacity) }
    }

    /// Records `id` as the most recently seen; returns whether it was new.
    ///
    /// An unseen id that finds the cache full evicts the least recently
    /// seen id.
    pub fn insert(&mut self, id: &MsgId) -> (fresh: bool)
        requires
            old(self).wf(),
        ensures
            final(self).wf(),
            final(self).capacity() == old(self).capacity(),
            fresh == !old(self).remembers(*id),
            final(self).order() == order_after_insert(old(self).order(), old(self).capacity(), id.0),
            final(self).order().no_duplicates(),
            final(self).order().len() <= final(self).capacity(),
    {
        if lru_get(&mut self.cache, &id.0) {
            proof {
                lemma_bump_keeps_unique(old(self).order(), id.0);
            }
            return false;
        }
        lru_put(&mut self.cache, id.0);
        proof {
            let o = old(self).order();
            if o.len() == old(self).capacity() {
                lemma_push_front_unique(o.drop_last(), id.0);
            } else {
                lemma_push_front_unique(o, id.0);
            }
        }
        true
    }
}

/// An inserted id is the most recently seen one.
pub proof fn law_insert_makes_most_recent(order: Seq<[u8; 32]>, capacity: nat, key: [u8; 32])
    ensures
        order_after_insert(order, capacity, key).len() > 0,
        order_after_insert(order, capacity, key)[0] == key,
        order_after_insert(order, capacity, key).contains(key),
{
    assert(order_after_insert(order, capacity, key)[0] == key);
}

/// A cache that holds each id once and no more ids than its capacity keeps
/// both after an insert.
pub proof fn law_insert_keeps_bound(order: Seq<[u8; 32]>, capacity: nat, key: [u8; 32])
    requires
        order.no_duplicates(),
        order.len() <= capacity,
        capacity >= 1,
    ensures
        order_after_insert(order, capacity, key).no_duplicates(),
        order_after_insert(order, capacity, key).len() <= capacity,
{
    if order.contains(key) {
        lemma_bump_keeps_unique(order, key);
    } else if order.len() == capacity {
        lemma_push_front_unique(order.drop_last(), key);
    } else {
        lemma_push_front_unique(order, key);
    }
}

/// Inserting the same id twice in a row: the second insert finds it and
/// changes nothing.
pub proof fn law_insert_twice(order: Seq<[u8; 32]>, capacity: nat, key: [u8; 32])
    requires
        order.no_duplicates(),
        order.len() <= capacity,
        capacity >= 1,
    ensures
        order_after_insert(order, capacity, key).contains(key),
        order_after_insert(order_after_insert(order, capacity, key), capacity, key)
            == order_after_insert(order, capacity, key),
{
    law_insert_keeps_bound(order, capacity, key);
    let once = order_after_insert(order, capacity, key);
    assert(once[0] == key);
    let i = once.index_of(key);
    assert(0 <= i < once.len() && once[i] == key);
    if i != 0 {
        assert(once[0] == once[i]);
    }
    assert(seq![key] + once.remove(0) =~= once);
}

/// What an insert forgets: a repeat forgets nothing; a new id forgets
/// nothing below the capacity, and exactly the least recently seen id at
/// it.
pub proof fn law_insert_forgets(order: Seq<[u8; 32]>, capacity: nat, key: [u8; 32])
    requires
        order.no_duplicates(),
        order.len() <= capacity,
        capacity >= 1,
    ensures
        order.contains(key) ==> order_after_insert(order, capacity, key).to_set() == order.to_set(),
        !order.contains(key) && order.len() < capacity ==> order_after_insert(order, capacity, key).to_set()
            == order.to_set().insert(key),
        !order.contains(key) && order.len() == capacity ==> order_after_insert(
            order,
            capacity,
            key,
        ).to_set() == order.to_set().remove(order.last()).insert(key),
{
    let after = order_after_insert(order, capacity, key);
    if order.contains(key) {
        let i = order.index_of(key);
        let r = order.remove(i);
        assert forall|x: [u8; 32]| after.contains(x) <==> order.contains(x) by {
            if after.contains(x) {
                let j = choose|j: int| 0 <= j < after.len() && after[j] == x;
                if j > 0 {
                    let ij = if j - 1 < i { j - 1 } else { j };
                    assert(r[j - 1] == order[ij]);
                }
            }
            if order.contains(x) {
                let j = choose|j: int| 0 <= j < order.len() && order[j] == x;
                if j == i {
                    assert(after[0] == x);
                } else {
                    let rj = if j < i { j } else { j - 1 };
                    assert(r[rj] == x);
                    assert(after[rj + 1] == x);
                }
            }
        }
        assert(after.to_set() =~= order.to_set());
    } else if order.len() == capacity {
        let d = order.drop_last();
        let last = order.last();
        assert forall|x: [u8; 32]| after.contains(x) <==> (order.contains(x) && x != last) || x == key by {
            if after.contains(x) && x != key {
                let j = choose|j: int| 0 <= j < after.len() && after[j] == x;
                assert(j > 0);
                assert(d[j - 1] == order[j - 1]);
                assert(order[j - 1] != order[order.len() - 1]);
            }
            if order.contains(x) && x != last {
                let j = choose|j: int| 0 <= j < order.len() && order[j] == x;
                assert(j != order.len() - 1);
                assert(after[j + 1] == x);
            }
            if x == key {
                assert(after[0] == x);
            }
        }
        assert(after.to_set() =~= order.to_set().remove(last).insert(key));
    } else {
        assert forall|x: [u8; 32]| after.contains(x) <==> order.contains(x) || x == key by {
            if after.contains(x) && x != key {
                let j = choose|j: int| 0 <= j < after.len() && after[j] == x;
                assert(order[j - 1] == x);
            }
            if order.contains(x) {
                let j = choose|j: int| 0 <= j < order.len() && order[j] == x;
                assert(after[j + 1] == x);
            }
            if x == key {
                assert(after[0] == x);
            }
        }
        assert(after.to_set() =~= order.to_set().insert(key));
    }
}

/// Putting a key that is not in a sequence without duplicates in front of
/// that sequence, or of a prefix of it, keeps it free of duplicates.
proof fn lemma_push_front_unique(s: Seq<[u8; 32]>, k: [u8; 32])
    requires
        s.no_duplicates(),
        !s.contains(k),
    ensures
        (seq![k] + s).no_duplicates(),
{
    let t = seq![k] + s;
    assert forall|i: int, j: int| 0 <= i < t.len() && 0 <= j < t.len() && i != j implies t[i] != t[j] by {
        if i == 0 {
            assert(t[j] == s[j - 1]);
        } else if j == 0 {
            assert(t[i] == s[i - 1]);
        } else {
            assert(t[i] == s[i - 1] && t[j] == s[j - 1]);
        }
    }
}

/// Moving a key of a sequence without duplicates to its front keeps it free
/// of duplicates and of the same length.
proof fn lemma_bump_keeps_unique(s: Seq<[u8; 32]>, k: [u8; 32])
    requires
        s.no_duplicates(),
        s.contains(k),
    ensures
        (seq![k] + s.remove(s.index_of(k))).no_duplicates(),
        (seq![k] + s.remove(s.index_of(k))).len() == s.len(),
{
    let i = s.index_of(k);
    let r = s.remove(i);
    assert forall|a: int, b: int| 0 <= a < r.len() && 0 <= b < r.len() && a != b implies r[a] != r[b] by {
        let ia = if a < i { a } else { a + 1 };
        let ib = if b < i { b } else { b + 1 };
        assert(r[a] == s[ia] && r[b] == s[ib]);
    }
    assert(!r.contains(k)) by {
        if r.contains(k) {
            let a = choose|a: int| 0 <= a < r.len() && r[a] == k;
            let ia = if a < i { a } else { a + 1 };
            assert(r[a] == s[ia]);
        }
    }
    lemma_push_front_unique(r, k);
}

} // verus!
