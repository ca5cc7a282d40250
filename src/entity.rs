//! Entity identities: issued, released and reused by an allocator.

use vstd::prelude::*;

verus! {

/// An entity identity: a small integer with no data of its own.
#[derive(Debug, Clone, Copy, PartialEq, Eq, Hash, Structural)]
pub struct Entity {
    pub id: u32,
}

impl Entity {
    pub fn new(id: u32) -> (r: Entity)
        ensures
            r.id == id,
    {
        Entity { id }
    }
}

/// Issues entity identities and takes them back for reuse.
///
/// Identities below `next` were issued once; those flagged in `is_free` were
/// released since and wait on the `released` stack to be issued again.
pub struct EntityAllocator {
    next: u32,
    released: Vec<u32>,
    is_free: Vec<bool>,
}

impl EntityAllocator {
    /// The smallest identity never issued.
    pub closed spec fn next_id(&self) -> u32 {
        self.next
    }

    /// Identities that were issued and then released.
    pub closed spec fn free_ids(&self) -> Set<u32> {
        Set::new(|k: u32| k < self.next && self.is_free@[k as int])
    }

    /// Every free identity is below the next fresh one.
    pub open spec fn free_below_next(&self) -> bool {
        forall|k: u32| #[trigger] self.free_ids().contains(k) ==> k < self.next_id()
    }

    /// Identities that are currently live: issued and not released.
    pub open spec fn live_ids(&self) -> Set<u32> {
        Set::new(|k: u32| k < self.next_id() && !self.free_ids().contains(k))
    }

    pub open spec fn is_live(&self, id: u32) -> bool {
        id < self.next_id() && !self.free_ids().contains(id)
    }

    /// An identity can still be issued without leaving the `u32` range.
    pub open spec fn can_alloc(&self) -> bool {
        !self.free_ids().is_empty() || self.next_id() < u32::MAX
    }

    pub closed spec fn wf(&self) -> bool {
        &&& self.is_free@.len() == self.next as int
        &&& forall|i: int|
            0 <= i < self.released@.len() ==> {
                &&& #[trigger] self.released@[i] < self.next
                &&& self.is_free@[self.released@[i] as int]
            }
        &&& forall|i: int, j: int|
            0 <= i < self.released@.len() && 0 <= j < self.released@.len() && i != j
                ==> self.released@[i] != self.released@[j]
        &&& forall|k: int|
            0 <= k < self.next && #[trigger] self.is_free@[k] ==> exists|i: int|
                0 <= i < self.released@.len() && self.released@[i] == k
    }

    proof fn lemma_free_ids_empty(&self)
        requires
            self.wf(),
        ensures
            self.released@.len() == 0 <==> self.free_ids().is_empty(),
    {
        if self.released@.len() == 0 {
            assert forall|k: u32| !self.free_ids().contains(k) by {
                if k < self.next && self.is_free@[k as int] {
                    let i = choose|i: int|
                        0 <= i < self.released@.len() && self.released@[i] == k as int;
                }
            }
            assert(self.free_ids() =~= Set::<u32>::empty());
        } else {
            let last = self.released@[self.released@.len() - 1];
            assert(self.free_ids().contains(last));
        }
    }

    pub fn new() -> (r: EntityAllocator)
        ensures
            r.wf(),
            r.next_id() == 0,
            r.free_ids().is_empty(),
            r.live_ids().is_empty(),
            r.free_below_next(),
    {
        let r = EntityAllocator { next: 0, released: Vec::new(), is_free: Vec::new() };
        assert(r.free_ids() =~= Set::<u32>::empty());
        assert(r.live_ids() =~= Set::<u32>::empty());
        r
    }

    /// Issues a released identity if there is one, else the next fresh one.
    pub fn allocate(&mut self) -> (r: Entity)
        requires
            old(self).wf(),
            old(self).can_alloc(),
        ensures
            final(self).wf(),
            allocation_step(*old(self), *final(self), r.id),
            final(self).free_below_next(),
    {
        proof {
            self.lemma_free_ids_empty();
        }
        match self.released.pop() {
            Some(id) => {
                assert(old(self).released@[old(self).released@.len() - 1] == id);
                self.is_free.set(id as usize, false);
                assert forall|i: int| 0 <= i < self.released@.len() implies self.released@[i]
                    != id by {
                    assert(old(self).released@[i] == self.released@[i]);
                }
                assert forall|k: int|
                    0 <= k < self.next && #[trigger] self.is_free@[k] implies exists|i: int|
                        0 <= i < self.released@.len() && self.released@[i] == k by {
                    assert(old(self).is_free@[k]);
                    let i = choose|i: int|
                        0 <= i < old(self).released@.len() && old(self).released@[i] == k;
                    assert(i != old(self).released@.len() - 1);
                    assert(self.released@[i] == k);
                }
                assert(self.free_ids() =~= old(self).free_ids().remove(id));
                assert(self.live_ids() =~= old(self).live_ids().insert(id));
                Entity { id }
            },
            None => {
                let id = self.next;
                self.is_free.push(false);
                self.next = self.next + 1;
                assert forall|k: int|
                    0 <= k < self.next && #[trigger] self.is_free@[k] implies exists|i: int|
                        0 <= i < self.released@.len() && self.released@[i] == k by {
                    assert(old(self).is_free@[k]);
                }
                assert(self.free_ids() =~= old(self).free_ids());
                assert(self.live_ids() =~= old(self).live_ids().insert(id));
                Entity { id }
            },
        }
    }

    /// Releases an identity for reuse. Releasing an identity that is already
    /// free, or one that was never issued, changes nothing.
    pub fn free(&mut self, entity: Entity)
        requires
            old(self).wf(),
        ensures
            final(self).wf(),
            final(self).next_id() == old(self).next_id(),
            entity.id < old(self).next_id() ==> final(self).free_ids() == old(
                self,
            ).free_ids().insert(entity.id),
            entity.id >= old(self).next_id() ==> final(self).free_ids() == old(self).free_ids(),
            final(self).live_ids() == old(self).live_ids().remove(entity.id),
            final(self).free_below_next(),
    {
        let id = entity.id;
        if id < self.next && !self.is_free[id as usize] {
            self.released.push(id);
            self.is_free.set(id as usize, true);
            assert forall|i: int, j: int|
                0 <= i < self.released@.len() && 0 <= j < self.released@.len() && i != j
                    implies self.released@[i] != self.released@[j] by {
                if i == self.released@.len() - 1 {
                    assert(old(self).is_free@[self.released@[j] as int]);
                } else if j == self.released@.len() - 1 {
                    assert(old(self).is_free@[self.released@[i] as int]);
                }
            }
            assert forall|k: int|
                0 <= k < self.next && #[trigger] self.is_free@[k] implies exists|i: int|
                    0 <= i < self.released@.len() && self.released@[i] == k by {
                if k == id {
                    assert(self.released@[self.released@.len() - 1] == k);
                } else {
                    assert(old(self).is_free@[k]);
                    let i = choose|i: int|
                        0 <= i < old(self).released@.len() && old(self).released@[i] == k;
                    assert(self.released@[i] == k);
                }
            }
        }
        assert(self.free_ids() =~= if id < old(self).next {
            old(self).free_ids().insert(id)
        } else {
            old(self).free_ids()
        });
        assert(self.live_ids() =~= old(self).live_ids().remove(id));
    }

    /// Walks the live identities in ascending order.
    pub fn iter(&self) -> (r: EntityAllocatorIterator<'_>)
        requires
            self.wf(),
        ensures
            r.wf(),
            r.source() == *self,
            r.remaining() == self.live_ids(),
    {
        EntityAllocatorIterator::new(self)
    }

    /// The live identities, in ascending order.
    pub fn entities(&self) -> (r: Vec<Entity>)
        requires
            self.wf(),
        ensures
            forall|i: int, j: int| 0 <= i < j < r@.len() ==> r@[i].id < r@[j].id,
            forall|i: int| 0 <= i < r@.len() ==> self.live_ids().contains(#[trigger] r@[i].id),
            forall|k: u32| #[trigger] self.live_ids().contains(k) ==> exists|i: int|
                0 <= i < r@.len() && r@[i].id == k,
    {
        let mut it = self.iter();
        let mut r: Vec<Entity> = Vec::new();
        loop
            invariant
                it.wf(),
                it.source() == *self,
                forall|i: int, j: int| 0 <= i < j < r@.len() ==> r@[i].id < r@[j].id,
                forall|i: int| 0 <= i < r@.len() ==> self.live_ids().contains(#[trigger] r@[i].id),
                forall|i: int, k: u32| 0 <= i < r@.len() && #[trigger] it.remaining().contains(k) ==> #[trigger] r@[i].id < k,
                forall|k: u32| #[trigger] self.live_ids().contains(k) ==> it.remaining().contains(k) || exists|i: int|
                    0 <= i < r@.len() && r@[i].id == k,
            decreases it.remaining_count(),
        {
            let ghost before = r@;
            let ghost rem = it.remaining();
            match it.next() {
                Some(e) => {
                    r.push(e);
                    assert forall|k: u32| #[trigger] self.live_ids().contains(k) implies it.remaining().contains(k)
                        || exists|i: int| 0 <= i < r@.len() && r@[i].id == k by {
                        if k == e.id {
                            assert(r@[r@.len() - 1].id == k);
                        } else if !rem.contains(k) {
                            let i = choose|i: int| 0 <= i < before.len() && before[i].id == k;
                            assert(r@[i].id == k);
                        }
                    }
                },
                None => {
                    return r;
                },
            }
        }
    }
}

impl Default for EntityAllocator {
    fn default() -> (r: EntityAllocator)
        ensures
            r.wf(),
            r.next_id() == 0,
            r.free_ids().is_empty(),
    {
        EntityAllocator::new()
    }
}

/// `after` is `before` once it has issued `id`: a released identity if there
/// was one, else the next fresh one. Either way `id` was not live before and
/// is live after.
pub open spec fn allocation_step(before: EntityAllocator, after: EntityAllocator, id: u32) -> bool {
    &&& !before.is_live(id)
    &&& after.live_ids() == before.live_ids().insert(id)
    &&& before.free_ids().is_empty() ==> {
        &&& id == before.next_id()
        &&& after.next_id() == before.next_id() + 1
        &&& after.free_ids() == before.free_ids()
    }
    &&& !before.free_ids().is_empty() ==> {
        &&& before.free_ids().contains(id)
        &&& after.next_id() == before.next_id()
        &&& after.free_ids() == before.free_ids().remove(id)
    }
}

/// `states` is a run of allocations that issued `ids`, one step each.
pub open spec fn allocation_run(states: Seq<EntityAllocator>, ids: Seq<u32>) -> bool {
    &&& states.len() == ids.len() + 1
    &&& forall|i: int|
        0 <= i < ids.len() ==> allocation_step(states[i], states[i + 1], #[trigger] ids[i])
}

/// While no identity is free, allocations issue consecutive fresh identities,
/// starting at the next one.
pub proof fn lemma_fresh_ids_in_order(states: Seq<EntityAllocator>, ids: Seq<u32>)
    requires
        allocation_run(states, ids),
        states[0].free_ids().is_empty(),
    ensures
        forall|i: int| 0 <= i < ids.len() ==> ids[i] == states[0].next_id() + i,
        states.last().free_ids().is_empty(),
    decreases ids.len(),
{
    if ids.len() > 0 {
        assert(allocation_step(states[0], states[1], ids[0]));
        let rest = states.drop_first();
        let rest_ids = ids.drop_first();
        assert forall|i: int| 0 <= i < rest_ids.len() implies allocation_step(
            rest[i],
            rest[i + 1],
            #[trigger] rest_ids[i],
        ) by {
            assert(allocation_step(states[i + 1], states[i + 2], ids[i + 1]));
        }
        lemma_fresh_ids_in_order(rest, rest_ids);
        assert forall|i: int| 0 <= i < ids.len() implies ids[i] == states[0].next_id() + i by {
            if i > 0 {
                assert(ids[i] == rest_ids[i - 1]);
            }
        }
    }
}

/// Once a set of identities is free, as many allocations issue exactly those
/// identities, each once, in some order.
pub proof fn lemma_reuse_returns_freed(states: Seq<EntityAllocator>, ids: Seq<u32>)
    requires
        allocation_run(states, ids),
        states[0].free_ids().finite(),
        states[0].free_ids().len() == ids.len(),
    ensures
        ids.no_duplicates(),
        ids.to_set() == states[0].free_ids(),
        states.last().free_ids().is_empty(),
        states.last().next_id() == states[0].next_id(),
    decreases ids.len(),
{
    if ids.len() == 0 {
        assert(states[0].free_ids() =~= Set::<u32>::empty());
        assert(ids.to_set() =~= Set::<u32>::empty());
    } else {
        assert(allocation_step(states[0], states[1], ids[0]));
        assert(states[0].free_ids().contains(ids[0]));
        assert(!states[0].free_ids().is_empty());
        let rest = states.drop_first();
        let rest_ids = ids.drop_first();
        assert forall|i: int| 0 <= i < rest_ids.len() implies allocation_step(
            rest[i],
            rest[i + 1],
            #[trigger] rest_ids[i],
        ) by {
            assert(allocation_step(states[i + 1], states[i + 2], ids[i + 1]));
        }
        lemma_reuse_returns_freed(rest, rest_ids);
        assert(ids =~= seq![ids[0]] + rest_ids);
        assert(ids.to_set() =~= rest_ids.to_set().insert(ids[0]));
        assert(states[0].free_ids() =~= states[1].free_ids().insert(ids[0]));
        assert forall|i: int, j: int|
            0 <= i < ids.len() && 0 <= j < ids.len() && i != j implies ids[i] != ids[j] by {
            if i > 0 && j > 0 {
                assert(ids[i] == rest_ids[i - 1] && ids[j] == rest_ids[j - 1]);
            } else if i == 0 {
                assert(rest_ids.to_set().contains(rest_ids[j - 1]));
            } else {
                assert(rest_ids.to_set().contains(rest_ids[i - 1]));
            }
        }
    }
}

/// Walks the live identities of an allocator in ascending order.
pub struct EntityAllocatorIterator<'a> {
    allocator: &'a EntityAllocator,
    current: u32,
}

impl<'a> EntityAllocatorIterator<'a> {
    pub closed spec fn source(&self) -> EntityAllocator {
        *self.allocator
    }

    /// Position of the walk: no live identity below it is still to come.
    pub closed spec fn position(&self) -> u32 {
        self.current
    }

    /// Live identities that are still to come.
    pub open spec fn remaining(&self) -> Set<u32> {
        Set::new(|k: u32| self.position() <= k && self.source().is_live(k))
    }

    pub open spec fn remaining_count(&self) -> nat {
        (self.source().next_id() - self.position()) as nat
    }

    pub closed spec fn wf(&self) -> bool {
        &&& self.allocator.wf()
        &&& self.current <= self.allocator.next
        &&& self.current < self.allocator.next ==> !self.allocator.is_free@[self.current as int]
    }

    pub fn new(allocator: &'a EntityAllocator) -> (r: EntityAllocatorIterator<'a>)
        requires
            allocator.wf(),
        ensures
            r.wf(),
            r.source() == *allocator,
            r.remaining() == allocator.live_ids(),
    {
        let mut it = EntityAllocatorIterator { allocator, current: 0 };
        it.next_free_entity();
        assert(it.remaining() =~= allocator.live_ids());
        it
    }

    /// Moves the position past released identities.
    fn next_free_entity(&mut self)
        requires
            old(self).allocator.wf(),
            old(self).current <= old(self).allocator.next,
        ensures
            final(self).wf(),
            final(self).allocator == old(self).allocator,
            final(self).current >= old(self).current,
            final(self).remaining() == old(self).remaining(),
    {
        while self.current < self.allocator.next && self.allocator.is_free[self.current as usize]
            invariant
                self.allocator == old(self).allocator,
                self.allocator.wf(),
                old(self).current <= self.current <= self.allocator.next,
                forall|k: u32| old(self).current <= k < self.current ==> !old(self).allocator.is_live(k),
            decreases self.allocator.next - self.current,
        {
            let ghost c = self.current;
            assert(self.allocator.free_ids().contains(c));
            self.current = self.current + 1;
            assert forall|k: u32| old(self).current <= k < self.current implies !old(self).allocator.is_live(k) by {
                if k == c {
                    assert(old(self).allocator.free_ids().contains(k));
                }
            }
        }
        assert(self.remaining() =~= old(self).remaining());
    }

    /// The smallest live identity still to come, if any.
    pub fn next(&mut self) -> (r: Option<Entity>)
        requires
            old(self).wf(),
        ensures
            final(self).wf(),
            final(self).source() == old(self).source(),
            final(self).remaining_count() <= old(self).remaining_count(),
            match r {
                None => old(self).remaining().is_empty() && final(self).remaining().is_empty(),
                Some(e) => {
                    &&& old(self).remaining().contains(e.id)
                    &&& forall|k: u32| old(self).remaining().contains(k) ==> e.id <= k
                    &&& final(self).remaining() == old(self).remaining().remove(e.id)
                    &&& final(self).remaining_count() < old(self).remaining_count()
                },
            },
    {
        if self.current == self.allocator.next {
            assert(self.remaining() =~= Set::<u32>::empty());
            None
        } else {
            let e = Entity { id: self.current };
            self.current = self.current + 1;
            self.next_free_entity();
            assert(self.remaining() =~= old(self).remaining().remove(e.id));
            Some(e)
        }
    }
}

} // verus!
