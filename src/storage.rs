//! Component storages: per-type containers indexed by entity identity.

use vstd::prelude::*;

use crate::entity::Entity;

verus! {

/// A container that maps entity identities to components of one type.
///
/// A slot is either allocated, holding a value, or absent.
pub trait Storage<T: Default>: Sized {
    spec fn wf(&self) -> bool;

    /// The allocated slots and the values they hold.
    spec fn contents(&self) -> Map<u32, T>;

    /// A storage with no slot allocated.
    fn new() -> (r: Self)
        ensures
            r.wf(),
            r.contents().is_empty(),
    ;

    /// Allocates the slot of `entity`. A new slot holds the type's default
    /// value; an allocated slot keeps its value.
    fn allocate(&mut self, entity: Entity)
        requires
            old(self).wf(),
        ensures
            final(self).wf(),
            allocated(old(self).contents(), final(self).contents(), entity.id),
    ;

    /// Releases the slot of `entity`, if it is allocated.
    fn free(&mut self, entity: Entity)
        requires
            old(self).wf(),
        ensures
            final(self).wf(),
            final(self).contents() == old(self).contents().remove(entity.id),
    ;

    /// The value in the slot of `entity`, which must be allocated.
    fn get(&self, entity: Entity) -> (r: &T)
        requires
            self.wf(),
            self.contents().contains_key(entity.id),
        ensures
            *r == self.contents()[entity.id],
    ;

    /// The value in the slot of `entity`, to be changed in place.
    fn get_mut(&mut self, entity: Entity) -> (r: &mut T)
        requires
            old(self).wf(),
            old(self).contents().contains_key(entity.id),
        ensures
            *r == old(self).contents()[entity.id],
            final(self).wf(),
            final(self).contents() == old(self).contents().insert(entity.id, *final(r)),
    ;

    /// Whether the slot of `entity` is allocated.
    fn has(&self, entity: Entity) -> (r: bool)
        requires
            self.wf(),
        ensures
            r == self.contents().contains_key(entity.id),
    ;
}

/// `after` is `before` with the slot of `id` allocated: a new slot holds a
/// default value, an allocated one keeps its value.
pub open spec fn allocated<T: Default>(before: Map<u32, T>, after: Map<u32, T>, id: u32) -> bool {
    &&& after.contains_key(id)
    &&& before.contains_key(id) ==> after == before
    &&& !before.contains_key(id) ==> {
        &&& after == before.insert(id, after[id])
        &&& call_ensures(T::default, (), after[id])
    }
}

/// A slot allocated, written, freed and allocated again: reading after the
/// first allocation gives a default value, reading after the write gives the
/// value written, the freed slot is absent, and the second allocation gives a
/// default value again, not the one written.
pub proof fn lemma_storage_round_trip<T: Default>(
    empty: Map<u32, T>,
    fresh: Map<u32, T>,
    written: Map<u32, T>,
    freed: Map<u32, T>,
    again: Map<u32, T>,
    id: u32,
    value: T,
)
    requires
        !empty.contains_key(id),
        allocated(empty, fresh, id),
        written == fresh.insert(id, value),
        freed == written.remove(id),
        allocated(freed, again, id),
    ensures
        call_ensures(T::default, (), fresh[id]),
        written.contains_key(id) && written[id] == value,
        !freed.contains_key(id),
        call_ensures(T::default, (), again[id]),
{
}

/// A storage backed by two vectors indexed by identity: values and
/// allocation flags. A slot that is not allocated holds a default value.
pub struct BasicVecStorage<T> {
    datas: Vec<T>,
    alloc_flags: Vec<bool>,
}

impl<T: Default> Storage<T> for BasicVecStorage<T> {
    closed spec fn wf(&self) -> bool {
        &&& self.datas@.len() == self.alloc_flags@.len()
        &&& forall|i: int|
            0 <= i < self.datas@.len() && !self.alloc_flags@[i] ==> call_ensures(
                T::default,
                (),
                #[trigger] self.datas@[i],
            )
    }

    closed spec fn contents(&self) -> Map<u32, T> {
        Map::new(
            |k: u32| (k as int) < self.alloc_flags@.len() && self.alloc_flags@[k as int],
            |k: u32| self.datas@[k as int],
        )
    }

    fn new() -> (r: Self) {
        let r = BasicVecStorage { datas: Vec::new(), alloc_flags: Vec::new() };
        assert(r.contents() =~= Map::<u32, T>::empty());
        r
    }

    fn allocate(&mut self, entity: Entity) {
        let pos = entity.id as usize;
        while self.datas.len() <= pos
            invariant
                self.wf(),
                self.contents() == old(self).contents(),
                self.datas@.len() >= old(self).datas@.len(),
                forall|i: int|
                    0 <= i < old(self).datas@.len() ==> self.datas@[i] == old(self).datas@[i],
            decreases pos + 1 - self.datas@.len(),
        {
            let v = T::default();
            self.datas.push(v);
            self.alloc_flags.push(false);
            assert(self.contents() =~= old(self).contents());
        }
        let ghost prior = self.contents();
        self.alloc_flags.set(pos, true);
        assert(self.contents() =~= prior.insert(entity.id, self.datas@[pos as int]));
        assert(old(self).contents().contains_key(entity.id) ==> self.contents() =~= old(
            self,
        ).contents());
    }

    fn free(&mut self, entity: Entity) {
        let pos = entity.id as usize;
        if pos < self.datas.len() && self.alloc_flags[pos] {
            self.datas.set(pos, T::default());
            self.alloc_flags.set(pos, false);
        }
        assert(self.contents() =~= old(self).contents().remove(entity.id));
    }

    fn get(&self, entity: Entity) -> (r: &T) {
        &self.datas[entity.id as usize]
    }

    fn get_mut(&mut self, entity: Entity) -> (r: &mut T) {
        let pos = entity.id as usize;
        &mut self.datas[pos]
    }

    fn has(&self, entity: Entity) -> (r: bool) {
        let pos = entity.id as usize;
        pos < self.datas.len() && self.alloc_flags[pos]
    }
}

impl<T: Default> Default for BasicVecStorage<T> {
    fn default() -> (r: BasicVecStorage<T>)
        ensures
            r.wf(),
            r.contents().is_empty(),
    {
        <BasicVecStorage<T> as Storage<T>>::new()
    }
}

} // verus!
