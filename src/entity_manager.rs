//! The component registry and its queries.
//!
//! The component types of a registry form a list built from
//! `ComponentCons<T, Rest>` and `ComponentNil`, for instance
//! `ComponentCons<Position, ComponentCons<Velocity, ComponentNil>>`. Each type
//! has a storage of its own, reached by type: `has_component::<Position, _>`
//! lets the compiler find where `Position` stands in the list.
use vstd::prelude::*;

use core::marker::PhantomData;

use crate::entity::{allocation_step, Entity, EntityAllocator, EntityAllocatorIterator};
use crate::storage::Storage;

verus! {

/// A component type: plain data with a default value, kept in a storage of
/// its own kind.
pub trait Component: Default + Sized {
    type Storage: Storage<Self>;
}

/// The set of component types that a registry manages, one storage per type.
pub trait EntityManagerComponent: Sized {
    spec fn wf(&self) -> bool;

    /// Some storage of the set holds a component for `id`.
    spec fn holds(&self, id: u32) -> bool;

    /// Every storage of `self` agrees with the one of `other` on every
    /// identity but `id`.
    spec fn agrees_off(&self, other: &Self, id: u32) -> bool;

    fn new() -> (r: Self)
        ensures
            r.wf(),
            forall|id: u32| !r.holds(id),
    ;

    /// Removes the components of `entity` from every storage.
    fn free(&mut self, entity: Entity)
        requires
            old(self).wf(),
        ensures
            final(self).wf(),
            !final(self).holds(entity.id),
            final(self).agrees_off(old(self), entity.id),
    ;
}

/// Marks a component type that stands first in a set.
pub struct Here;

/// Marks a component type that stands further on in a set.
pub struct There<I> {
    index: PhantomData<I>,
}

/// Access to the storage of component type `T` within a set; `I` tells where
/// `T` stands in it and is left for the compiler to infer.
pub trait StorageAccess<T: Component, I>: EntityManagerComponent {
    /// The storage of `T`.
    spec fn storage(&self) -> T::Storage;

    /// Every storage of `self` but the one of `T` equals that of `other`.
    spec fn same_except(&self, other: &Self) -> bool;

    proof fn lemma_storage(&self)
        requires
            self.wf(),
        ensures
            self.storage().wf(),
            forall|id: u32| #[trigger]
                self.storage().contents().contains_key(id) ==> self.holds(id),
    ;

    proof fn lemma_same_except_trans(&self, mid: &Self, other: &Self)
        requires
            self.same_except(mid),
            mid.same_except(other),
        ensures
            self.same_except(other),
    ;

    proof fn lemma_agrees_off(&self, other: &Self, id: u32)
        requires
            self.agrees_off(other, id),
        ensures
            self.storage().contents().remove(id) == other.storage().contents().remove(id),
    ;

    fn get(&self) -> (r: &T::Storage)
        ensures
            *r == self.storage(),
    ;

    fn get_mut(&mut self) -> (r: &mut T::Storage)
        ensures
            *r == old(self).storage(),
            final(self).storage() == *final(r),
            final(self).same_except(old(self)),
            old(self).wf() && final(r).wf() ==> final(self).wf(),
    ;
}

/// The empty set of component types.
pub struct ComponentNil;

/// The set of component types made of `T` and those of `Rest`.
pub struct ComponentCons<T: Component, Rest> {
    storage: T::Storage,
    rest: Rest,
}

impl EntityManagerComponent for ComponentNil {
    closed spec fn wf(&self) -> bool {
        true
    }

    closed spec fn holds(&self, id: u32) -> bool {
        false
    }

    closed spec fn agrees_off(&self, other: &Self, id: u32) -> bool {
        true
    }

    fn new() -> (r: Self) {
        ComponentNil
    }

    fn free(&mut self, entity: Entity) {
    }
}

impl<T: Component, Rest: EntityManagerComponent> EntityManagerComponent for ComponentCons<T, Rest> {
    closed spec fn wf(&self) -> bool {
        self.storage.wf() && self.rest.wf()
    }

    closed spec fn holds(&self, id: u32) -> bool {
        self.storage.contents().contains_key(id) || self.rest.holds(id)
    }

    closed spec fn agrees_off(&self, other: &Self, id: u32) -> bool {
        &&& self.storage.contents().remove(id) == other.storage.contents().remove(id)
        &&& self.rest.agrees_off(&other.rest, id)
    }

    fn new() -> (r: Self) {
        ComponentCons { storage: T::Storage::new(), rest: Rest::new() }
    }

    fn free(&mut self, entity: Entity) {
        self.storage.free(entity);
        self.rest.free(entity);
        assert(self.storage.contents().remove(entity.id) =~= old(self).storage.contents().remove(
            entity.id,
        ));
    }
}

impl<T: Component, Rest: EntityManagerComponent> StorageAccess<T, Here> for ComponentCons<T, Rest> {
    closed spec fn storage(&self) -> T::Storage {
        self.storage
    }

    closed spec fn same_except(&self, other: &Self) -> bool {
        self.rest == other.rest
    }

    proof fn lemma_storage(&self) {
    }

    proof fn lemma_same_except_trans(&self, mid: &Self, other: &Self) {
    }

    proof fn lemma_agrees_off(&self, other: &Self, id: u32) {
    }

    fn get(&self) -> (r: &T::Storage) {
        &self.storage
    }

    fn get_mut(&mut self) -> (r: &mut T::Storage) {
        &mut self.storage
    }
}

impl<T: Component, H: Component, I, Rest: StorageAccess<T, I>> StorageAccess<T, There<I>> for ComponentCons<H, Rest> {
    closed spec fn storage(&self) -> T::Storage {
        self.rest.storage()
    }

    closed spec fn same_except(&self, other: &Self) -> bool {
        self.storage == other.storage && self.rest.same_except(&other.rest)
    }

    proof fn lemma_storage(&self) {
        self.rest.lemma_storage();
    }

    proof fn lemma_same_except_trans(&self, mid: &Self, other: &Self) {
        self.rest.lemma_same_except_trans(&mid.rest, &other.rest);
    }

    proof fn lemma_agrees_off(&self, other: &Self, id: u32) {
        self.rest.lemma_agrees_off(&other.rest, id);
    }

    fn get(&self) -> (r: &T::Storage) {
        self.rest.get()
    }

    fn get_mut(&mut self) -> (r: &mut T::Storage) {
        self.rest.get_mut()
    }
}

/// Access to the storages of two different component types at once: `T`'s
/// to change and `U`'s to read. There is no such access for a type paired
/// with itself.
pub trait StoragePair<T: Component, I, U: Component, J>: StorageAccess<T, I> + StorageAccess<
    U,
    J,
> {
    /// Changing only the storage of `T` leaves the storage of `U` as it was.
    proof fn lemma_other_kept(&self, other: &Self)
        requires
            StorageAccess::<T, I>::same_except(self, other),
        ensures
            StorageAccess::<U, J>::storage(self) == StorageAccess::<U, J>::storage(other),
    ;

    fn split_mut(&mut self) -> (pair: (&mut T::Storage, &U::Storage))
        ensures
            *pair.0 == StorageAccess::<T, I>::storage(old(self)),
            *pair.1 == StorageAccess::<U, J>::storage(old(self)),
            StorageAccess::<T, I>::storage(final(self)) == *final(pair.0),
            StorageAccess::<T, I>::same_except(final(self), old(self)),
            old(self).wf() && final(pair.0).wf() ==> final(self).wf(),
    ;
}

impl<T: Component, U: Component, J, Rest: StorageAccess<U, J>> StoragePair<
    T,
    Here,
    U,
    There<J>,
> for ComponentCons<T, Rest> {
    proof fn lemma_other_kept(&self, other: &Self) {
    }

    fn split_mut(&mut self) -> (pair: (&mut T::Storage, &U::Storage)) {
        (&mut self.storage, self.rest.get())
    }
}

impl<T: Component, U: Component, I, Rest: StorageAccess<T, I>> StoragePair<
    T,
    There<I>,
    U,
    Here,
> for ComponentCons<U, Rest> {
    proof fn lemma_other_kept(&self, other: &Self) {
    }

    fn split_mut(&mut self) -> (pair: (&mut T::Storage, &U::Storage)) {
        (self.rest.get_mut(), &self.storage)
    }
}

impl<T: Component, U: Component, H: Component, I, J, Rest: StoragePair<T, I, U, J>> StoragePair<
    T,
    There<I>,
    U,
    There<J>,
> for ComponentCons<H, Rest> {
    proof fn lemma_other_kept(&self, other: &Self) {
        self.rest.lemma_other_kept(&other.rest);
    }

    fn split_mut(&mut self) -> (pair: (&mut T::Storage, &U::Storage)) {
        self.rest.split_mut()
    }
}

/// Entities and their components: one identity allocator and one storage
/// per registered component type.
pub struct EntityManager<C: EntityManagerComponent> {
    components: C,
    allocator: EntityAllocator,
}

impl<C: EntityManagerComponent> EntityManager<C> {
    pub closed spec fn registry(&self) -> C {
        self.components
    }

    pub closed spec fn entities(&self) -> EntityAllocator {
        self.allocator
    }

    pub open spec fn wf(&self) -> bool {
        self.registry().wf() && self.entities().wf()
    }

    /// The components of type `T`, by identity.
    pub open spec fn component_map<T: Component, I>(&self) -> Map<u32, T> where
        C: StorageAccess<T, I>,
     {
        StorageAccess::<T, I>::storage(&self.registry()).contents()
    }

    pub open spec fn has<T: Component, I>(&self, entity: Entity) -> bool where
        C: StorageAccess<T, I>,
     {
        self.component_map::<T, I>().contains_key(entity.id)
    }

    pub fn new() -> (r: Self)
        ensures
            r.wf(),
            r.entities().live_ids().is_empty(),
            forall|id: u32| !r.registry().holds(id),
    {
        EntityManager { components: C::new(), allocator: EntityAllocator::new() }
    }

    pub fn create_entity(&mut self) -> (r: Entity)
        requires
            old(self).wf(),
            old(self).entities().can_alloc(),
        ensures
            final(self).wf(),
            final(self).registry() == old(self).registry(),
            allocation_step(old(self).entities(), final(self).entities(), r.id),
            final(self).entities().free_below_next(),
    {
        self.allocator.allocate()
    }

    /// Releases the identity of `entity` and removes its components from
    /// every storage.
    pub fn delete_entity(&mut self, entity: Entity)
        requires
            old(self).wf(),
        ensures
            final(self).wf(),
            !final(self).registry().holds(entity.id),
            final(self).registry().agrees_off(&old(self).registry(), entity.id),
            final(self).entities().next_id() == old(self).entities().next_id(),
            entity.id < old(self).entities().next_id() ==> final(self).entities().free_ids()
                == old(self).entities().free_ids().insert(entity.id),
            final(self).entities().live_ids() == old(self).entities().live_ids().remove(entity.id),
            final(self).entities().free_below_next(),
    {
        self.allocator.free(entity);
        self.components.free(entity);
    }

    pub fn add_component<T: Component, I>(&mut self, entity: Entity) where
        C: StorageAccess<T, I>,

        requires
            old(self).wf(),
        ensures
            final(self).wf(),
            final(self).entities() == old(self).entities(),
            final(self).registry().same_except(&old(self).registry()),
            final(self).has::<T, I>(entity),
            old(self).has::<T, I>(entity) ==> final(self).component_map::<T, I>()
                == old(self).component_map::<T, I>(),
            !old(self).has::<T, I>(entity) ==> {
                &&& final(self).component_map::<T, I>() == old(
                    self,
                ).component_map::<T, I>().insert(
                    entity.id,
                    final(self).component_map::<T, I>()[entity.id],
                )
                &&& call_ensures(T::default, (), final(self).component_map::<T, I>()[entity.id])
            },
    {
        proof {
            self.components.lemma_storage();
        }
        let storage = self.get_storage_mut::<T, I>();
        storage.allocate(entity);
    }

    /// Attaches a default `T` to `entity`, then hands it to `f` to fill in.
    pub fn add_component_with<T: Component, I, F: FnOnce(&mut T)>(&mut self, entity: Entity, f: F) where
        C: StorageAccess<T, I>,

        requires
            old(self).wf(),
            forall|v: &mut T| f.requires((v,)),
        ensures
            final(self).wf(),
            final(self).entities() == old(self).entities(),
            final(self).registry().same_except(&old(self).registry()),
            final(self).has::<T, I>(entity),
            exists|v: &mut T|
                {
                    &&& (old(self).has::<T, I>(entity) ==> *v == old(
                        self,
                    ).component_map::<T, I>()[entity.id])
                    &&& (!old(self).has::<T, I>(entity) ==> call_ensures(T::default, (), *v))
                    &&& f.ensures((v,), ())
                    &&& final(self).component_map::<T, I>() == old(
                        self,
                    ).component_map::<T, I>().insert(entity.id, *final(v))
                },
    {
        self.add_component::<T, I>(entity);
        let ghost mid = *self;
        self.update_component_with::<T, I, F>(entity, f);
        proof {
            StorageAccess::<T, I>::lemma_same_except_trans(
                &self.registry(),
                &mid.registry(),
                &old(self).registry(),
            );
            let v = choose|v: &mut T|
                {
                    &&& *v == mid.component_map::<T, I>()[entity.id]
                    &&& f.ensures((v,), ())
                    &&& self.component_map::<T, I>() == mid.component_map::<T, I>().insert(
                        entity.id,
                        *final(v),
                    )
                };
            assert(self.component_map::<T, I>() =~= old(self).component_map::<T, I>().insert(
                entity.id,
                *final(v),
            ));
        }
    }

    /// Detaches the `T` of `entity`, if it has one.
    pub fn remove_component<T: Component, I>(&mut self, entity: Entity) where
        C: StorageAccess<T, I>,

        requires
            old(self).wf(),
        ensures
            final(self).wf(),
            final(self).entities() == old(self).entities(),
            final(self).registry().same_except(&old(self).registry()),
            final(self).component_map::<T, I>() == old(self).component_map::<T, I>().remove(
                entity.id,
            ),
    {
        proof {
            self.components.lemma_storage();
        }
        let storage = self.get_storage_mut::<T, I>();
        storage.free(entity);
    }

    pub fn has_component<T: Component, I>(&self, entity: Entity) -> (r: bool) where
        C: StorageAccess<T, I>,

        requires
            self.wf(),
        ensures
            r == self.has::<T, I>(entity),
    {
        proof {
            self.components.lemma_storage();
        }
        self.get_storage::<T, I>().has(entity)
    }

    /// The `T` of `entity`, which must have one.
    pub fn get_component<T: Component, I>(&self, entity: Entity) -> (r: &T) where
        C: StorageAccess<T, I>,

        requires
            self.wf(),
            self.has::<T, I>(entity),
        ensures
            *r == self.component_map::<T, I>()[entity.id],
    {
        proof {
            self.components.lemma_storage();
        }
        self.get_storage::<T, I>().get(entity)
    }

    /// The `T` of `entity`, which must have one, to be changed in place.
    pub fn get_component_mut<T: Component, I>(&mut self, entity: Entity) -> (r: &mut T) where
        C: StorageAccess<T, I>,

        requires
            old(self).wf(),
            old(self).has::<T, I>(entity),
        ensures
            *r == old(self).component_map::<T, I>()[entity.id],
            final(self).wf(),
            final(self).entities() == old(self).entities(),
            final(self).registry().same_except(&old(self).registry()),
            final(self).component_map::<T, I>() == old(self).component_map::<T, I>().insert(
                entity.id,
                *final(r),
            ),
    {
        proof {
            self.components.lemma_storage();
        }
        let storage = self.get_storage_mut::<T, I>();
        storage.get_mut(entity)
    }

    /// Hands the `T` of `entity`, which must have one, to `f` to change.
    pub fn update_component_with<T: Component, I, F: FnOnce(&mut T)>(&mut self, entity: Entity, f: F) where
        C: StorageAccess<T, I>,

        requires
            old(self).wf(),
            old(self).has::<T, I>(entity),
            forall|v: &mut T| f.requires((v,)),
        ensures
            final(self).wf(),
            final(self).entities() == old(self).entities(),
            final(self).registry().same_except(&old(self).registry()),
            exists|v: &mut T|
                {
                    &&& *v == old(self).component_map::<T, I>()[entity.id]
                    &&& f.ensures((v,), ())
                    &&& final(self).component_map::<T, I>() == old(
                        self,
                    ).component_map::<T, I>().insert(entity.id, *final(v))
                },
    {
        let v = self.get_component_mut::<T, I>(entity);
        f(v);
    }

    /// Walks the live entities that `query` accepts, in ascending order.
    pub fn iter<'a, F: Filter<C>>(&'a self, query: &'a Query<C, F>) -> (r: EntityIterator<'a, C, F>)
        requires
            self.wf(),
            query.wf(),
        ensures
            r.wf(),
            r.manager() == *self,
            r.query() == *query,
            r.remaining() == self.entities().live_ids(),
    {
        EntityIterator::new(query, self)
    }

    /// Walks all live entities, in ascending order.
    pub fn iter_all(&self) -> (r: EntityAllocatorIterator<'_>)
        requires
            self.wf(),
        ensures
            r.wf(),
            r.source() == self.entities(),
            r.remaining() == self.entities().live_ids(),
    {
        self.allocator.iter()
    }

    pub fn get_storage<T: Component, I>(&self) -> (r: &T::Storage) where
        C: StorageAccess<T, I>,

        ensures
            *r == StorageAccess::<T, I>::storage(&self.registry()),
    {
        self.components.get()
    }

    /// The storage of `T` to change and the storage of `U` to read, at once.
    pub fn get_storages_mut<T: Component, I, U: Component, J>(&mut self) -> (pair: (
        &mut T::Storage,
        &U::Storage,
    )) where C: StoragePair<T, I, U, J>
        ensures
            *pair.0 == StorageAccess::<T, I>::storage(&old(self).registry()),
            *pair.1 == StorageAccess::<U, J>::storage(&old(self).registry()),
            StorageAccess::<T, I>::storage(&final(self).registry()) == *final(pair.0),
            StorageAccess::<T, I>::same_except(&final(self).registry(), &old(self).registry()),
            final(self).entities() == old(self).entities(),
            old(self).registry().wf() && final(pair.0).wf() ==> final(self).registry().wf(),
    {
        self.components.split_mut()
    }

    /// Hands the `T` of `entity` to `f` to change, along with its `U` to read:
    /// for instance a position moved by a velocity.
    pub fn update_component_using<T: Component, I, U: Component, J, F: FnOnce(&mut T, &U)>(
        &mut self,
        entity: Entity,
        f: F,
    ) where C: StoragePair<T, I, U, J>
        requires
            old(self).wf(),
            old(self).has::<T, I>(entity),
            old(self).has::<U, J>(entity),
            forall|v: &mut T, w: &U| f.requires((v, w)),
        ensures
            final(self).wf(),
            final(self).entities() == old(self).entities(),
            StorageAccess::<T, I>::same_except(&final(self).registry(), &old(self).registry()),
            exists|v: &mut T|
                {
                    &&& *v == old(self).component_map::<T, I>()[entity.id]
                    &&& f.ensures((v, &old(self).component_map::<U, J>()[entity.id]), ())
                    &&& final(self).component_map::<T, I>() == old(
                        self,
                    ).component_map::<T, I>().insert(entity.id, *final(v))
                },
    {
        proof {
            StorageAccess::<T, I>::lemma_storage(&self.components);
            StorageAccess::<U, J>::lemma_storage(&self.components);
        }
        let (changed, read) = self.get_storages_mut::<T, I, U, J>();
        let w = read.get(entity);
        let v = changed.get_mut(entity);
        f(v, w);
    }

    pub fn get_storage_mut<T: Component, I>(&mut self) -> (r: &mut T::Storage) where
        C: StorageAccess<T, I>,

        ensures
            *r == StorageAccess::<T, I>::storage(&old(self).registry()),
            StorageAccess::<T, I>::storage(&final(self).registry()) == *final(r),
            final(self).registry().same_except(&old(self).registry()),
            final(self).entities() == old(self).entities(),
            old(self).registry().wf() && final(r).wf() ==> final(self).registry().wf(),
    {
        self.components.get_mut()
    }
}

impl<C: EntityManagerComponent> Default for EntityManager<C> {
    fn default() -> (r: EntityManager<C>)
        ensures
            r.wf(),
            r.entities().live_ids().is_empty(),
            forall|id: u32| !r.registry().holds(id),
    {
        EntityManager::new()
    }
}

/// An operation on the components of type `T` alone leaves the components
/// of every other type `U` as they were.
pub proof fn lemma_other_components_kept<
    C: EntityManagerComponent,
    T: Component,
    I,
    U: Component,
    J,
>(before: EntityManager<C>, after: EntityManager<C>) where C: StoragePair<T, I, U, J>
    requires
        StorageAccess::<T, I>::same_except(&after.registry(), &before.registry()),
    ensures
        after.component_map::<U, J>() == before.component_map::<U, J>(),
{
    after.registry().lemma_other_kept(&before.registry());
}

/// Once an entity is deleted, no storage of the registry holds a component
/// for it, whatever the component type.
pub proof fn lemma_deleted_entity_has_no_component<C: EntityManagerComponent, T: Component, I>(
    em: EntityManager<C>,
    entity: Entity,
) where C: StorageAccess<T, I>
    requires
        em.wf(),
        !em.registry().holds(entity.id),
    ensures
        !em.has::<T, I>(entity),
{
    em.registry().lemma_storage();
}

/// Deleting an entity leaves the components of every other entity as they
/// were, whatever the component type.
pub proof fn lemma_delete_keeps_others<C: EntityManagerComponent, T: Component, I>(
    before: EntityManager<C>,
    after: EntityManager<C>,
    entity: Entity,
) where C: StorageAccess<T, I>
    requires
        after.registry().agrees_off(&before.registry(), entity.id),
    ensures
        after.component_map::<T, I>().remove(entity.id) == before.component_map::<T, I>().remove(
            entity.id,
        ),
{
    after.registry().lemma_agrees_off(&before.registry(), entity.id);
}

/// A test that a query applies to an entity of a registry.
pub trait Filter<C: EntityManagerComponent>: Sized {
    /// The test can run on any well-formed registry.
    spec fn ready(&self) -> bool;

    /// `r` is a result that the test may give for `entity` in `em`.
    spec fn admits(&self, em: &EntityManager<C>, entity: Entity, r: bool) -> bool;

    fn check(&self, em: &EntityManager<C>, entity: Entity) -> (r: bool)
        requires
            em.wf(),
            self.ready(),
        ensures
            self.admits(em, entity, r),
    ;
}

/// Accepts every entity.
pub struct AnyEntity;

impl<C: EntityManagerComponent> Filter<C> for AnyEntity {
    open spec fn ready(&self) -> bool {
        true
    }

    open spec fn admits(&self, em: &EntityManager<C>, entity: Entity, r: bool) -> bool {
        r
    }

    fn check(&self, em: &EntityManager<C>, entity: Entity) -> (r: bool) {
        true
    }
}

/// Accepts what both tests accept; the second runs only if the first accepts.
pub struct Both<A, B> {
    pub first: A,
    pub second: B,
}

impl<C: EntityManagerComponent, A: Filter<C>, B: Filter<C>> Filter<C> for Both<A, B> {
    open spec fn ready(&self) -> bool {
        self.first.ready() && self.second.ready()
    }

    open spec fn admits(&self, em: &EntityManager<C>, entity: Entity, r: bool) -> bool {
        if r {
            self.first.admits(em, entity, true) && self.second.admits(em, entity, true)
        } else {
            self.first.admits(em, entity, false) || self.second.admits(em, entity, false)
        }
    }

    fn check(&self, em: &EntityManager<C>, entity: Entity) -> (r: bool) {
        self.first.check(em, entity) && self.second.check(em, entity)
    }
}

/// Accepts the entities that have a `T`.
pub struct HasComponent<T, I> {
    pub marker: PhantomData<(T, I)>,
}

impl<C: EntityManagerComponent, T: Component, I> Filter<C> for HasComponent<T, I> where
    C: StorageAccess<T, I>,
 {
    open spec fn ready(&self) -> bool {
        true
    }

    open spec fn admits(&self, em: &EntityManager<C>, entity: Entity, r: bool) -> bool {
        r == em.has::<T, I>(entity)
    }

    fn check(&self, em: &EntityManager<C>, entity: Entity) -> (r: bool) {
        em.has_component::<T, I>(entity)
    }
}

/// Accepts the entities that have no `T`.
pub struct LacksComponent<T, I> {
    pub marker: PhantomData<(T, I)>,
}

impl<C: EntityManagerComponent, T: Component, I> Filter<C> for LacksComponent<T, I> where
    C: StorageAccess<T, I>,
 {
    open spec fn ready(&self) -> bool {
        true
    }

    open spec fn admits(&self, em: &EntityManager<C>, entity: Entity, r: bool) -> bool {
        r == !em.has::<T, I>(entity)
    }

    fn check(&self, em: &EntityManager<C>, entity: Entity) -> (r: bool) {
        !em.has_component::<T, I>(entity)
    }
}

/// Accepts the entities that have a `T` on which `test` answers true; an
/// entity without a `T` is refused without running `test`.
pub struct ComponentMatches<T, I, F> {
    pub test: F,
    pub marker: PhantomData<(T, I)>,
}

impl<C: EntityManagerComponent, T: Component, I, F: Fn(&T) -> bool> Filter<C> for ComponentMatches<
    T,
    I,
    F,
> where C: StorageAccess<T, I> {
    open spec fn ready(&self) -> bool {
        forall|v: &T| self.test.requires((v,))
    }

    open spec fn admits(&self, em: &EntityManager<C>, entity: Entity, r: bool) -> bool {
        if em.has::<T, I>(entity) {
            self.test.ensures((&em.component_map::<T, I>()[entity.id],), r)
        } else {
            !r
        }
    }

    fn check(&self, em: &EntityManager<C>, entity: Entity) -> (r: bool) {
        if em.has_component::<T, I>(entity) {
            let v = em.get_component::<T, I>(entity);
            (self.test)(v)
        } else {
            false
        }
    }
}

/// Accepts the entities on which `test`, given the whole registry, answers
/// true.
pub struct EntityMatches<F> {
    pub test: F,
}

impl<C: EntityManagerComponent, F: Fn(&EntityManager<C>, Entity) -> bool> Filter<C> for EntityMatches<
    F,
> {
    open spec fn ready(&self) -> bool {
        forall|em: &EntityManager<C>, entity: Entity| em.wf() ==> self.test.requires((em, entity))
    }

    open spec fn admits(&self, em: &EntityManager<C>, entity: Entity, r: bool) -> bool {
        self.test.ensures((em, entity), r)
    }

    fn check(&self, em: &EntityManager<C>, entity: Entity) -> (r: bool) {
        (self.test)(em, entity)
    }
}

/// An ordered chain of tests that selects entities of a registry. Each
/// `check_*` step appends one test; an empty chain accepts every entity.
pub struct Query<C, F> {
    filter: F,
    registry: PhantomData<C>,
}

impl<C: EntityManagerComponent> Query<C, AnyEntity> {
    pub fn new() -> (r: Self)
        ensures
            r.wf(),
            forall|em: &EntityManager<C>, entity: Entity, x: bool| r.admits(em, entity, x) == x,
    {
        Query { filter: AnyEntity, registry: PhantomData }
    }
}

impl<C: EntityManagerComponent> Default for Query<C, AnyEntity> {
    fn default() -> (r: Query<C, AnyEntity>)
        ensures
            r.wf(),
            forall|em: &EntityManager<C>, entity: Entity, x: bool| r.admits(em, entity, x) == x,
    {
        Query::new()
    }
}

impl<C: EntityManagerComponent, F: Filter<C>> Query<C, F> {
    pub closed spec fn filter(&self) -> F {
        self.filter
    }

    pub open spec fn wf(&self) -> bool {
        self.filter().ready()
    }

    /// `r` is a result that the query may give for `entity` in `em`.
    pub open spec fn admits(&self, em: &EntityManager<C>, entity: Entity, r: bool) -> bool {
        self.filter().admits(em, entity, r)
    }

    /// Runs the tests in order and stops at the first that refuses.
    pub fn check(&self, em: &EntityManager<C>, entity: Entity) -> (r: bool)
        requires
            em.wf(),
            self.wf(),
        ensures
            self.admits(em, entity, r),
    {
        self.filter.check(em, entity)
    }

    /// Appends a test: the entity has a `T`.
    pub fn check_component<T: Component, I>(self) -> (r: Query<C, Both<F, HasComponent<T, I>>>) where
        C: StorageAccess<T, I>,

        ensures
            r.wf() == self.wf(),
            forall|em: &EntityManager<C>, entity: Entity|
                r.admits(em, entity, true) == (self.admits(em, entity, true) && em.has::<T, I>(
                    entity,
                )),
            forall|em: &EntityManager<C>, entity: Entity|
                r.admits(em, entity, false) == (self.admits(em, entity, false) || !em.has::<T, I>(
                    entity,
                )),
    {
        Query {
            filter: Both { first: self.filter, second: HasComponent { marker: PhantomData } },
            registry: PhantomData,
        }
    }

    /// Appends a test: the entity has no `T`.
    pub fn check_not_component<T: Component, I>(self) -> (r: Query<C, Both<F, LacksComponent<T, I>>>) where
        C: StorageAccess<T, I>,

        ensures
            r.wf() == self.wf(),
            forall|em: &EntityManager<C>, entity: Entity|
                r.admits(em, entity, true) == (self.admits(em, entity, true) && !em.has::<T, I>(
                    entity,
                )),
            forall|em: &EntityManager<C>, entity: Entity|
                r.admits(em, entity, false) == (self.admits(em, entity, false) || em.has::<T, I>(
                    entity,
                )),
    {
        Query {
            filter: Both { first: self.filter, second: LacksComponent { marker: PhantomData } },
            registry: PhantomData,
        }
    }

    /// Appends a test: the entity has a `T` on which `f` answers true.
    pub fn check_component_by<T: Component, I, G: Fn(&T) -> bool>(self, f: G) -> (r: Query<
        C,
        Both<F, ComponentMatches<T, I, G>>,
    >) where C: StorageAccess<T, I>
        ensures
            r.wf() == (self.wf() && forall|v: &T| f.requires((v,))),
            forall|em: &EntityManager<C>, entity: Entity, x: bool|
                #![trigger r.admits(em, entity, x)]
                em.has::<T, I>(entity) ==> (r.admits(em, entity, x) == if x {
                    self.admits(em, entity, true) && f.ensures(
                        (&em.component_map::<T, I>()[entity.id],),
                        true,
                    )
                } else {
                    self.admits(em, entity, false) || f.ensures(
                        (&em.component_map::<T, I>()[entity.id],),
                        false,
                    )
                }),
            forall|em: &EntityManager<C>, entity: Entity, x: bool|
                #![trigger r.admits(em, entity, x)]
                !em.has::<T, I>(entity) ==> (r.admits(em, entity, x) == if x {
                    false
                } else {
                    true
                }),
    {
        let r = Query {
            filter: Both {
                first: self.filter,
                second: ComponentMatches { test: f, marker: PhantomData },
            },
            registry: PhantomData,
        };
        assert(r.filter().second.test == f);
        assert(Filter::<C>::ready(&r.filter().second) == forall|v: &T| f.requires((v,)));
        assert(r.filter().ready() == (self.wf() && Filter::<C>::ready(&r.filter().second)));
        r
    }

    /// Appends a test: `f`, given the registry and the entity, answers true.
    pub fn check_global<G: Fn(&EntityManager<C>, Entity) -> bool>(self, f: G) -> (r: Query<
        C,
        Both<F, EntityMatches<G>>,
    >)
        ensures
            r.wf() == (self.wf() && forall|em: &EntityManager<C>, entity: Entity|
                em.wf() ==> f.requires((em, entity))),
            forall|em: &EntityManager<C>, entity: Entity|
                r.admits(em, entity, true) == (self.admits(em, entity, true) && f.ensures(
                    (em, entity),
                    true,
                )),
            forall|em: &EntityManager<C>, entity: Entity|
                r.admits(em, entity, false) == (self.admits(em, entity, false) || f.ensures(
                    (em, entity),
                    false,
                )),
    {
        let r = Query {
            filter: Both { first: self.filter, second: EntityMatches { test: f } },
            registry: PhantomData,
        };
        assert(r.filter().second.test == f);
        assert(Filter::<C>::ready(&r.filter().second) == forall|em: &EntityManager<C>, entity: Entity|
            em.wf() ==> f.requires((em, entity)));
        r
    }
}

/// Walks the live entities of a registry that a query accepts, in ascending
/// order.
pub struct EntityIterator<'a, C: EntityManagerComponent, F> {
    query: &'a Query<C, F>,
    entity_manager: &'a EntityManager<C>,
    all_it: EntityAllocatorIterator<'a>,
}

impl<'a, C: EntityManagerComponent, F: Filter<C>> EntityIterator<'a, C, F> {
    pub closed spec fn manager(&self) -> EntityManager<C> {
        *self.entity_manager
    }

    pub closed spec fn query(&self) -> Query<C, F> {
        *self.query
    }

    /// Live entities not yet tested.
    pub closed spec fn remaining(&self) -> Set<u32> {
        self.all_it.remaining()
    }

    pub closed spec fn remaining_count(&self) -> nat {
        self.all_it.remaining_count()
    }

    pub closed spec fn wf(&self) -> bool {
        &&& self.entity_manager.wf()
        &&& self.query.wf()
        &&& self.all_it.wf()
        &&& self.all_it.source() == self.entity_manager.entities()
    }

    pub fn new(query: &'a Query<C, F>, entity_manager: &'a EntityManager<C>) -> (r: Self)
        requires
            entity_manager.wf(),
            query.wf(),
        ensures
            r.wf(),
            r.manager() == *entity_manager,
            r.query() == *query,
            r.remaining() == entity_manager.entities().live_ids(),
    {
        EntityIterator { query, entity_manager, all_it: entity_manager.iter_all() }
    }

    /// The next live entity that the query accepts, if any. The entities
    /// passed over on the way were refused.
    pub fn next(&mut self) -> (r: Option<Entity>)
        requires
            old(self).wf(),
        ensures
            final(self).wf(),
            final(self).manager() == old(self).manager(),
            final(self).query() == old(self).query(),
            final(self).remaining_count() <= old(self).remaining_count(),
            match r {
                None => {
                    &&& final(self).remaining().is_empty()
                    &&& forall|k: u32| #[trigger]
                        old(self).remaining().contains(k) ==> old(self).query().admits(
                            &old(self).manager(),
                            Entity { id: k },
                            false,
                        )
                },
                Some(e) => {
                    &&& old(self).remaining().contains(e.id)
                    &&& old(self).query().admits(&old(self).manager(), e, true)
                    &&& forall|k: u32| #[trigger]
                        old(self).remaining().contains(k) && k < e.id ==> old(
                            self,
                        ).query().admits(&old(self).manager(), Entity { id: k }, false)
                    &&& final(self).remaining() == Set::new(
                        |k: u32| old(self).remaining().contains(k) && e.id < k,
                    )
                    &&& final(self).remaining_count() < old(self).remaining_count()
                },
            },
    {
        loop
            invariant
                self.wf(),
                self.entity_manager == old(self).entity_manager,
                self.query == old(self).query,
                self.remaining_count() <= old(self).remaining_count(),
                forall|k: u32| #[trigger]
                    self.remaining().contains(k) ==> old(self).remaining().contains(k),
                forall|k: u32| #[trigger]
                    old(self).remaining().contains(k) ==> self.remaining().contains(k) || (
                    old(self).query().admits(&old(self).manager(), Entity { id: k }, false)
                        && forall|j: u32| #[trigger] self.remaining().contains(j) ==> k < j),
            decreases self.all_it.remaining_count(),
        {
            let ghost prev = self.remaining();
            match self.all_it.next() {
                None => {
                    assert forall|k: u32| #[trigger] old(self).remaining().contains(k) implies old(
                        self,
                    ).query().admits(&old(self).manager(), Entity { id: k }, false) by {
                        assert(!prev.contains(k));
                    }
                    return None;
                },
                Some(e) => {
                    let accepted = self.query.check(self.entity_manager, e);
                    assert(Entity { id: e.id } == e);
                    if accepted {
                        assert(self.remaining() =~= Set::new(
                            |k: u32| old(self).remaining().contains(k) && e.id < k,
                        ));
                        assert forall|k: u32| #[trigger]
                            old(self).remaining().contains(k) && k < e.id implies old(
                            self,
                        ).query().admits(&old(self).manager(), Entity { id: k }, false) by {
                            assert(!prev.contains(k));
                        }
                        return Some(e);
                    }
                    assert forall|k: u32| #[trigger]
                        old(self).remaining().contains(k) implies self.remaining().contains(k) || (
                        old(self).query().admits(&old(self).manager(), Entity { id: k }, false)
                            && forall|j: u32| #[trigger] self.remaining().contains(j) ==> k < j) by {
                        if !self.remaining().contains(k) {
                            if k != e.id {
                                assert(!prev.contains(k));
                            }
                            assert forall|j: u32| #[trigger] self.remaining().contains(j) implies k < j by {
                                assert(prev.contains(j));
                            }
                        }
                    }
                },
            }
        }
    }
}

} // verus!
