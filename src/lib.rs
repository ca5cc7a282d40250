//! Runtime for simulations built from entities, typed component storages,
//! queries, a deferred event bus and a system scheduler.
pub mod entity;
pub mod entity_manager;
pub mod event_dispatcher;
pub mod storage;
pub mod system_manager;

pub use entity::{Entity, EntityAllocator, EntityAllocatorIterator};
pub use entity_manager::{
    AnyEntity, Both, Component, ComponentCons, ComponentMatches, ComponentNil, EntityIterator,
    EntityManager, EntityManagerComponent, EntityMatches, Filter, HasComponent, Here,
    LacksComponent, Query, StorageAccess, StoragePair, There,
};
pub use event_dispatcher::{
    AccessEventAdapter, Adapter, Connection, Dispatcher, EventDispatcher, EventHandler,
    HandlerKey, HandlerTable, Outbox, Request,
};
pub use storage::{BasicVecStorage, Storage};
pub use system_manager::{RefreshPeriod, System, SystemManager};
