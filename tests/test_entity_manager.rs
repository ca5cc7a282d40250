use entity_system::{
    BasicVecStorage, Component, ComponentCons, ComponentNil, EntityManager, Query, Storage,
};

#[derive(Default)]
struct Position {
    x: u32,
    y: u32,
}

impl Component for Position {
    type Storage = BasicVecStorage<Position>;
}

#[derive(Default)]
struct Velocity {
    x: i32,
    y: i32,
}

impl Component for Velocity {
    type Storage = BasicVecStorage<Velocity>;
}

type Emc = ComponentCons<Position, ComponentCons<Velocity, ComponentNil>>;
type MyEntityManager = EntityManager<Emc>;

#[test]
fn test_entity_manager_01() {
    let mut entity_manager = MyEntityManager::new();
    let e = entity_manager.create_entity();
    assert!(!entity_manager.has_component::<Position, _>(e));
    assert!(!entity_manager.has_component::<Velocity, _>(e));
    entity_manager.add_component::<Position, _>(e);
    assert!(entity_manager.has_component::<Position, _>(e));
    assert!(!entity_manager.has_component::<Velocity, _>(e));

    entity_manager.update_component_with::<Position, _, _>(e, |position| {
        position.x = 5;
        position.y = 6;
    });

    {
        let position = entity_manager.get_component::<Position, _>(e);
        assert_eq!(position.x, 5);
        assert_eq!(position.y, 6);
    }

    entity_manager.remove_component::<Position, _>(e);
    entity_manager.add_component::<Velocity, _>(e);
    assert!(!entity_manager.has_component::<Position, _>(e));
    assert!(entity_manager.has_component::<Velocity, _>(e));

    entity_manager.update_component_with::<Velocity, _, _>(e, |velocity| {
        velocity.x = 5;
        velocity.y = 6;
    });

    {
        let velocity = entity_manager.get_component::<Velocity, _>(e);
        assert_eq!(velocity.x, 5);
        assert_eq!(velocity.y, 6);
    }

    entity_manager.delete_entity(e);
    assert!(!entity_manager.has_component::<Position, _>(e));
    assert!(!entity_manager.has_component::<Velocity, _>(e));
}

#[test]
fn test_entity_manager_02() {
    let mut entity_manager = MyEntityManager::new();
    let e1 = entity_manager.create_entity();
    entity_manager.add_component::<Position, _>(e1);
    let e2 = entity_manager.create_entity();
    entity_manager.add_component::<Position, _>(e2);
    entity_manager.add_component::<Velocity, _>(e2);

    {
        let mut r = Vec::new();
        let mut it = entity_manager.iter_all();
        while let Some(entity) = it.next() {
            if !r.contains(&entity) && (entity == e1 || entity == e2) {
                r.push(entity);
            }
        }
        assert_eq!(r.len(), 2);
    }

    {
        let query = Query::new().check_component::<Position, _>();
        let mut r = Vec::new();
        let mut it = entity_manager.iter(&query);
        while let Some(entity) = it.next() {
            if !r.contains(&entity) && (entity == e1 || entity == e2) {
                r.push(entity);
            }
        }
        assert_eq!(r.len(), 2);
    }

    {
        let query = Query::new()
            .check_component::<Position, _>()
            .check_component::<Velocity, _>();
        let mut r = Vec::new();
        let mut it = entity_manager.iter(&query);
        while let Some(entity) = it.next() {
            if !r.contains(&entity) && (entity == e2) {
                r.push(entity);
            }
        }
        assert_eq!(r.len(), 1);
    }

    {
        entity_manager.update_component_with::<Position, _, _>(e1, |position| {
            position.x = 5;
        });

        let query =
            Query::new().check_component_by::<Position, _, _>(|position| -> bool { position.x > 2 });
        let mut r = Vec::new();
        let mut it = entity_manager.iter(&query);
        while let Some(entity) = it.next() {
            if !r.contains(&entity) && (entity == e1) {
                r.push(entity);
            }
        }
        assert_eq!(r.len(), 1);
    }

    {
        let query = Query::new().check_not_component::<Velocity, _>();
        let mut r = Vec::new();
        let mut it = entity_manager.iter(&query);
        while let Some(entity) = it.next() {
            if !r.contains(&entity) && (entity == e1) {
                r.push(entity);
            }
        }
        assert_eq!(r.len(), 1);
    }
}

#[test]
fn delete_entity_removes_every_component_and_frees_the_id() {
    let mut entity_manager = MyEntityManager::new();
    let e = entity_manager.create_entity();
    let other = entity_manager.create_entity();
    entity_manager.add_component::<Position, _>(e);
    entity_manager.add_component::<Velocity, _>(e);
    entity_manager.add_component::<Position, _>(other);

    entity_manager.delete_entity(e);
    assert!(!entity_manager.has_component::<Position, _>(e));
    assert!(!entity_manager.has_component::<Velocity, _>(e));
    assert!(entity_manager.has_component::<Position, _>(other));

    let reused = entity_manager.create_entity();
    assert_eq!(reused, e);
    assert!(!entity_manager.has_component::<Position, _>(reused));
    assert!(!entity_manager.has_component::<Velocity, _>(reused));
}

fn selected<F: entity_system::Filter<Emc>>(
    entity_manager: &MyEntityManager,
    query: &Query<Emc, F>,
) -> Vec<u32> {
    let mut r = Vec::new();
    let mut it = entity_manager.iter(query);
    while let Some(entity) = it.next() {
        r.push(entity.id);
    }
    r
}

#[test]
fn query_composition() {
    let mut entity_manager = MyEntityManager::new();
    let e1 = entity_manager.create_entity();
    entity_manager.add_component_with::<Position, _, _>(e1, |p| p.x = 5);
    let e2 = entity_manager.create_entity();
    entity_manager.add_component_with::<Position, _, _>(e2, |p| p.x = 6);
    entity_manager.add_component::<Velocity, _>(e2);

    let has_position = Query::new().check_component::<Position, _>();
    assert_eq!(selected(&entity_manager, &has_position), [e1.id, e2.id]);

    let moving = Query::new()
        .check_component::<Position, _>()
        .check_component::<Velocity, _>();
    assert_eq!(selected(&entity_manager, &moving), [e2.id]);

    let far = Query::new().check_component_by::<Position, _, _>(|p| p.x > 2);
    assert_eq!(selected(&entity_manager, &far), [e1.id, e2.id]);
    entity_manager.update_component_with::<Position, _, _>(e2, |p| p.x = 1);
    assert_eq!(selected(&entity_manager, &far), [e1.id]);

    let still = Query::new().check_not_component::<Velocity, _>();
    assert_eq!(selected(&entity_manager, &still), [e1.id]);
}

#[test]
fn empty_query_matches_every_live_entity() {
    let mut entity_manager = MyEntityManager::default();
    let e0 = entity_manager.create_entity();
    let e1 = entity_manager.create_entity();
    let e2 = entity_manager.create_entity();
    entity_manager.delete_entity(e1);
    let all = Query::default();
    assert_eq!(selected(&entity_manager, &all), [e0.id, e2.id]);
    assert!(all.check(&entity_manager, e0));
}

#[test]
fn value_predicate_refuses_entities_without_the_component() {
    let mut entity_manager = MyEntityManager::new();
    let e = entity_manager.create_entity();
    let query = Query::new().check_component_by::<Velocity, _, _>(|_| true);
    assert!(!query.check(&entity_manager, e));
    entity_manager.add_component::<Velocity, _>(e);
    assert!(query.check(&entity_manager, e));
}

#[test]
fn global_predicate_reads_two_components() {
    let mut entity_manager = MyEntityManager::new();
    let e1 = entity_manager.create_entity();
    entity_manager.add_component_with::<Position, _, _>(e1, |p| p.x = 4);
    entity_manager.add_component_with::<Velocity, _, _>(e1, |v| v.x = 3);
    let e2 = entity_manager.create_entity();
    entity_manager.add_component_with::<Position, _, _>(e2, |p| p.x = 1);
    entity_manager.add_component_with::<Velocity, _, _>(e2, |v| v.x = 1);
    let e3 = entity_manager.create_entity();
    entity_manager.add_component_with::<Position, _, _>(e3, |p| p.x = 9);

    let query = Query::new()
        .check_component::<Position, _>()
        .check_component::<Velocity, _>()
        .check_global(|em: &MyEntityManager, entity| {
            let px = em.get_component::<Position, _>(entity).x as i64;
            let vx = em.get_component::<Velocity, _>(entity).x as i64;
            px + vx > 5
        });
    assert_eq!(selected(&entity_manager, &query), [e1.id]);
}

#[test]
fn component_mut_and_add_with() {
    let mut entity_manager = MyEntityManager::new();
    let e = entity_manager.create_entity();
    entity_manager.add_component_with::<Velocity, _, _>(e, |v| {
        v.x = -2;
        v.y = 7;
    });
    entity_manager.get_component_mut::<Velocity, _>(e).x += 10;
    assert_eq!(entity_manager.get_component::<Velocity, _>(e).x, 8);
    assert_eq!(entity_manager.get_component::<Velocity, _>(e).y, 7);

    entity_manager.add_component::<Velocity, _>(e);
    assert_eq!(entity_manager.get_component::<Velocity, _>(e).x, 8);
    entity_manager.remove_component::<Velocity, _>(e);
    entity_manager.remove_component::<Velocity, _>(e);
    assert!(!entity_manager.has_component::<Velocity, _>(e));
    entity_manager.add_component::<Velocity, _>(e);
    assert_eq!(entity_manager.get_component::<Velocity, _>(e).x, 0);
}

#[test]
fn storages_are_reached_by_type() {
    let mut entity_manager = MyEntityManager::new();
    let e = entity_manager.create_entity();
    entity_manager.add_component_with::<Position, _, _>(e, |p| p.y = 3);
    assert!(entity_manager.get_storage::<Position, _>().has(e));
    assert!(!entity_manager.get_storage::<Velocity, _>().has(e));
    entity_manager.get_storage_mut::<Velocity, _>().allocate(e);
    assert!(entity_manager.has_component::<Velocity, _>(e));
    assert_eq!(entity_manager.get_component::<Position, _>(e).y, 3);
}

#[test]
fn position_moved_by_velocity_in_one_step() {
    let mut entity_manager = MyEntityManager::new();
    let e = entity_manager.create_entity();
    entity_manager.add_component_with::<Position, _, _>(e, |p| {
        p.x = 10;
        p.y = 20;
    });
    entity_manager.add_component_with::<Velocity, _, _>(e, |v| {
        v.x = -3;
        v.y = 4;
    });
    entity_manager.update_component_using::<Position, _, Velocity, _, _>(e, |p, v| {
        p.x = (p.x as i32 + v.x) as u32;
        p.y = (p.y as i32 + v.y) as u32;
    });
    assert_eq!(entity_manager.get_component::<Position, _>(e).x, 7);
    assert_eq!(entity_manager.get_component::<Position, _>(e).y, 24);
    assert_eq!(entity_manager.get_component::<Velocity, _>(e).x, -3);

    entity_manager.update_component_using::<Velocity, _, Position, _, _>(e, |v, p| {
        v.y = p.y as i32;
    });
    assert_eq!(entity_manager.get_component::<Velocity, _>(e).y, 24);

    let (positions, velocities) = entity_manager.get_storages_mut::<Position, _, Velocity, _>();
    positions.get_mut(e).x += velocities.get(e).y as u32;
    assert_eq!(entity_manager.get_component::<Position, _>(e).x, 31);
}
