use entity_system::{Entity, EntityAllocator};

#[test]
fn test_entity_01() {
    let mut ea = EntityAllocator::new();

    // allocate: 0 1 2 3 4 5 6 7 8 9
    for i in 0..10 {
        assert_eq!(ea.allocate().id, i);
    }

    // free: 0 2 4 6 8
    for i in 0..5 {
        ea.free(Entity::new(i * 2));
    }

    // allocate: 0 2 4 6 8 10 11
    let mut v1 = Vec::new();
    for _ in 0..7 {
        v1.push(ea.allocate().id);
    }
    v1.sort_unstable();
    assert_eq!(v1, [0, 2, 4, 6, 8, 10, 11]);

    // iter
    let mut v2 = Vec::new();
    let mut it = ea.iter();
    while let Some(e) = it.next() {
        v2.push(e.id);
    }
    v2.sort_unstable();
    assert_eq!(v2, [0, 1, 2, 3, 4, 5, 6, 7, 8, 9, 10, 11]);
}

#[test]
fn fresh_allocator_issues_consecutive_ids() {
    let mut ea = EntityAllocator::default();
    let ids: Vec<u32> = (0..4).map(|_| ea.allocate().id).collect();
    assert_eq!(ids, [0, 1, 2, 3]);
}

#[test]
fn reallocation_returns_exactly_the_freed_ids() {
    let mut ea = EntityAllocator::new();
    for _ in 0..6 {
        ea.allocate();
    }
    ea.free(Entity::new(1));
    ea.free(Entity::new(4));
    ea.free(Entity::new(5));
    let mut again: Vec<u32> = (0..3).map(|_| ea.allocate().id).collect();
    again.sort_unstable();
    assert_eq!(again, [1, 4, 5]);
    assert_eq!(ea.allocate().id, 6);
}

#[test]
fn double_free_does_not_issue_an_id_twice() {
    let mut ea = EntityAllocator::new();
    for _ in 0..3 {
        ea.allocate();
    }
    ea.free(Entity::new(1));
    ea.free(Entity::new(1));
    assert_eq!(ea.allocate().id, 1);
    assert_eq!(ea.allocate().id, 3);
}

#[test]
fn freeing_an_unissued_id_changes_nothing() {
    let mut ea = EntityAllocator::new();
    ea.allocate();
    ea.free(Entity::new(7));
    assert_eq!(ea.allocate().id, 1);
    let ids: Vec<u32> = ea.entities().iter().map(|e| e.id).collect();
    assert_eq!(ids, [0, 1]);
}

#[test]
fn live_entities_are_ascending_and_skip_freed() {
    let mut ea = EntityAllocator::new();
    for _ in 0..5 {
        ea.allocate();
    }
    ea.free(Entity::new(1));
    ea.free(Entity::new(3));
    let ids: Vec<u32> = ea.entities().iter().map(|e| e.id).collect();
    assert_eq!(ids, [0, 2, 4]);

    let mut walked = Vec::new();
    let mut it = ea.iter();
    while let Some(e) = it.next() {
        walked.push(e.id);
    }
    assert_eq!(walked, [0, 2, 4]);

    ea.free(Entity::new(0));
    ea.free(Entity::new(4));
    let ids: Vec<u32> = ea.entities().iter().map(|e| e.id).collect();
    assert_eq!(ids, [2]);
}

#[test]
fn empty_allocator_has_no_live_entity() {
    let ea = EntityAllocator::new();
    assert!(ea.entities().is_empty());
    assert_eq!(ea.iter().next(), None);
}
