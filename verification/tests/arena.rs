use scene_ecs::arena::Arena;
use scene_ecs::entity::Entity;

#[test]
fn new_arena_is_empty() {
    let arena: Arena<u32> = Arena::new();
    assert_eq!(arena.capacity(), 0);
    assert_eq!(arena.get(Entity::new(0, 0)), None);
    assert!(!arena.contains(Entity::new(0, 0)));
    assert_eq!(arena.holder(0), None);
}

#[test]
fn insert_then_get() {
    let mut arena: Arena<u32> = Arena::new();
    let e = Entity::new(3, 5);
    assert_eq!(arena.insert(e, 11), None);
    assert_eq!(arena.capacity(), 4);
    assert_eq!(arena.get(e), Some(&11));
    assert!(arena.contains(e));
    assert_eq!(*arena.get_unchecked(e), 11);
    assert_eq!(arena.holder(3), Some(e));
    assert_eq!(arena.holder(2), None);
    assert_eq!(arena.holder(4), None);
}

#[test]
fn insert_overwrites_same_entity() {
    let mut arena: Arena<u32> = Arena::new();
    let e = Entity::new(1, 0);
    assert_eq!(arena.insert(e, 1), None);
    assert_eq!(arena.insert(e, 2), Some(1));
    assert_eq!(arena.get(e), Some(&2));
    assert_eq!(arena.capacity(), 2);
}

#[test]
fn other_generation_finds_nothing() {
    let mut arena: Arena<u32> = Arena::new();
    let old = Entity::new(2, 0);
    let new = Entity::new(2, 1);
    arena.insert(old, 10);
    assert_eq!(arena.get(new), None);
    assert!(!arena.contains(new));
    assert_eq!(arena.get_mut(new), None);
    assert_eq!(arena.remove(new), None);
    assert_eq!(arena.get(old), Some(&10));
}

#[test]
fn insert_displaces_other_generation() {
    let mut arena: Arena<u32> = Arena::new();
    let old = Entity::new(2, 0);
    let new = Entity::new(2, 1);
    arena.insert(old, 10);
    assert_eq!(arena.insert(new, 20), None);
    assert_eq!(arena.get(old), None);
    assert_eq!(arena.get(new), Some(&20));
    assert_eq!(arena.holder(2), Some(new));
}

#[test]
fn remove_then_insert_is_fresh() {
    let mut arena: Arena<u32> = Arena::new();
    let e = Entity::new(0, 0);
    arena.insert(e, 1);
    assert_eq!(arena.remove(e), Some(1));
    assert_eq!(arena.get(e), None);
    assert_eq!(arena.remove(e), None);
    assert_eq!(arena.capacity(), 1);
    assert_eq!(arena.insert(e, 2), None);
    assert_eq!(arena.get(e), Some(&2));
}

#[test]
fn get_mut_changes_one_value() {
    let mut arena: Arena<u32> = Arena::new();
    let a = Entity::new(0, 0);
    let b = Entity::new(1, 0);
    arena.insert(a, 1);
    arena.insert(b, 2);
    *arena.get_mut(a).unwrap() = 9;
    *arena.get_unchecked_mut(b) += 40;
    assert_eq!(arena.get(a), Some(&9));
    assert_eq!(arena.get(b), Some(&42));
    assert_eq!(arena.get_mut(Entity::new(7, 0)), None);
}
