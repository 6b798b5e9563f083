use scene_ecs::entity::Entity;
use scene_ecs::node::Node;
use scene_ecs::world::{EntityError, World};

#[test]
fn new_world_has_nothing() {
    let world: World<u32> = World::new();
    assert_eq!(world.kinds(), 0);
    assert!(world.has_room());
    assert!(!world.is_alive(Entity::new(0, 0)));
    assert_eq!(world.nodes().capacity(), 0);
}

#[test]
fn register_numbers_kinds_in_order() {
    let mut world: World<u32> = World::new();
    assert_eq!(world.register(), 0);
    assert_eq!(world.register(), 1);
    assert_eq!(world.register(), 2);
    assert_eq!(world.kinds(), 3);
}

#[test]
fn build_returns_staged_components() {
    let mut world: World<u32> = World::new();
    let a = world.register();
    let b = world.register();
    let e = world.build().with_default_node().with(a, 7).finish();
    assert_eq!(e, Entity::new(0, 0));
    assert!(world.is_alive(e));
    assert_eq!(world.arena(a).get(e), Some(&7));
    assert_eq!(world.arena(b).get(e), None);
    assert_eq!(world.nodes().get(e), Some(&Node::new()));
    assert_eq!(world.fetch(a, e), Some(&7));
    assert_eq!(world.fetch(b, e), None);
}

#[test]
fn build_without_node_holds_no_node() {
    let mut world: World<u32> = World::new();
    let a = world.register();
    let e = world.build().with(a, 1).finish();
    assert_eq!(world.nodes().get(e), None);
    let f = world.create();
    assert_eq!(f, Entity::new(1, 0));
    assert_eq!(world.nodes().get(f), None);
    assert_eq!(world.arena(a).get(f), None);
    assert!(world.is_alive(f));
}

#[test]
fn staging_twice_keeps_the_last_value() {
    let mut world: World<u32> = World::new();
    let a = world.register();
    let e = world.build().with(a, 1).with(a, 2).finish();
    assert_eq!(world.fetch(a, e), Some(&2));
}

#[test]
fn with_node_stages_the_given_links() {
    let mut world: World<u32> = World::new();
    let parent = world.build().with_default_node().finish();
    let node = Node { parent: Some(parent), first_child: None, next_sibling: None, prev_sibling: None };
    let child = world.build().with_node(node).finish();
    assert_eq!(world.nodes().get(child), Some(&node));
    assert!(!world.nodes().get(child).unwrap().is_root());
    assert!(world.nodes().get(parent).unwrap().is_root());
}

#[test]
fn spawn_takes_a_prepared_row() {
    let mut world: World<u32> = World::new();
    let a = world.register();
    let b = world.register();
    let e = world.spawn(None, vec![None, Some(5), Some(99)]);
    assert_eq!(world.fetch(a, e), None);
    assert_eq!(world.fetch(b, e), Some(&5));
    assert_eq!(world.kinds(), 2);
}

#[test]
fn free_then_rebuild_keeps_old_handle_stale() {
    let mut world: World<u32> = World::new();
    let x = world.register();
    let e = world.build().with(x, 41).finish();
    assert_eq!(world.free(e), Ok(()));
    assert_eq!(world.arena(x).get(e), None);
    assert_eq!(world.free(e), Err(EntityError::StaleHandle));
    let e2 = world.build().with(x, 42).finish();
    assert_eq!(e2.index(), e.index());
    assert_eq!(e2.generation(), e.generation() + 1);
    assert_eq!(world.arena(x).get(e), None);
    assert_eq!(world.arena(x).get(e2), Some(&42));
    assert!(!world.is_alive(e));
    assert!(world.is_alive(e2));
}

#[test]
fn freed_handle_does_not_see_the_next_holder() {
    let mut world: World<u32> = World::new();
    let x = world.register();
    let e = world.build().with_default_node().with(x, 1).finish();
    assert_eq!(world.free(e), Ok(()));
    let e2 = world.create();
    assert_eq!(e2.index(), e.index());
    assert_eq!(world.fetch(x, e2), None);
    assert_eq!(world.fetch(x, e), None);
    assert_eq!(world.nodes().get(e2), None);
    assert_eq!(world.nodes().get(e), None);
    assert_eq!(world.free(e2), Ok(()));
    assert_eq!(world.fetch(x, e), None);
    assert!(!world.is_alive(e));
}

#[test]
fn free_of_never_built_handle_is_refused() {
    let mut world: World<u32> = World::new();
    assert_eq!(world.free(Entity::new(0, 0)), Err(EntityError::StaleHandle));
    let e = world.create();
    assert_eq!(world.free(Entity::new(0, 1)), Err(EntityError::StaleHandle));
    assert_eq!(world.free(Entity::new(1, 0)), Err(EntityError::StaleHandle));
    assert!(world.is_alive(e));
}

#[test]
fn build_reuses_the_lowest_free_index() {
    let mut world: World<u32> = World::new();
    let e: Vec<Entity> = (0..5).map(|_| world.create()).collect();
    assert_eq!(e[4], Entity::new(4, 0));
    assert_eq!(world.free(e[3]), Ok(()));
    assert_eq!(world.free(e[1]), Ok(()));
    assert_eq!(world.free(e[2]), Ok(()));
    assert_eq!(world.create(), Entity::new(1, 1));
    assert_eq!(world.create(), Entity::new(2, 1));
    assert_eq!(world.create(), Entity::new(3, 1));
    assert_eq!(world.create(), Entity::new(5, 0));
}

#[test]
fn generations_count_up_per_index() {
    let mut world: World<u32> = World::new();
    let mut e = world.create();
    for g in 0..10u32 {
        assert_eq!(e, Entity::new(0, g));
        assert_eq!(world.free(e), Ok(()));
        e = world.create();
    }
    assert_eq!(e, Entity::new(0, 10));
}

#[test]
fn free_leaves_other_entities_alone() {
    let mut world: World<u32> = World::new();
    let x = world.register();
    let a = world.build().with(x, 1).finish();
    let b = world.build().with(x, 2).finish();
    assert_eq!(world.free(a), Ok(()));
    assert!(world.is_alive(b));
    assert_eq!(world.fetch(x, b), Some(&2));
}

#[test]
fn assign_and_remove() {
    let mut world: World<u32> = World::new();
    let x = world.register();
    let e = world.create();
    assert_eq!(world.assign(x, e, 5), Ok(None));
    assert_eq!(world.assign(x, e, 6), Ok(Some(5)));
    assert_eq!(world.fetch(x, e), Some(&6));
    assert_eq!(world.remove(x, e), Some(6));
    assert_eq!(world.remove(x, e), None);
    assert_eq!(world.fetch(x, e), None);
}

#[test]
fn assign_to_stale_handle_is_refused() {
    let mut world: World<u32> = World::new();
    let x = world.register();
    let e = world.create();
    assert_eq!(world.free(e), Ok(()));
    assert_eq!(world.assign(x, e, 5), Err(EntityError::StaleHandle));
    assert_eq!(world.fetch(x, e), None);
    let e2 = world.create();
    assert_eq!(world.fetch(x, e2), None);
}

#[test]
fn fetch_mut_writes_through() {
    let mut world: World<u32> = World::new();
    let x = world.register();
    let a = world.build().with(x, 1).finish();
    let b = world.build().with(x, 2).finish();
    *world.fetch_mut(x, a).unwrap() = 10;
    assert_eq!(world.fetch(x, a), Some(&10));
    assert_eq!(world.fetch(x, b), Some(&2));
    assert_eq!(world.fetch_mut(x, Entity::new(9, 0)), None);
}

#[test]
fn arena_mut_writes_through() {
    let mut world: World<u32> = World::new();
    let x = world.register();
    let a = world.build().with(x, 1).finish();
    *world.arena_mut(x).get_mut(a).unwrap() += 1;
    assert_eq!(world.arena(x).get(a), Some(&2));
    world.nodes_mut();
    assert!(world.is_alive(a));
}

#[test]
fn arena_pair_mut_reaches_two_kinds_at_once() {
    let mut world: World<u32> = World::new();
    let x = world.register();
    let y = world.register();
    let z = world.register();
    let e = world.build().with(x, 1).with(y, 10).with(z, 100).finish();
    {
        let (first, second) = world.arena_pair_mut(z, x);
        let moved = *first.get(e).unwrap();
        *second.get_mut(e).unwrap() += moved;
        *first.get_mut(e).unwrap() = 0;
    }
    assert_eq!(world.fetch(x, e), Some(&101));
    assert_eq!(world.fetch(y, e), Some(&10));
    assert_eq!(world.fetch(z, e), Some(&0));
    {
        let (first, second) = world.arena_pair_mut(x, y);
        *second.get_mut(e).unwrap() += *first.get(e).unwrap();
    }
    assert_eq!(world.fetch(y, e), Some(&111));
}

#[test]
fn with_default_stages_the_default_value() {
    let mut world: World<u32> = World::new();
    let x = world.register();
    let y = world.register();
    let e = world.build().with(x, 3).with_default(x).with_default(y).finish();
    assert_eq!(world.fetch(x, e), Some(&0));
    assert_eq!(world.fetch(y, e), Some(&0));
}
