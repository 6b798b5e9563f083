use scene_ecs::arena::Arena;
use scene_ecs::entity::Entity;
use scene_ecs::views::{view_with, view_with_2};
use scene_ecs::world::World;

#[test]
fn view_runs_by_ascending_index() {
    let mut arena: Arena<u8> = Arena::new();
    arena.insert(Entity::new(5, 0), 1);
    arena.insert(Entity::new(1, 3), 2);
    arena.insert(Entity::new(3, 1), 3);
    assert_eq!(
        view_with(&arena),
        vec![Entity::new(1, 3), Entity::new(3, 1), Entity::new(5, 0)]
    );
}

#[test]
fn view_of_empty_arena_is_empty() {
    let arena: Arena<u8> = Arena::new();
    assert_eq!(view_with(&arena), Vec::<Entity>::new());
    let other: Arena<u16> = Arena::new();
    assert_eq!(view_with_2(&arena, &other), Vec::<Entity>::new());
}

#[test]
fn view_of_two_is_the_intersection() {
    let mut first: Arena<u8> = Arena::new();
    let mut second: Arena<bool> = Arena::new();
    first.insert(Entity::new(0, 0), 1);
    first.insert(Entity::new(2, 0), 1);
    first.insert(Entity::new(4, 0), 1);
    first.insert(Entity::new(6, 2), 1);
    second.insert(Entity::new(2, 0), true);
    second.insert(Entity::new(3, 0), true);
    second.insert(Entity::new(4, 1), true);
    second.insert(Entity::new(6, 2), false);
    assert_eq!(
        view_with_2(&first, &second),
        vec![Entity::new(2, 0), Entity::new(6, 2)]
    );
    assert_eq!(
        view_with_2(&second, &first),
        vec![Entity::new(2, 0), Entity::new(6, 2)]
    );
}

#[test]
fn world_view_holds_exactly_the_holders() {
    let mut world: World<u32> = World::new();
    let kind = world.register();
    let a = world.build().with(kind, 1).finish();
    let b = world.create();
    let c = world.build().with(kind, 3).finish();
    let (entities, arena) = world.view_with(kind);
    assert_eq!(entities, vec![a, c]);
    assert!(!entities.contains(&b));
    assert_eq!(arena.get(a), Some(&1));
    assert_eq!(arena.get(c), Some(&3));
}

#[test]
fn world_view_drops_freed_entities() {
    let mut world: World<u32> = World::new();
    let kind = world.register();
    let a = world.build().with(kind, 1).finish();
    let b = world.build().with(kind, 2).finish();
    let c = world.build().with(kind, 3).finish();
    assert_eq!(world.free(b), Ok(()));
    let (entities, _) = world.view_with(kind);
    assert_eq!(entities, vec![a, c]);
}

#[test]
fn view_with_2_over_500_entities() {
    let mut world: World<u32> = World::new();
    let transform = world.register();
    let sprite = world.register();
    let mut both: Vec<Entity> = Vec::new();
    for i in 0..500u32 {
        if i % 5 < 3 {
            both.push(world.build().with(transform, i).with(sprite, i + 1000).finish());
        } else if i % 5 == 3 {
            world.build().with(transform, i).finish();
        } else {
            world.build().with(sprite, i).finish();
        }
    }
    assert_eq!(both.len(), 300);
    let (entities, transforms, sprites) = world.view_with_2(transform, sprite);
    assert_eq!(entities.len(), 300);
    assert_eq!(entities, both);
    for w in entities.windows(2) {
        assert!(w[0].index() < w[1].index());
    }
    for e in &entities {
        assert_eq!(transforms.get(*e), Some(&e.index()));
        assert_eq!(sprites.get(*e), Some(&(e.index() + 1000)));
    }
}

#[test]
fn view_twice_is_the_same() {
    let mut world: World<u32> = World::new();
    let kind = world.register();
    for i in 0..10u32 {
        if i % 2 == 0 {
            world.build().with(kind, i).finish();
        } else {
            world.create();
        }
    }
    let first = world.view_with(kind).0;
    let second = world.view_with(kind).0;
    assert_eq!(first, second);
    assert_eq!(first.len(), 5);
}
