use scene_ecs::arena::Arena;
use scene_ecs::entity::Entity;
use scene_ecs::hierarchy::{children, roots, traverse, traverse_all};
use scene_ecs::node::Node;
use scene_ecs::reparent::{detach, is_ancestor, set_parent, HierarchyError};
use scene_ecs::world::World;

fn link(parent: Option<Entity>, first: Option<Entity>, next: Option<Entity>, prev: Option<Entity>) -> Node {
    Node { parent, first_child: first, next_sibling: next, prev_sibling: prev }
}

#[test]
fn traversal_visits_parent_then_children_in_list_order() {
    let mut world: World<u32> = World::new();
    let r = world.build().with_default_node().finish();
    let c1 = world.build().with_default_node().finish();
    let c2 = world.build().with_default_node().finish();
    {
        let nodes = world.nodes_mut();
        assert_eq!(set_parent(nodes, c2, Some(r)), Ok(()));
        assert_eq!(set_parent(nodes, c1, Some(r)), Ok(()));
    }
    assert_eq!(children(world.nodes(), r), vec![c1, c2]);
    assert_eq!(traverse(world.nodes(), r), vec![r, c1, c2]);
    assert_eq!(roots(world.nodes()), vec![r]);
}

#[test]
fn traversal_follows_links_staged_at_build() {
    let mut world: World<u32> = World::new();
    let r = Entity::new(0, 0);
    let c1 = Entity::new(1, 0);
    let c2 = Entity::new(2, 0);
    assert_eq!(world.build().with_node(link(None, Some(c1), None, None)).finish(), r);
    assert_eq!(world.build().with_node(link(Some(r), None, Some(c2), None)).finish(), c1);
    assert_eq!(world.build().with_node(link(Some(r), None, None, Some(c1))).finish(), c2);
    assert_eq!(traverse(world.nodes(), r), vec![r, c1, c2]);
}

#[test]
fn traversal_descends_before_the_next_sibling() {
    let mut nodes: Arena<Node> = Arena::new();
    let e: Vec<Entity> = (0..7).map(|i| Entity::new(i, 0)).collect();
    for x in &e {
        nodes.insert(*x, Node::new());
    }
    // 0 -> [1, 2]; 1 -> [3, 4]; 2 -> [5]; 5 -> [6]
    assert_eq!(set_parent(&mut nodes, e[2], Some(e[0])), Ok(()));
    assert_eq!(set_parent(&mut nodes, e[1], Some(e[0])), Ok(()));
    assert_eq!(set_parent(&mut nodes, e[4], Some(e[1])), Ok(()));
    assert_eq!(set_parent(&mut nodes, e[3], Some(e[1])), Ok(()));
    assert_eq!(set_parent(&mut nodes, e[5], Some(e[2])), Ok(()));
    assert_eq!(set_parent(&mut nodes, e[6], Some(e[5])), Ok(()));
    assert_eq!(
        traverse(&nodes, e[0]),
        vec![e[0], e[1], e[3], e[4], e[2], e[5], e[6]]
    );
    assert_eq!(traverse(&nodes, e[2]), vec![e[2], e[5], e[6]]);
    assert_eq!(traverse(&nodes, e[6]), vec![e[6]]);
    assert_eq!(children(&nodes, e[1]), vec![e[3], e[4]]);
    assert_eq!(children(&nodes, e[3]), Vec::<Entity>::new());
    assert_eq!(roots(&nodes), vec![e[0]]);
}

#[test]
fn traversal_of_entity_without_node_is_empty() {
    let nodes: Arena<Node> = Arena::new();
    assert_eq!(traverse(&nodes, Entity::new(0, 0)), Vec::<Entity>::new());
    assert_eq!(children(&nodes, Entity::new(0, 0)), Vec::<Entity>::new());
    assert_eq!(roots(&nodes), Vec::<Entity>::new());
}

#[test]
fn roots_run_by_ascending_index_and_repeat() {
    let mut nodes: Arena<Node> = Arena::new();
    let e: Vec<Entity> = (0..6).map(|i| Entity::new(i, i)).collect();
    for x in e.iter().rev() {
        nodes.insert(*x, Node::new());
    }
    assert_eq!(set_parent(&mut nodes, e[1], Some(e[4])), Ok(()));
    assert_eq!(set_parent(&mut nodes, e[3], Some(e[4])), Ok(()));
    let first = roots(&nodes);
    let second = roots(&nodes);
    assert_eq!(first, vec![e[0], e[2], e[4], e[5]]);
    assert_eq!(first, second);
}

#[test]
fn traverse_all_visits_each_tree_in_turn() {
    let mut nodes: Arena<Node> = Arena::new();
    let e: Vec<Entity> = (0..5).map(|i| Entity::new(i, 0)).collect();
    for x in &e {
        nodes.insert(*x, Node::new());
    }
    assert_eq!(set_parent(&mut nodes, e[3], Some(e[0])), Ok(()));
    assert_eq!(set_parent(&mut nodes, e[4], Some(e[1])), Ok(()));
    let tops = roots(&nodes);
    assert_eq!(tops, vec![e[0], e[1], e[2]]);
    assert_eq!(traverse_all(&nodes, &tops), vec![e[0], e[3], e[1], e[4], e[2]]);
    assert_eq!(traverse_all(&nodes, &vec![e[2], e[0]]), vec![e[2], e[0], e[3]]);
    assert_eq!(traverse_all(&nodes, &Vec::new()), Vec::<Entity>::new());
}

#[test]
fn link_to_freed_entity_ends_the_list() {
    let mut world: World<u32> = World::new();
    let r = world.build().with_default_node().finish();
    let a = world.build().with_default_node().finish();
    let b = world.build().with_default_node().finish();
    let c = world.build().with_default_node().finish();
    {
        let nodes = world.nodes_mut();
        assert_eq!(set_parent(nodes, c, Some(r)), Ok(()));
        assert_eq!(set_parent(nodes, b, Some(r)), Ok(()));
        assert_eq!(set_parent(nodes, a, Some(r)), Ok(()));
    }
    assert_eq!(children(world.nodes(), r), vec![a, b, c]);
    assert_eq!(world.free(b), Ok(()));
    assert_eq!(children(world.nodes(), r), vec![a]);
    assert_eq!(traverse(world.nodes(), r), vec![r, a]);
    assert_eq!(roots(world.nodes()), vec![r]);
}

#[test]
fn walks_end_on_links_that_form_a_cycle() {
    let mut nodes: Arena<Node> = Arena::new();
    let a = Entity::new(0, 0);
    let b = Entity::new(1, 0);
    let c = Entity::new(2, 0);
    // a's children: b -> c -> b -> ...
    nodes.insert(a, link(None, Some(b), None, None));
    nodes.insert(b, link(Some(a), None, Some(c), Some(c)));
    nodes.insert(c, link(Some(a), None, Some(b), Some(b)));
    assert_eq!(children(&nodes, a), vec![b, c, b]);
    assert_eq!(traverse(&nodes, a), vec![a, b, c, b]);
    // a node that is its own parent and child
    let mut loops: Arena<Node> = Arena::new();
    loops.insert(a, link(Some(a), Some(a), None, None));
    assert_eq!(traverse(&loops, a), vec![a, a]);
    assert!(is_ancestor(&loops, a, a));
    assert_eq!(roots(&loops), Vec::<Entity>::new());
}

#[test]
fn set_parent_puts_the_child_at_the_head() {
    let mut nodes: Arena<Node> = Arena::new();
    let p = Entity::new(0, 0);
    let a = Entity::new(1, 0);
    let b = Entity::new(2, 0);
    for x in [p, a, b] {
        nodes.insert(x, Node::new());
    }
    assert_eq!(set_parent(&mut nodes, a, Some(p)), Ok(()));
    assert_eq!(nodes.get(p), Some(&link(None, Some(a), None, None)));
    assert_eq!(nodes.get(a), Some(&link(Some(p), None, None, None)));
    assert_eq!(set_parent(&mut nodes, b, Some(p)), Ok(()));
    assert_eq!(nodes.get(p), Some(&link(None, Some(b), None, None)));
    assert_eq!(nodes.get(b), Some(&link(Some(p), None, Some(a), None)));
    assert_eq!(nodes.get(a), Some(&link(Some(p), None, None, Some(b))));
    assert_eq!(children(&nodes, p), vec![b, a]);
}

#[test]
fn detach_unlinks_head_middle_and_tail() {
    let mut nodes: Arena<Node> = Arena::new();
    let p = Entity::new(0, 0);
    let a = Entity::new(1, 0);
    let b = Entity::new(2, 0);
    let c = Entity::new(3, 0);
    for x in [p, a, b, c] {
        nodes.insert(x, Node::new());
    }
    for x in [c, b, a] {
        assert_eq!(set_parent(&mut nodes, x, Some(p)), Ok(()));
    }
    assert_eq!(children(&nodes, p), vec![a, b, c]);
    detach(&mut nodes, b);
    assert_eq!(children(&nodes, p), vec![a, c]);
    assert_eq!(nodes.get(b), Some(&Node::new()));
    assert_eq!(nodes.get(a), Some(&link(Some(p), None, Some(c), None)));
    assert_eq!(nodes.get(c), Some(&link(Some(p), None, None, Some(a))));
    detach(&mut nodes, a);
    assert_eq!(children(&nodes, p), vec![c]);
    assert_eq!(nodes.get(p), Some(&link(None, Some(c), None, None)));
    assert_eq!(nodes.get(c), Some(&link(Some(p), None, None, None)));
    detach(&mut nodes, c);
    assert_eq!(children(&nodes, p), Vec::<Entity>::new());
    assert_eq!(nodes.get(p), Some(&Node::new()));
    assert_eq!(roots(&nodes), vec![p, a, b, c]);
    detach(&mut nodes, Entity::new(9, 0));
    assert_eq!(roots(&nodes), vec![p, a, b, c]);
}

#[test]
fn detach_keeps_the_subtree() {
    let mut nodes: Arena<Node> = Arena::new();
    let p = Entity::new(0, 0);
    let a = Entity::new(1, 0);
    let b = Entity::new(2, 0);
    for x in [p, a, b] {
        nodes.insert(x, Node::new());
    }
    assert_eq!(set_parent(&mut nodes, a, Some(p)), Ok(()));
    assert_eq!(set_parent(&mut nodes, b, Some(a)), Ok(()));
    assert_eq!(set_parent(&mut nodes, a, None), Ok(()));
    assert_eq!(traverse(&nodes, p), vec![p]);
    assert_eq!(traverse(&nodes, a), vec![a, b]);
    assert_eq!(roots(&nodes), vec![p, a]);
}

#[test]
fn set_parent_moves_between_parents() {
    let mut nodes: Arena<Node> = Arena::new();
    let p = Entity::new(0, 0);
    let q = Entity::new(1, 0);
    let a = Entity::new(2, 0);
    let b = Entity::new(3, 0);
    for x in [p, q, a, b] {
        nodes.insert(x, Node::new());
    }
    assert_eq!(set_parent(&mut nodes, b, Some(p)), Ok(()));
    assert_eq!(set_parent(&mut nodes, a, Some(p)), Ok(()));
    assert_eq!(set_parent(&mut nodes, a, Some(q)), Ok(()));
    assert_eq!(children(&nodes, p), vec![b]);
    assert_eq!(children(&nodes, q), vec![a]);
    assert_eq!(nodes.get(b), Some(&link(Some(p), None, None, None)));
    assert_eq!(nodes.get(a), Some(&link(Some(q), None, None, None)));
}

#[test]
fn set_parent_refuses_missing_and_cycles() {
    let mut nodes: Arena<Node> = Arena::new();
    let a = Entity::new(0, 0);
    let b = Entity::new(1, 0);
    let c = Entity::new(2, 0);
    let gone = Entity::new(3, 0);
    for x in [a, b, c] {
        nodes.insert(x, Node::new());
    }
    assert_eq!(set_parent(&mut nodes, gone, Some(a)), Err(HierarchyError::Missing));
    assert_eq!(set_parent(&mut nodes, gone, None), Err(HierarchyError::Missing));
    assert_eq!(set_parent(&mut nodes, a, Some(gone)), Err(HierarchyError::Missing));
    assert_eq!(set_parent(&mut nodes, a, Some(a)), Err(HierarchyError::Cycle));
    assert_eq!(set_parent(&mut nodes, b, Some(a)), Ok(()));
    assert_eq!(set_parent(&mut nodes, c, Some(b)), Ok(()));
    assert_eq!(set_parent(&mut nodes, a, Some(c)), Err(HierarchyError::Cycle));
    assert_eq!(set_parent(&mut nodes, a, Some(b)), Err(HierarchyError::Cycle));
    assert_eq!(traverse(&nodes, a), vec![a, b, c]);
    assert!(is_ancestor(&nodes, a, c));
    assert!(is_ancestor(&nodes, b, c));
    assert!(!is_ancestor(&nodes, c, a));
    assert!(!is_ancestor(&nodes, c, c));
    assert!(!is_ancestor(&nodes, a, gone));
}
