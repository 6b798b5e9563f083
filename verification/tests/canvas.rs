use scene_ecs::canvas::{CanvasSystem, Component, ELEMENT, LAYOUT};
use scene_ecs::entity::Entity;
use scene_ecs::node::Node;
use scene_ecs::reparent::set_parent;

#[derive(Debug, Default, PartialEq)]
struct Element(u32);

#[derive(Debug, Default, PartialEq)]
struct Layout(i8);

fn element_of(c: &CanvasSystem<Element, Layout>, e: Entity) -> Option<&Element> {
    match c.world().fetch(ELEMENT, e) {
        Some(Component::Element(x)) => Some(x),
        _ => None,
    }
}

fn layout_of(c: &CanvasSystem<Element, Layout>, e: Entity) -> Option<&Layout> {
    match c.world().fetch(LAYOUT, e) {
        Some(Component::Layout(x)) => Some(x),
        _ => None,
    }
}

#[test]
fn new_canvas_holds_its_root() {
    let canvas: CanvasSystem<Element, Layout> = CanvasSystem::new();
    let root = Entity::new(0, 0);
    assert_eq!(canvas.world().kinds(), 2);
    assert!(canvas.world().is_alive(root));
    assert_eq!(canvas.world().nodes().get(root), Some(&Node::new()));
    assert_eq!(element_of(&canvas, root), Some(&Element(0)));
    assert_eq!(layout_of(&canvas, root), Some(&Layout(0)));
    assert_eq!(canvas.draw(), vec![root]);
}

#[test]
fn create_stages_node_element_and_layout() {
    let mut canvas: CanvasSystem<Element, Layout> = CanvasSystem::new();
    let e = canvas.create();
    assert_eq!(e, Entity::new(1, 0));
    assert_eq!(canvas.world().nodes().get(e), Some(&Node::new()));
    assert_eq!(element_of(&canvas, e), Some(&Element::default()));
    assert_eq!(layout_of(&canvas, e), Some(&Layout::default()));
}

#[test]
fn create_text_stages_no_layout() {
    let mut canvas: CanvasSystem<Element, Layout> = CanvasSystem::new();
    let e = canvas.create_text(Element(7));
    assert_eq!(canvas.world().nodes().get(e), Some(&Node::new()));
    assert_eq!(element_of(&canvas, e), Some(&Element(7)));
    assert!(canvas.world().fetch(LAYOUT, e).is_none());
}

#[test]
fn passes_walk_roots_then_subtrees() {
    let mut canvas: CanvasSystem<Element, Layout> = CanvasSystem::new();
    let root = Entity::new(0, 0);
    let a = canvas.create();
    let b = canvas.create_text(Element(1));
    let c = canvas.create();
    let d = canvas.create();
    {
        let nodes = canvas.world_mut().nodes_mut();
        assert_eq!(set_parent(nodes, c, Some(a)), Ok(()));
        assert_eq!(set_parent(nodes, b, Some(a)), Ok(()));
        assert_eq!(set_parent(nodes, d, Some(c)), Ok(()));
    }
    assert_eq!(canvas.draw(), vec![root, a, b, c, d]);
    let steps = canvas.perform_layout();
    let flat: Vec<(Entity, Vec<Entity>)> =
        steps.into_iter().map(|s| (s.entity, s.children)).collect();
    assert_eq!(
        flat,
        vec![
            (root, vec![root, a]),
            (root, vec![]),
            (a, vec![b, c]),
            (b, vec![]),
            (c, vec![d]),
            (d, vec![]),
        ]
    );
}

#[test]
fn freed_entities_leave_the_passes() {
    let mut canvas: CanvasSystem<Element, Layout> = CanvasSystem::new();
    let root = Entity::new(0, 0);
    let a = canvas.create();
    let b = canvas.create();
    assert_eq!(canvas.draw(), vec![root, a, b]);
    assert_eq!(canvas.world_mut().free(a), Ok(()));
    assert_eq!(canvas.draw(), vec![root, b]);
    let again = canvas.create();
    assert_eq!(again, Entity::new(1, 1));
    assert_eq!(canvas.draw(), vec![root, again, b]);
}
