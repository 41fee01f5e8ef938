use space_editor::commands::Command;
use space_editor::commands::CommandQueue;
use space_editor::spawn::scene_hook;
use space_editor::spawn::spawn_scene;
use space_editor::spawn::GltfPrefab;
use space_editor::spawn::SpatialDefaults;
use space_editor::world::Component;
use space_editor::world::PrefabMarker;
use space_editor::world::SceneAutoChild;
use space_editor::world::Selector;
use space_editor::world::World;

const VISIBILITY: u64 = 1;
const TRANSFORM: u64 = 2;

fn defaults() -> SpatialDefaults {
    SpatialDefaults {
        visibility: Component { type_id: VISIBILITY, data: vec![1], refs: vec![] },
        transform: Component { type_id: TRANSFORM, data: vec![0, 0, 0], refs: vec![] },
    }
}

fn prefab(path: &str, scene: &str) -> GltfPrefab {
    GltfPrefab { path: path.to_string(), scene: scene.to_string() }
}

#[test]
fn spawn_hands_out_growing_handles() {
    let mut world = World::new();
    assert_eq!(world.next_handle(), 0);
    assert_eq!(world.spawn(), 0);
    assert_eq!(world.spawn(), 1);
    world.despawn(Selector::Handle(1));
    assert_eq!(world.spawn(), 2);
    assert_eq!(world.len(), 2);
    assert_eq!(world.at(0).handle(), 0);
    assert_eq!(world.at(1).handle(), 2);
    assert!(world.get(1).is_none());
    let blank = world.get(2).unwrap();
    assert!(!blank.is_prefab());
    assert!(!blank.is_auto_child());
    assert_eq!(blank.parent(), None);
    assert!(blank.scene().is_none());
    assert!(blank.components().is_empty());
}

#[test]
fn insert_replaces_the_component_of_its_type() {
    let mut world = World::new();
    let e = world.spawn();
    assert!(world.insert(e, Component { type_id: 7, data: vec![1], refs: vec![4] }));
    assert!(world.insert(e, Component { type_id: 8, data: vec![2], refs: vec![] }));
    assert!(world.insert(e, Component { type_id: 7, data: vec![3], refs: vec![] }));
    let record = world.get(e).unwrap();
    assert_eq!(record.components().len(), 2);
    assert_eq!(record.components()[0].type_id, 7);
    assert_eq!(record.components()[0].data, vec![3]);
    assert!(record.components()[0].refs.is_empty());
    assert_eq!(record.component(8).unwrap().data, vec![2]);
    assert!(record.component(9).is_none());
    assert!(!world.insert(5, Component { type_id: 7, data: vec![], refs: vec![] }));
    assert_eq!(world.len(), 1);
}

#[test]
fn a_parent_is_alive_and_older_than_its_child() {
    let mut world = World::new();
    let a = world.spawn();
    let b = world.spawn();
    assert!(!world.set_parent(a, b));
    assert!(!world.set_parent(a, a));
    assert!(!world.set_parent(b, 9));
    assert!(!world.set_parent(9, a));
    assert_eq!(world.get(b).unwrap().parent(), None);
    assert!(world.set_parent(b, a));
    assert_eq!(world.get(b).unwrap().parent(), Some(a));
    assert_eq!(world.get(a).unwrap().parent(), None);
}

#[test]
fn despawn_takes_the_descendants_along() {
    let mut world = World::new();
    let root = world.spawn();
    let other = world.spawn();
    let child = world.spawn();
    let grandchild = world.spawn();
    let nephew = world.spawn();
    world.set_parent(child, root);
    world.set_parent(grandchild, child);
    world.set_parent(nephew, other);
    world.despawn(Selector::Handle(root));
    assert_eq!(world.len(), 2);
    assert!(world.contains(other));
    assert!(world.contains(nephew));
    world.despawn(Selector::Handle(99));
    assert_eq!(world.len(), 2);
    world.insert_marker(nephew, PrefabMarker);
    world.despawn(Selector::Prefab);
    assert_eq!(world.len(), 1);
    assert!(world.contains(other));
}

#[test]
fn select_lists_what_a_selector_picks() {
    let mut world = World::new();
    let a = world.spawn();
    let b = world.spawn();
    let c = world.spawn();
    let d = world.spawn();
    assert!(world.insert_marker(a, PrefabMarker));
    assert!(world.insert_marker(c, PrefabMarker));
    assert!(!world.insert_marker(17, PrefabMarker));
    world.set_parent(b, a);
    world.set_parent(c, a);
    world.set_parent(d, b);
    assert!(world.insert_auto_child(c, SceneAutoChild));
    assert!(world.insert_auto_child(d, SceneAutoChild));
    assert_eq!(world.select(Selector::Prefab), vec![a, c]);
    assert_eq!(world.select(Selector::AutoChildOf(a)), vec![c]);
    assert_eq!(world.select(Selector::AutoChildOf(b)), vec![d]);
    assert_eq!(world.select(Selector::Handle(b)), vec![b]);
    assert!(world.select(Selector::Handle(9)).is_empty());
    assert!(Selector::Prefab.matches(world.get(a).unwrap()));
    assert!(!Selector::Prefab.matches(world.get(b).unwrap()));
    assert!(!Selector::AutoChildOf(a).matches(world.get(b).unwrap()));
}

#[test]
fn asset_reference_joins_path_and_scene() {
    assert_eq!(prefab("models/low_poly.gltf", "Scene0").asset_reference(), "models/low_poly.gltf#Scene0");
    assert_eq!(prefab("", "").asset_reference(), "#");
}

#[test]
fn commands_are_applied_in_order_at_the_flush() {
    let mut world = World::new();
    let e = world.spawn();
    let mut queue = CommandQueue::new();
    queue.push(Command::Insert { entity: e, component: Component { type_id: 1, data: vec![1], refs: vec![] } });
    queue.push(Command::SpawnScene { parent: e, asset: "a#b".to_string() });
    queue.push(Command::Insert { entity: e, component: Component { type_id: 1, data: vec![2], refs: vec![] } });
    queue.push(Command::SpawnScene { parent: 40, asset: "c#d".to_string() });
    queue.push(Command::TagAutoChild(e));
    assert_eq!(queue.len(), 5);
    assert_eq!(world.len(), 1);
    assert!(world.get(e).unwrap().components().is_empty());
    queue.flush(&mut world);
    assert_eq!(queue.len(), 0);
    assert_eq!(world.len(), 2);
    assert_eq!(world.get(e).unwrap().component(1).unwrap().data, vec![2]);
    assert!(world.get(e).unwrap().is_auto_child());
    let root = world.get(1).unwrap();
    assert_eq!(root.parent(), Some(e));
    assert!(root.is_auto_child());
    assert_eq!(root.scene().unwrap(), "a#b");
    let mut queue = CommandQueue::new();
    queue.push(Command::Despawn(Selector::Handle(e)));
    queue.flush(&mut world);
    assert_eq!(world.len(), 0);
}

#[test]
fn changing_the_reference_twice_leaves_one_subtree() {
    let mut world = World::new();
    let unrelated = world.spawn();
    let target = world.spawn();
    let own_child = world.spawn();
    world.set_parent(own_child, target);
    let mut queue = CommandQueue::new();

    assert!(spawn_scene(&mut queue, &world, target, &prefab("a.gltf", "Scene0"), &defaults()));
    assert_eq!(queue.len(), 4);
    assert_eq!(world.len(), 3);
    queue.flush(&mut world);
    let root_a = world.select(Selector::AutoChildOf(target));
    assert_eq!(root_a, vec![3]);
    assert_eq!(world.get(3).unwrap().scene().unwrap(), "a.gltf#Scene0");
    // what the instantiation of the scene produces hangs below the root
    let part = world.spawn();
    world.set_parent(part, 3);
    scene_hook(&mut queue, part);
    queue.flush(&mut world);
    assert!(world.get(part).unwrap().is_auto_child());

    assert!(spawn_scene(&mut queue, &world, target, &prefab("b.gltf", "Scene1"), &defaults()));
    assert_eq!(queue.len(), 2);
    queue.flush(&mut world);
    let part_b = world.spawn();
    world.set_parent(part_b, 5);
    world.insert_auto_child(part_b, SceneAutoChild);

    assert!(spawn_scene(&mut queue, &world, target, &prefab("b.gltf", "Scene1"), &defaults()));
    queue.flush(&mut world);

    let roots = world.select(Selector::AutoChildOf(target));
    assert_eq!(roots, vec![7]);
    let root = world.get(7).unwrap();
    assert_eq!(root.scene().unwrap(), "b.gltf#Scene1");
    assert!(root.is_auto_child());
    assert_eq!(root.parent(), Some(target));
    assert!(!world.contains(3));
    assert!(!world.contains(part));
    assert!(!world.contains(5));
    assert!(!world.contains(part_b));
    assert!(world.contains(unrelated));
    assert!(world.contains(own_child));
    assert_eq!(world.len(), 4);
    let container = world.get(target).unwrap();
    assert_eq!(container.component(VISIBILITY).unwrap().data, vec![1]);
    assert_eq!(container.component(TRANSFORM).unwrap().data, vec![0, 0, 0]);
}

#[test]
fn defaults_are_inserted_only_where_they_are_missing() {
    let mut world = World::new();
    let target = world.spawn();
    world.insert(target, Component { type_id: TRANSFORM, data: vec![4, 5, 6], refs: vec![] });
    let mut queue = CommandQueue::new();
    assert!(spawn_scene(&mut queue, &world, target, &prefab("a.gltf", "Scene0"), &defaults()));
    assert_eq!(queue.len(), 3);
    queue.flush(&mut world);
    let container = world.get(target).unwrap();
    assert_eq!(container.component(TRANSFORM).unwrap().data, vec![4, 5, 6]);
    assert_eq!(container.component(VISIBILITY).unwrap().data, vec![1]);
}

#[test]
fn take_hands_out_the_commands_in_order() {
    let mut queue = CommandQueue::new();
    queue.push(Command::TagAutoChild(4));
    queue.push(Command::Despawn(Selector::Handle(2)));
    queue.push(Command::SpawnScene { parent: 1, asset: "x#y".to_string() });
    let taken = queue.take();
    assert_eq!(queue.len(), 0);
    assert_eq!(taken.len(), 3);
    assert!(matches!(taken[0], Command::TagAutoChild(4)));
    assert!(matches!(taken[1], Command::Despawn(Selector::Handle(2))));
    match &taken[2] {
        Command::SpawnScene { parent, asset } => {
            assert_eq!(*parent, 1);
            assert_eq!(asset, "x#y");
        }
        _ => panic!("the third command is not the spawn"),
    }
    assert!(queue.take().is_empty());
}

#[test]
fn nothing_is_recorded_for_a_dead_target() {
    let world = World::new();
    let mut queue = CommandQueue::new();
    assert!(!spawn_scene(&mut queue, &world, 3, &prefab("a.gltf", "Scene0"), &defaults()));
    assert_eq!(queue.len(), 0);
}

#[test]
fn a_component_is_cloned_with_all_it_holds() {
    let c = Component { type_id: 3, data: vec![1, 2], refs: vec![9] };
    let d = c.clone();
    assert_eq!(d.type_id, 3);
    assert_eq!(d.data, vec![1, 2]);
    assert_eq!(d.refs, vec![9]);
}
