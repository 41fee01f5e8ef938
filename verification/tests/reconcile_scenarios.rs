use space_editor::reconcile::is_readable;
use space_editor::reconcile::reconcile;
use space_editor::reconcile::ReconcileError;
use space_editor::reconcile::SkipReason;
use space_editor::registry::TypeDescriptor;
use space_editor::registry::TypeRegistry;
use space_editor::scene::ComponentRecord;
use space_editor::scene::SceneDescription;
use space_editor::scene::SceneEntity;
use space_editor::world::Component;
use space_editor::world::Selector;
use space_editor::world::World;

const TRANSFORM: u64 = 10;
const REF: u64 = 20;
const INERT: u64 = 30;

fn registry() -> TypeRegistry {
    let mut reg = TypeRegistry::new();
    assert!(reg.register(TypeDescriptor {
        type_id: TRANSFORM,
        name: "Transform".to_string(),
        can_apply: true,
        maps_entities: false,
    }));
    assert!(reg.register(TypeDescriptor {
        type_id: REF,
        name: "Ref".to_string(),
        can_apply: true,
        maps_entities: true,
    }));
    assert!(reg.register(TypeDescriptor {
        type_id: INERT,
        name: "Inert".to_string(),
        can_apply: false,
        maps_entities: false,
    }));
    reg
}

fn transform(x: u8) -> ComponentRecord {
    ComponentRecord { name: "Transform".to_string(), data: vec![x], refs: vec![] }
}

fn reference(target: u64) -> ComponentRecord {
    ComponentRecord { name: "Ref".to_string(), data: vec![], refs: vec![target] }
}

fn two_entities() -> SceneDescription {
    SceneDescription {
        entities: vec![
            SceneEntity { handle: 1, components: vec![transform(0), reference(2)] },
            SceneEntity { handle: 2, components: vec![transform(5)] },
        ],
    }
}

#[test]
fn forward_reference_scenario() {
    let reg = registry();
    let mut world = World::new();
    let report = reconcile(&two_entities(), &reg, &mut world).unwrap();
    assert_eq!(world.len(), 2);
    assert_eq!(report.mapping, vec![(1, 0), (2, 1)]);
    assert!(report.skipped.is_empty());
    let first = world.get(0).unwrap();
    let second = world.get(1).unwrap();
    assert!(first.is_prefab());
    assert!(second.is_prefab());
    assert_eq!(first.component(TRANSFORM).unwrap().data, vec![0]);
    assert_eq!(second.component(TRANSFORM).unwrap().data, vec![5]);
    assert_eq!(first.component(REF).unwrap().refs, vec![second.handle()]);
    assert!(second.component(REF).is_none());
}

#[test]
fn backward_and_self_references_resolve() {
    let reg = registry();
    let mut world = World::new();
    world.spawn();
    world.spawn();
    world.spawn();
    let scene = SceneDescription {
        entities: vec![
            SceneEntity { handle: 40, components: vec![transform(1)] },
            SceneEntity {
                handle: 41,
                components: vec![ComponentRecord {
                    name: "Ref".to_string(),
                    data: vec![7],
                    refs: vec![40, 41, 42],
                }],
            },
            SceneEntity { handle: 42, components: vec![] },
        ],
    };
    let report = reconcile(&scene, &reg, &mut world).unwrap();
    assert_eq!(report.mapping, vec![(40, 3), (41, 4), (42, 5)]);
    let middle = world.get(4).unwrap();
    assert_eq!(middle.component(REF).unwrap().refs, vec![3, 4, 5]);
    assert_eq!(middle.component(REF).unwrap().data, vec![7]);
    assert!(world.get(5).unwrap().is_prefab());
    assert!(world.get(5).unwrap().components().is_empty());
    assert_eq!(world.next_handle(), 6);
}

#[test]
fn references_of_a_type_that_declares_none_stay_as_recorded() {
    let reg = registry();
    let mut world = World::new();
    world.spawn();
    let scene = SceneDescription {
        entities: vec![SceneEntity {
            handle: 9,
            components: vec![ComponentRecord {
                name: "Transform".to_string(),
                data: vec![],
                refs: vec![9],
            }],
        }],
    };
    reconcile(&scene, &reg, &mut world).unwrap();
    assert_eq!(world.get(1).unwrap().component(TRANSFORM).unwrap().refs, vec![9]);
}

#[test]
fn only_references_that_are_rewritten_must_be_described() {
    let reg = registry();
    let mut world = World::new();
    let scene = SceneDescription {
        entities: vec![SceneEntity {
            handle: 1,
            components: vec![
                ComponentRecord { name: "Transform".to_string(), data: vec![], refs: vec![500] },
                ComponentRecord { name: "Missing".to_string(), data: vec![], refs: vec![501] },
                ComponentRecord { name: "Inert".to_string(), data: vec![], refs: vec![502] },
                reference(1),
            ],
        }],
    };
    assert!(is_readable(&scene, &reg));
    assert!(scene.is_closed_over(&scene.entities[0].components[3]));
    assert!(!scene.is_closed_over(&scene.entities[0].components[0]));
    assert!(scene.defines(1));
    assert!(!scene.defines(500));
    let report = reconcile(&scene, &reg, &mut world).unwrap();
    assert_eq!(report.skipped.len(), 2);
    let e = world.get(0).unwrap();
    assert_eq!(e.component(TRANSFORM).unwrap().refs, vec![500]);
    assert_eq!(e.component(REF).unwrap().refs, vec![0]);
}

#[test]
fn entries_with_one_handle_describe_one_entity() {
    let reg = registry();
    let mut world = World::new();
    let scene = SceneDescription {
        entities: vec![
            SceneEntity { handle: 1, components: vec![transform(1)] },
            SceneEntity { handle: 2, components: vec![transform(2)] },
            SceneEntity { handle: 1, components: vec![reference(2), transform(3)] },
        ],
    };
    let report = reconcile(&scene, &reg, &mut world).unwrap();
    assert_eq!(report.mapping, vec![(1, 0), (2, 1)]);
    assert_eq!(world.len(), 2);
    let first = world.get(0).unwrap();
    assert_eq!(first.components().len(), 2);
    assert_eq!(first.components()[0].type_id, TRANSFORM);
    assert_eq!(first.component(TRANSFORM).unwrap().data, vec![3]);
    assert_eq!(first.component(REF).unwrap().refs, vec![1]);
}

#[test]
fn reload_is_idempotent() {
    let reg = registry();
    let mut world = World::new();
    let unrelated = world.spawn();
    world.insert(unrelated, Component { type_id: TRANSFORM, data: vec![9], refs: vec![] });
    reconcile(&two_entities(), &reg, &mut world).unwrap();
    let count = world.len();
    let marked = world.select(Selector::Prefab);
    assert_eq!(marked, vec![1, 2]);
    let first_data = world.get(1).unwrap().component(TRANSFORM).unwrap().data.clone();
    let first_refs = world.get(1).unwrap().component(REF).unwrap().refs.clone();
    assert_eq!(first_refs, vec![2]);

    let report = reconcile(&two_entities(), &reg, &mut world).unwrap();
    assert_eq!(report.mapping, vec![(1, 3), (2, 4)]);
    assert_eq!(world.len(), count);
    assert_eq!(world.select(Selector::Prefab), vec![3, 4]);
    assert!(!world.contains(1));
    assert!(!world.contains(2));
    assert_eq!(world.get(3).unwrap().component(TRANSFORM).unwrap().data, first_data);
    assert_eq!(world.get(3).unwrap().component(REF).unwrap().refs, vec![4]);
    assert_eq!(world.get(4).unwrap().component(TRANSFORM).unwrap().data, vec![5]);
    assert_eq!(world.get(unrelated).unwrap().component(TRANSFORM).unwrap().data, vec![9]);
}

#[test]
fn entities_outside_the_prefab_are_untouched() {
    let reg = registry();
    let mut world = World::new();
    let root = world.spawn();
    let child = world.spawn();
    assert!(world.set_parent(child, root));
    world.insert(child, Component { type_id: REF, data: vec![1, 2], refs: vec![root, 77] });
    world.insert_auto_child(child, space_editor::world::SceneAutoChild);
    reconcile(&two_entities(), &reg, &mut world).unwrap();
    reconcile(&SceneDescription::new(), &reg, &mut world).unwrap();
    assert_eq!(world.len(), 2);
    let kept = world.get(child).unwrap();
    assert_eq!(kept.handle(), child);
    assert_eq!(kept.parent(), Some(root));
    assert!(kept.is_auto_child());
    assert!(!kept.is_prefab());
    assert_eq!(kept.components().len(), 1);
    assert_eq!(kept.component(REF).unwrap().data, vec![1, 2]);
    assert_eq!(kept.component(REF).unwrap().refs, vec![root, 77]);
    assert!(world.get(root).unwrap().components().is_empty());
}

#[test]
fn unmarked_descendants_of_prefab_content_go_with_it() {
    let reg = registry();
    let mut world = World::new();
    reconcile(&two_entities(), &reg, &mut world).unwrap();
    let child = world.spawn();
    let grandchild = world.spawn();
    let unrelated = world.spawn();
    assert!(world.set_parent(child, 0));
    assert!(world.set_parent(grandchild, child));
    assert!(!world.get(grandchild).unwrap().is_prefab());
    reconcile(&two_entities(), &reg, &mut world).unwrap();
    assert!(!world.contains(child));
    assert!(!world.contains(grandchild));
    assert!(world.contains(unrelated));
    assert_eq!(world.select(Selector::Prefab), vec![5, 6]);
    assert_eq!(world.len(), 3);
}

#[test]
fn dangling_reference_is_a_decode_failure() {
    let reg = registry();
    let mut world = World::new();
    let unrelated = world.spawn();
    world.insert(unrelated, Component { type_id: TRANSFORM, data: vec![9], refs: vec![] });
    let scene = SceneDescription {
        entities: vec![SceneEntity { handle: 1, components: vec![reference(7)] }],
    };
    assert!(!is_readable(&scene, &reg));
    assert_eq!(reconcile(&scene, &reg, &mut world).err(), Some(ReconcileError::Decode));
    assert_eq!(world.len(), 1);
    assert_eq!(world.next_handle(), 1);
    assert_eq!(world.get(unrelated).unwrap().component(TRANSFORM).unwrap().data, vec![9]);
}

#[test]
fn unresolvable_records_are_skipped() {
    let reg = registry();
    let mut world = World::new();
    let scene = SceneDescription {
        entities: vec![
            SceneEntity {
                handle: 4,
                components: vec![
                    transform(1),
                    ComponentRecord { name: "Missing".to_string(), data: vec![1], refs: vec![] },
                    reference(4),
                    ComponentRecord { name: "Inert".to_string(), data: vec![], refs: vec![] },
                ],
            },
            SceneEntity { handle: 5, components: vec![transform(2)] },
        ],
    };
    let report = reconcile(&scene, &reg, &mut world).unwrap();
    assert_eq!(report.skipped.len(), 2);
    assert_eq!(report.skipped[0].entity, 0);
    assert_eq!(report.skipped[0].component, 1);
    assert_eq!(report.skipped[0].reason, SkipReason::UnresolvableType);
    assert_eq!(report.skipped[1].component, 3);
    assert_eq!(report.skipped[1].reason, SkipReason::UnresolvableCapability);
    let a = world.get(0).unwrap();
    assert_eq!(a.components().len(), 2);
    assert_eq!(a.component(TRANSFORM).unwrap().data, vec![1]);
    assert_eq!(a.component(REF).unwrap().refs, vec![0]);
    assert!(a.component(INERT).is_none());
    assert_eq!(world.get(1).unwrap().component(TRANSFORM).unwrap().data, vec![2]);
}

#[test]
fn empty_description_clears_prefab_content() {
    let reg = registry();
    let mut world = World::new();
    let unrelated = world.spawn();
    reconcile(&two_entities(), &reg, &mut world).unwrap();
    let child = world.spawn();
    assert!(world.set_parent(child, 1));
    assert_eq!(world.len(), 4);
    reconcile(&SceneDescription::new(), &reg, &mut world).unwrap();
    assert_eq!(world.len(), 1);
    assert!(world.contains(unrelated));
    assert!(!world.contains(child));
    world.despawn(Selector::Handle(unrelated));
    assert_eq!(world.len(), 0);
}
