use space_editor::bot_menu::bot_menu;
use space_editor::bot_menu::bot_menu_game;
use space_editor::bot_menu::load_listener;
use space_editor::bot_menu::LoadOutcome;
use space_editor::bot_menu::MenuAction;
use space_editor::bot_menu::PollResult;
use space_editor::bot_menu::UiIntent;
use space_editor::reconcile::ReconcileError;
use space_editor::registry::TypeDescriptor;
use space_editor::registry::TypeRegistry;
use space_editor::scene::ComponentRecord;
use space_editor::scene::SceneDescription;
use space_editor::scene::SceneEntity;
use space_editor::world::Selector;
use space_editor::world::World;
use space_editor::EditorLoader;
use space_editor::EditorSet;
use space_editor::EditorState;

fn registry() -> TypeRegistry {
    let mut reg = TypeRegistry::new();
    reg.register(TypeDescriptor {
        type_id: 1,
        name: "Name".to_string(),
        can_apply: true,
        maps_entities: false,
    });
    reg.register(TypeDescriptor {
        type_id: 2,
        name: "Parent".to_string(),
        can_apply: true,
        maps_entities: true,
    });
    reg
}

fn scene(names: usize) -> SceneDescription {
    let mut entities = Vec::new();
    for i in 0..names {
        entities.push(SceneEntity {
            handle: 100 + i as u64,
            components: vec![ComponentRecord {
                name: "Name".to_string(),
                data: vec![i as u8],
                refs: vec![],
            }],
        });
    }
    SceneDescription { entities }
}

#[test]
fn an_idle_loader_does_nothing() {
    let reg = registry();
    let mut world = World::new();
    world.spawn();
    let mut loader = EditorLoader::default();
    assert!(!loader.is_pending());
    let outcome = load_listener(&mut loader, 1, PollResult::Ready(scene(2)), &reg, &mut world);
    assert!(matches!(outcome, LoadOutcome::Idle));
    assert_eq!(world.len(), 1);
    assert!(!loader.is_pending());
}

#[test]
fn a_pending_loader_waits_until_the_asset_is_there() {
    let reg = registry();
    let mut world = World::new();
    let mut loader = EditorLoader::default();
    loader.request(8);
    assert!(loader.is_pending());
    assert!(matches!(load_listener(&mut loader, 8, PollResult::NotReady, &reg, &mut world), LoadOutcome::Waiting));
    assert_eq!(loader.scene, Some(8));
    assert!(matches!(load_listener(&mut loader, 8, PollResult::Failed, &reg, &mut world), LoadOutcome::Failed));
    assert_eq!(loader.scene, Some(8));
    assert_eq!(world.len(), 0);
    let outcome = load_listener(&mut loader, 8, PollResult::Ready(scene(2)), &reg, &mut world);
    match outcome {
        LoadOutcome::Reconciled(report) => {
            assert_eq!(report.mapping, vec![(100, 0), (101, 1)]);
            assert!(report.skipped.is_empty());
        }
        _ => panic!("the description was not merged"),
    }
    assert_eq!(loader.scene, None);
    assert_eq!(world.select(Selector::Prefab), vec![0, 1]);
    // the description is consumed once: the next tick has no request
    assert!(matches!(load_listener(&mut loader, 8, PollResult::Ready(scene(2)), &reg, &mut world), LoadOutcome::Idle));
    assert_eq!(world.select(Selector::Prefab), vec![0, 1]);
}

#[test]
fn a_replaced_request_discards_the_earlier_answer() {
    let reg = registry();
    let mut world = World::new();
    let mut loader = EditorLoader::default();
    loader.request(1);
    loader.request(2);
    assert_eq!(loader.scene, Some(2));
    let outcome = load_listener(&mut loader, 1, PollResult::Ready(scene(3)), &reg, &mut world);
    assert!(matches!(outcome, LoadOutcome::Superseded));
    assert_eq!(world.len(), 0);
    assert_eq!(loader.scene, Some(2));
    let outcome = load_listener(&mut loader, 2, PollResult::Ready(scene(1)), &reg, &mut world);
    assert!(matches!(outcome, LoadOutcome::Reconciled(_)));
    assert_eq!(world.len(), 1);
}

#[test]
fn a_cancelled_request_is_not_consumed() {
    let reg = registry();
    let mut world = World::new();
    let mut loader = EditorLoader { scene: Some(4) };
    loader.cancel();
    assert_eq!(loader.scene, None);
    let outcome = load_listener(&mut loader, 4, PollResult::Ready(scene(3)), &reg, &mut world);
    assert!(matches!(outcome, LoadOutcome::Idle));
    assert_eq!(world.len(), 0);
}

#[test]
fn an_unreadable_description_is_consumed_and_changes_nothing() {
    let reg = registry();
    let mut world = World::new();
    let mut loader = EditorLoader::default();
    loader.request(1);
    load_listener(&mut loader, 1, PollResult::Ready(scene(2)), &reg, &mut world);
    loader.request(2);
    let broken = SceneDescription {
        entities: vec![SceneEntity {
            handle: 1,
            components: vec![ComponentRecord {
                name: "Parent".to_string(),
                data: vec![],
                refs: vec![2],
            }],
        }],
    };
    let outcome = load_listener(&mut loader, 2, PollResult::Ready(broken), &reg, &mut world);
    assert!(matches!(outcome, LoadOutcome::Rejected(ReconcileError::Decode)));
    assert_eq!(loader.scene, None);
    assert_eq!(world.select(Selector::Prefab), vec![0, 1]);
    assert_eq!(world.next_handle(), 2);
}

#[test]
fn load_asks_for_the_scene_file_of_the_path() {
    match bot_menu(UiIntent::RequestLoad("levels/first".to_string())) {
        MenuAction::Load(file) => assert_eq!(file, "levels/first.scn.ron"),
        _ => panic!("no load was asked for"),
    }
    assert!(matches!(bot_menu(UiIntent::RequestLoad(String::new())), MenuAction::Nothing));
}

#[test]
fn save_and_play_are_passed_on() {
    match bot_menu(UiIntent::RequestSave("levels/first".to_string())) {
        MenuAction::Save(path) => assert_eq!(path, "levels/first"),
        _ => panic!("no save was asked for"),
    }
    assert!(matches!(bot_menu(UiIntent::RequestSave(String::new())), MenuAction::Save(_)));
    assert!(matches!(bot_menu(UiIntent::RequestPlay), MenuAction::Enter(EditorState::GamePrepare)));
}

#[test]
fn pause_leads_back_to_the_editor() {
    assert_eq!(bot_menu_game(true), Some(EditorState::Editor));
    assert_eq!(bot_menu_game(false), None);
}

#[test]
fn the_game_is_the_mode_at_startup() {
    assert_eq!(EditorState::default(), EditorState::Game);
    assert_ne!(EditorState::Editor, EditorState::GamePrepare);
    assert_ne!(EditorSet::Editor, EditorSet::Game);
}
