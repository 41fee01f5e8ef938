use crate::reconcile::mapping_of;
use crate::reconcile::reconcile;
use crate::reconcile::reconciled;
use crate::reconcile::scene_handles;
use crate::reconcile::scene_readable;
use crate::reconcile::skipped;
use crate::reconcile::ReconcileError;
use crate::reconcile::ReconcileReport;
use crate::registry::registry_wf;
use crate::registry::TypeRegistry;
use crate::scene::SceneDescription;
use crate::state::EditorState;
use crate::world::World;
use vstd::prelude::*;
use vstd::string::StringExecFns;

verus! {

/// The slot for the load request: the scene asset that has been asked for
/// and not yet consumed, if there is one. The loader is idle while `scene`
/// is `None`, and pending while it holds the handle of the requested asset.
#[derive(Clone, Copy, Debug, PartialEq, Eq)]
pub struct EditorLoader {
    pub scene: Option<u64>,
}

impl Default for EditorLoader {
    /// An idle loader.
    fn default() -> (loader: EditorLoader)
        ensures
            loader.scene is None,
    {
        EditorLoader { scene: None }
    }
}

impl EditorLoader {
    /// Whether a request is outstanding.
    pub fn is_pending(&self) -> (pending: bool)
        ensures
            pending == self.scene is Some,
    {
        self.scene.is_some()
    }

    /// Requests the asset `asset`. A request that was outstanding is
    /// replaced: what may still arrive for it will be discarded.
    pub fn request(&mut self, asset: u64)
        ensures
            final(self).scene == Some(asset),
    {
        self.scene = Some(asset);
    }

    /// Withdraws the outstanding request, if there is one.
    pub fn cancel(&mut self)
        ensures
            final(self).scene is None,
    {
        self.scene = None;
    }
}

/// What the asset cache answers when it is polled for a scene.
#[derive(Clone, Debug, PartialEq, Eq)]
pub enum PollResult {
    /// The asset is not available yet.
    NotReady,
    /// The asset is loaded: its scene description.
    Ready(SceneDescription),
    /// The asset could not be loaded.
    Failed,
}

/// What one tick of the loader did.
#[derive(Clone, Debug, PartialEq, Eq)]
pub enum LoadOutcome {
    /// No request was outstanding.
    Idle,
    /// The answer was for a request that has been replaced or withdrawn,
    /// and was discarded.
    Superseded,
    /// The asset is not available yet; the request stays outstanding.
    Waiting,
    /// The cache has nothing to hand on; the request stays outstanding.
    Failed,
    /// The description was handed to the engine, and merged.
    Reconciled(ReconcileReport),
    /// The description was handed to the engine, which refused it.
    Rejected(ReconcileError),
}

/// One tick of the loader. `poll` is what the asset cache answered for
/// the asset `asset`.
///
/// An answer for another asset than the requested one changes nothing.
/// While the requested asset is not available the request stays
/// outstanding. Once it is, the request is cleared and the description is
/// handed to the engine, once: the world is then the reconciled one, or, for
/// a description that cannot be read, the world as it was.
pub fn load_listener(
    loader: &mut EditorLoader,
    asset: u64,
    poll: PollResult,
    registry: &TypeRegistry,
    world: &mut World,
) -> (outcome: LoadOutcome)
    requires
        old(world)@.wf(),
        registry_wf(registry@),
        poll matches PollResult::Ready(d) ==> old(world)@.next + d@.len() <= u64::MAX,
    ensures
        final(world)@.wf(),
        old(loader).scene is None ==> outcome is Idle && final(loader).scene is None
            && final(world)@ == old(world)@,
        old(loader).scene matches Some(wanted) && wanted != asset ==> outcome is Superseded
            && final(loader).scene == old(loader).scene && final(world)@ == old(world)@,
        old(loader).scene == Some(asset) ==> match poll {
            PollResult::NotReady => outcome is Waiting && final(loader).scene == Some(asset)
                && final(world)@ == old(world)@,
            PollResult::Failed => outcome is Failed && final(loader).scene == Some(asset)
                && final(world)@ == old(world)@,
            PollResult::Ready(d) => final(loader).scene is None && (if scene_readable(d@, registry@) {
                &&& final(world)@ == reconciled(old(world)@, d@, registry@)
                &&& outcome matches LoadOutcome::Reconciled(report)
                &&& report.mapping@ == mapping_of(scene_handles(d@), old(world)@.next)
                &&& report.skipped@ == skipped(d@, registry@, d@.len() as int)
            } else {
                &&& final(world)@ == old(world)@
                &&& outcome matches LoadOutcome::Rejected(e)
                &&& e == ReconcileError::Decode
            }),
        },
{
    match loader.scene {
        None => LoadOutcome::Idle,
        Some(wanted) => {
            if wanted != asset {
                return LoadOutcome::Superseded;
            }
            match poll {
                PollResult::NotReady => LoadOutcome::Waiting,
                PollResult::Failed => LoadOutcome::Failed,
                PollResult::Ready(description) => {
                    loader.scene = None;
                    match reconcile(&description, registry, world) {
                        Ok(report) => LoadOutcome::Reconciled(report),
                        Err(e) => LoadOutcome::Rejected(e),
                    }
                },
            }
        },
    }
}

/// What the user asks of the editor through its bottom panel.
#[derive(Clone, Debug, PartialEq, Eq)]
pub enum UiIntent {
    /// Save the prefab under this path.
    RequestSave(String),
    /// Load the prefab saved under this path.
    RequestLoad(String),
    /// Run the game.
    RequestPlay,
}

/// What the editor does on an intent.
#[derive(Clone, Debug, PartialEq, Eq)]
pub enum MenuAction {
    /// Nothing.
    Nothing,
    /// Save the prefab under this path.
    Save(String),
    /// Ask the asset loader for the scene file of this name.
    Load(String),
    /// Enter this mode.
    Enter(EditorState),
}

/// What a [`MenuAction`] stands for in contracts.
pub enum MenuActionView {
    Nothing,
    Save(Seq<char>),
    Load(Seq<char>),
    Enter(EditorState),
}

impl View for MenuAction {
    type V = MenuActionView;

    open spec fn view(&self) -> MenuActionView {
        match self {
            MenuAction::Nothing => MenuActionView::Nothing,
            MenuAction::Save(path) => MenuActionView::Save(path@),
            MenuAction::Load(file) => MenuActionView::Load(file@),
            MenuAction::Enter(state) => MenuActionView::Enter(*state),
        }
    }
}

/// The name of the scene file of the prefab saved under `path`.
pub open spec fn scene_file(path: Seq<char>) -> Seq<char> {
    path + seq!['.', 's', 'c', 'n', '.', 'r', 'o', 'n']
}

/// The bottom panel of the editor. A save is passed on with its path; a
/// load asks for the scene file of the path, unless the path is empty, in
/// which case nothing happens; play enters the mode in which the game is
/// prepared.
pub fn bot_menu(intent: UiIntent) -> (action: MenuAction)
    ensures
        action@ == (match intent {
            UiIntent::RequestSave(path) => MenuActionView::Save(path@),
            UiIntent::RequestLoad(path) => if path@.len() == 0 {
                MenuActionView::Nothing
            } else {
                MenuActionView::Load(scene_file(path@))
            },
            UiIntent::RequestPlay => MenuActionView::Enter(EditorState::GamePrepare),
        }),
{
    match intent {
        UiIntent::RequestSave(path) => MenuAction::Save(path),
        UiIntent::RequestLoad(path) => {
            if path.as_str().is_empty() {
                MenuAction::Nothing
            } else {
                proof {
                    reveal_strlit(".scn.ron");
                }
                assert(".scn.ron"@ =~= seq!['.', 's', 'c', 'n', '.', 'r', 'o', 'n']);
                MenuAction::Load(path.concat(".scn.ron"))
            }
        },
        UiIntent::RequestPlay => MenuAction::Enter(EditorState::GamePrepare),
    }
}

/// The bottom panel while the game runs: its pause button leads back to
/// the editor.
pub fn bot_menu_game(pause_clicked: bool) -> (next: Option<EditorState>)
    ensures
        next == (if pause_clicked {
            Some(EditorState::Editor)
        } else {
            None
        }),
{
    if pause_clicked {
        Some(EditorState::Editor)
    } else {
        None
    }
}

} // verus!
