//! The rules of a prefab editor, stated and proved.
//!
//! A scene description is a list of entities, each a bag of typed
//! components, some of which refer to other entities of the same
//! description. [`reconcile::reconcile`] merges such a description into a
//! live [`world::World`] that may hold unrelated entities and an earlier
//! instantiation of the same prefab: the earlier instantiation goes, fresh
//! entities are allocated, and the references between them are rewritten
//! from scene-local to live handles. The laws that hold of it are proved in
//! [`laws`].
//!
//! Around it stand the registry of component types ([`registry`]), the
//! remap table of one pass ([`remap`]), the slot for the load request and
//! the decisions of the editor's bottom panel ([`bot_menu`]), the queue of
//! deferred structural changes ([`commands`]) and the helper that mounts a
//! scene asset under a container entity ([`spawn`]).

pub mod bot_menu;
pub mod commands;
pub mod laws;
pub mod reconcile;
pub mod registry;
pub mod remap;
pub mod scene;
pub mod spawn;
pub mod state;
pub mod world;

pub use bot_menu::EditorLoader;
pub use spawn::spawn_scene;
pub use state::EditorSet;
pub use state::EditorState;
pub use world::PrefabMarker;
