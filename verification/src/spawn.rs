use crate::commands::flushed;
use crate::commands::Command;
use crate::commands::CommandQueue;
use crate::commands::CommandView;
use crate::world::has_type;
use crate::world::lemma_despawned;
use crate::world::lemma_entity_at;
use crate::world::lemma_with_component_wf;
use crate::world::lemma_with_scene_root_wf;
use crate::world::selected_among;
use crate::world::Component;
use crate::world::ComponentView;
use crate::world::LiveHandle;
use crate::world::Selector;
use crate::world::World;
use crate::world::WorldView;
use vstd::prelude::*;
use vstd::string::StringExecFns;

verus! {

/// The asset-reference component of a container entity: the file of a
/// scene collection and the name of one scene in it.
#[derive(Clone, Debug, PartialEq, Eq)]
pub struct GltfPrefab {
    pub path: String,
    pub scene: String,
}

/// The engine's default values of the two components that an entity needs
/// to be placed and shown.
#[derive(Clone, Debug, PartialEq, Eq)]
pub struct SpatialDefaults {
    pub visibility: Component,
    pub transform: Component,
}

/// The asset reference that the loader is asked for: the path, `#`, and the
/// scene's name.
pub open spec fn asset_reference(path: Seq<char>, scene: Seq<char>) -> Seq<char> {
    path + seq!['#'] + scene
}

/// The commands that mount a scene under `target`: despawn the
/// auto-generated children that it has, spawn the root of the scene under
/// it, and give it each default component whose type it lacks. Nothing is
/// recorded for a target that is not alive.
pub open spec fn spawn_commands(
    w: WorldView,
    target: u64,
    asset: Seq<char>,
    visibility: ComponentView,
    transform: ComponentView,
) -> Seq<CommandView> {
    if !w.contains(target) {
        Seq::empty()
    } else {
        seq![
            CommandView::Despawn(Selector::AutoChildOf(target)),
            CommandView::SpawnScene { parent: target, asset },
        ] + (if has_type(w.entity(target).components, visibility.type_id) {
            Seq::empty()
        } else {
            seq![CommandView::Insert { entity: target, component: visibility }]
        }) + (if has_type(w.entity(target).components, transform.type_id) {
            Seq::empty()
        } else {
            seq![CommandView::Insert { entity: target, component: transform }]
        })
    }
}

impl GltfPrefab {
    /// The asset reference of the prefab's scene.
    pub fn asset_reference(&self) -> (asset: String)
        ensures
            asset@ == asset_reference(self.path@, self.scene@),
    {
        let mut asset = self.path.clone();
        proof {
            reveal_strlit("#");
        }
        asset.append("#");
        assert("#"@ =~= seq!['#']);
        asset.append(self.scene.as_str());
        asset
    }
}

/// Records what mounts the scene of `prefab` under the entity `target`,
/// whose asset reference has just changed. Returns whether `target` is
/// alive; for a dead one nothing is recorded.
pub fn spawn_scene(
    commands: &mut CommandQueue,
    world: &World,
    target: LiveHandle,
    prefab: &GltfPrefab,
    defaults: &SpatialDefaults,
) -> (alive: bool)
    requires
        world@.wf(),
    ensures
        alive == world@.contains(target),
        final(commands)@ == old(commands)@ + spawn_commands(
            world@,
            target,
            asset_reference(prefab.path@, prefab.scene@),
            defaults.visibility@,
            defaults.transform@,
        ),
{
    let ghost planned = spawn_commands(
        world@,
        target,
        asset_reference(prefab.path@, prefab.scene@),
        defaults.visibility@,
        defaults.transform@,
    );
    match world.get(target) {
        Some(e) => {
            let lacks_visibility = e.component(defaults.visibility.type_id).is_none();
            let lacks_transform = e.component(defaults.transform.type_id).is_none();
            commands.push(Command::Despawn(Selector::AutoChildOf(target)));
            commands.push(Command::SpawnScene { parent: target, asset: prefab.asset_reference() });
            if lacks_visibility {
                commands.push(
                    Command::Insert { entity: target, component: defaults.visibility.clone() },
                );
            }
            if lacks_transform {
                commands.push(
                    Command::Insert { entity: target, component: defaults.transform.clone() },
                );
            }
            assert(commands@ =~= old(commands)@ + planned);
            true
        },
        None => {
            assert(commands@ =~= old(commands)@ + planned);
            false
        },
    }
}

/// The hook that runs for each entity that the instantiation of a scene
/// produces: it records that the entity is to be tagged as auto-generated.
pub fn scene_hook(commands: &mut CommandQueue, entity: LiveHandle)
    ensures
        final(commands)@ == old(commands)@.push(CommandView::TagAutoChild(entity)),
{
    commands.push(Command::TagAutoChild(entity));
}


/// An entity is no descendant of its own auto-generated children: neither
/// it nor anything older is despawned with them.
proof fn lemma_elders_stay(w: WorldView, target: u64, h: u64)
    requires
        w.wf(),
        h <= target,
    ensures
        !w.in_subtree(Selector::AutoChildOf(target), h),
    decreases h,
{
    if w.contains(h) {
        let i = w.position(h);
        assert(w.entities[i].handle == h);
        match w.entity(h).parent {
            Some(p) => {
                if p < h {
                    lemma_elders_stay(w, target, p);
                }
            },
            None => {},
        }
    }
}

/// Where `sel` picks none of the first `n` entities, it selects none.
proof fn lemma_selects_none(w: WorldView, sel: Selector, n: int)
    requires
        0 <= n <= w.entities.len(),
        forall|i: int| 0 <= i < n ==> !sel.selects(#[trigger] w.entities[i]),
    ensures
        selected_among(w, sel, n) == Seq::<u64>::empty(),
    decreases n,
{
    if n > 0 {
        lemma_selects_none(w, sel, n - 1);
    }
}

/// Two worlds whose entities agree in handle, tag and parent select alike.
proof fn lemma_selects_alike(a: WorldView, b: WorldView, sel: Selector, n: int)
    requires
        a.entities.len() == b.entities.len(),
        0 <= n <= a.entities.len(),
        forall|i: int|
            0 <= i < n ==> sel.selects(#[trigger] a.entities[i]) == sel.selects(b.entities[i])
                && a.entities[i].handle == b.entities[i].handle,
    ensures
        selected_among(a, sel, n) == selected_among(b, sel, n),
    decreases n,
{
    if n > 0 {
        lemma_selects_alike(a, b, sel, n - 1);
    }
}

/// What the insert of a default component leaves as it was.
proof fn lemma_insert_keeps_shape(w: WorldView, target: u64, c: ComponentView, sel: Selector)
    requires
        w.wf(),
    ensures
        w.with_component(target, c).wf(),
        w.with_component(target, c).next == w.next,
        w.with_component(target, c).selected(sel) == w.selected(sel),
        forall|x: u64| w.with_component(target, c).contains(x) == w.contains(x),
        forall|x: u64|
            w.contains(x) ==> {
                let e = #[trigger] w.with_component(target, c).entity(x);
                &&& e.handle == x
                &&& e.scene == w.entity(x).scene
                &&& e.auto_child == w.entity(x).auto_child
                &&& e.parent == w.entity(x).parent
            },
{
    let u = w.with_component(target, c);
    lemma_with_component_wf(w, target, c);
    lemma_selects_alike(u, w, sel, w.entities.len() as int);
    assert forall|x: u64| w.contains(x) implies {
        let e = #[trigger] u.entity(x);
        &&& e.handle == x
        &&& e.scene == w.entity(x).scene
        &&& e.auto_child == w.entity(x).auto_child
        &&& e.parent == w.entity(x).parent
    } by {
        let i = w.position(x);
        assert(w.entities[i].handle == x);
        lemma_entity_at(w, i);
        assert(u.entities[i].handle == x);
        lemma_entity_at(u, i);
    }
}

/// The world after the two structural commands of a mount: the earlier
/// auto-generated subtrees of `target` are gone and the new root is its
/// only auto-generated child.
proof fn lemma_mount(w: WorldView, target: u64, asset: Seq<char>)
    requires
        w.wf(),
        w.contains(target),
        w.next < u64::MAX,
    ensures
        ({
            let sel = Selector::AutoChildOf(target);
            let after = w.despawned(sel).with_scene_root(target, asset);
            &&& after.wf()
            &&& after.next == w.next + 1
            &&& after.contains(target)
            &&& after.contains(w.next)
            &&& after.entity(w.next).scene == Some(asset)
            &&& after.entity(w.next).auto_child
            &&& after.entity(w.next).parent == Some(target)
            &&& after.entity(target).components == w.entity(target).components
            &&& after.selected(sel) == seq![w.next]
            &&& forall|h: u64| w.in_subtree(sel, h) ==> !after.contains(h)
        }),
{
    let sel = Selector::AutoChildOf(target);
    let cleared = w.despawned(sel);
    let after = cleared.with_scene_root(target, asset);
    let n = cleared.entities.len() as int;
    lemma_despawned(w, sel);
    lemma_elders_stay(w, target, target);
    assert(cleared.contains(target));
    lemma_with_scene_root_wf(cleared, target, asset);
    assert(after.entities[n].handle == w.next);
    lemma_entity_at(after, n);
    let ti = cleared.position(target);
    assert(cleared.entities[ti].handle == target);
    assert(after.entities[ti] == cleared.entities[ti]);
    lemma_entity_at(after, ti);
    lemma_entity_at(cleared, ti);
    assert forall|i: int| 0 <= i < n implies !sel.selects(#[trigger] after.entities[i]) by {
        assert(after.entities[i] == cleared.entities[i]);
        lemma_entity_at(cleared, i);
        let h = cleared.entities[i].handle;
        assert(cleared.contains(h));
        assert(cleared.entity(h) == w.entity(h));
    }
    lemma_selects_none(after, sel, n);
    assert(after.selected(sel) =~= seq![w.next]);
    assert forall|h: u64| w.in_subtree(sel, h) implies !after.contains(h) by {
        let i = w.position(h);
        assert(w.entities[i].handle == h);
        assert(!cleared.contains(h));
    }
}

/// Re-spawn leaves one instantiation. After the commands of a mount have
/// been flushed, the target has exactly one auto-generated child: the root
/// of the requested scene, spawned by this mount. Every entity of the
/// subtrees that hung there before is gone, and the target carries both
/// default components.
pub proof fn lemma_mount_leaves_one_child(
    w: WorldView,
    target: u64,
    asset: Seq<char>,
    visibility: ComponentView,
    transform: ComponentView,
)
    requires
        w.wf(),
        w.contains(target),
        w.next < u64::MAX,
    ensures
        ({
            let sel = Selector::AutoChildOf(target);
            let commands = spawn_commands(w, target, asset, visibility, transform);
            let after = flushed(w, commands, commands.len() as int);
            &&& after.wf()
            &&& after.contains(target)
            &&& after.selected(sel) == seq![w.next]
            &&& after.contains(w.next)
            &&& after.entity(w.next).scene == Some(asset)
            &&& after.entity(w.next).auto_child
            &&& forall|h: u64| w.in_subtree(sel, h) ==> !after.contains(h)
        }),
{
    let sel = Selector::AutoChildOf(target);
    let commands = spawn_commands(w, target, asset, visibility, transform);
    let mounted = w.despawned(sel).with_scene_root(target, asset);
    lemma_mount(w, target, asset);
    lemma_despawned(w, sel);
    lemma_elders_stay(w, target, target);
    assert(flushed(w, commands, 0) == w);
    assert(flushed(w, commands, 1) == w.despawned(sel));
    assert(flushed(w, commands, 2) == mounted);
    let lacks_visibility = !has_type(w.entity(target).components, visibility.type_id);
    let lacks_transform = !has_type(w.entity(target).components, transform.type_id);
    let fresh = w.next;
    if lacks_visibility {
        let shown = mounted.with_component(target, visibility);
        lemma_insert_keeps_shape(mounted, target, visibility, sel);
        assert(flushed(w, commands, 3) == shown);
        assert(shown.entity(fresh).scene == Some(asset));
        if lacks_transform {
            let placed = shown.with_component(target, transform);
            lemma_insert_keeps_shape(shown, target, transform, sel);
            assert(flushed(w, commands, 4) == placed);
            assert(placed.entity(fresh).scene == Some(asset));
            assert(commands.len() == 4);
            assert forall|h: u64| w.in_subtree(sel, h) implies !placed.contains(h) by {
                assert(!mounted.contains(h));
                assert(shown.contains(h) == mounted.contains(h));
            }
        } else {
            assert(commands.len() == 3);
            assert forall|h: u64| w.in_subtree(sel, h) implies !shown.contains(h) by {
                assert(!mounted.contains(h));
            }
        }
    } else {
        if lacks_transform {
            let placed = mounted.with_component(target, transform);
            lemma_insert_keeps_shape(mounted, target, transform, sel);
            assert(flushed(w, commands, 3) == placed);
            assert(placed.entity(fresh).scene == Some(asset));
            assert(commands.len() == 3);
            assert forall|h: u64| w.in_subtree(sel, h) implies !placed.contains(h) by {
                assert(!mounted.contains(h));
            }
        } else {
            assert(commands.len() == 2);
        }
    }
}

} // verus!
