use vstd::prelude::*;

verus! {

/// A live handle: it names an entity of the running world.
pub type LiveHandle = u64;

/// A typed data record attached to a live entity.
///
/// `refs` holds the record's entity-reference fields as handle bits; `data`
/// holds everything else, opaque to the engine.
#[derive(Debug, PartialEq, Eq)]
pub struct Component {
    pub type_id: u64,
    pub data: Vec<u8>,
    pub refs: Vec<u64>,
}

/// What a [`Component`] stands for in contracts.
pub struct ComponentView {
    pub type_id: u64,
    pub data: Seq<u8>,
    pub refs: Seq<u64>,
}

impl View for Component {
    type V = ComponentView;

    open spec fn view(&self) -> ComponentView {
        ComponentView { type_id: self.type_id, data: self.data@, refs: self.refs@ }
    }
}

impl Clone for Component {
    fn clone(&self) -> (c: Component)
        ensures
            c@ == self@,
    {
        let data = self.data.clone();
        let refs = self.refs.clone();
        assert(data@ =~= self.data@);
        assert(refs@ =~= self.refs@);
        Component { type_id: self.type_id, data, refs }
    }
}

/// The tag of prefab content: the entities that a reconciliation pass owns.
/// Only entities that carry it are shown by the editor.
#[derive(Clone, Copy, Debug, Default, PartialEq, Eq)]
pub struct PrefabMarker;

/// The tag of auto-generated hierarchy children: the entities that the
/// instantiation of a scene asset under a container entity produced.
#[derive(Clone, Copy, Debug, Default, PartialEq, Eq)]
pub struct SceneAutoChild;

/// One live entity: its handle, its two ownership tags, its parent, the
/// scene asset that it is the root of, and its components, at most one of
/// each type.
pub struct EntityRecord {
    handle: LiveHandle,
    prefab: bool,
    auto_child: bool,
    parent: Option<LiveHandle>,
    scene: Option<String>,
    components: Vec<Component>,
}

/// What an [`EntityRecord`] stands for in contracts.
pub struct EntityView {
    pub handle: u64,
    pub prefab: bool,
    pub auto_child: bool,
    pub parent: Option<u64>,
    pub scene: Option<Seq<char>>,
    pub components: Seq<ComponentView>,
}

/// The views of a sequence of components, in order.
pub open spec fn component_views(components: Seq<Component>) -> Seq<ComponentView> {
    components.map_values(|c: Component| c@)
}

/// The views of a sequence of entity records, in order.
pub open spec fn entity_views(entities: Seq<EntityRecord>) -> Seq<EntityView> {
    entities.map_values(|e: EntityRecord| e@)
}

/// Whether some component of `components` has type `type_id`.
pub open spec fn has_type(components: Seq<ComponentView>, type_id: u64) -> bool {
    exists|k: int| 0 <= k < components.len() && (#[trigger] components[k]).type_id == type_id
}

/// The position of a component of type `type_id`, where there is one.
pub open spec fn type_index(components: Seq<ComponentView>, type_id: u64) -> int {
    choose|k: int| 0 <= k < components.len() && (#[trigger] components[k]).type_id == type_id
}

/// No two components share a type.
pub open spec fn distinct_types(components: Seq<ComponentView>) -> bool {
    forall|i: int, j: int|
        0 <= i < j < components.len() ==> (#[trigger] components[i]).type_id != (
        #[trigger] components[j]).type_id
}

/// Apply-or-insert: `c` takes the place of the component of its type, as a
/// whole value, or is attached after the others when there is none.
pub open spec fn with_component(components: Seq<ComponentView>, c: ComponentView) -> Seq<
    ComponentView,
> {
    if has_type(components, c.type_id) {
        components.update(type_index(components, c.type_id), c)
    } else {
        components.push(c)
    }
}

/// A freshly spawned entity: no tag, no parent, no scene, no component.
pub open spec fn blank_entity(handle: u64) -> EntityView {
    EntityView {
        handle,
        prefab: false,
        auto_child: false,
        parent: None,
        scene: None,
        components: Seq::empty(),
    }
}

impl View for EntityRecord {
    type V = EntityView;

    closed spec fn view(&self) -> EntityView {
        EntityView {
            handle: self.handle,
            prefab: self.prefab,
            auto_child: self.auto_child,
            parent: self.parent,
            scene: match self.scene {
                Some(s) => Some(s@),
                None => None,
            },
            components: component_views(self.components@),
        }
    }
}

/// Apply-or-insert keeps the types distinct, and changes the component of
/// `c`'s type only.
pub proof fn lemma_with_component(components: Seq<ComponentView>, c: ComponentView)
    requires
        distinct_types(components),
    ensures
        distinct_types(with_component(components, c)),
        has_type(with_component(components, c), c.type_id),
        with_component(components, c)[type_index(with_component(components, c), c.type_id)]
            == c,
        forall|t: u64|
            t != c.type_id ==> has_type(with_component(components, c), t) == has_type(
                components,
                t,
            ),
        forall|t: u64|
            t != c.type_id && has_type(components, t) ==> with_component(
                components,
                c,
            )[type_index(with_component(components, c), t)] == components[type_index(
                components,
                t,
            )],
{
    let after = with_component(components, c);
    if has_type(components, c.type_id) {
        let k = type_index(components, c.type_id);
        assert(after[k].type_id == c.type_id);
        assert forall|t: u64| t != c.type_id implies has_type(after, t) == has_type(
            components,
            t,
        ) by {
            if has_type(components, t) {
                let j = type_index(components, t);
                assert(after[j].type_id == t);
            }
            if has_type(after, t) {
                let j = type_index(after, t);
                assert(components[j].type_id == t);
            }
        }
    } else {
        assert(after[components.len() as int].type_id == c.type_id);
        assert forall|t: u64| t != c.type_id implies has_type(after, t) == has_type(
            components,
            t,
        ) by {
            if has_type(components, t) {
                let j = type_index(components, t);
                assert(after[j].type_id == t);
            }
            if has_type(after, t) {
                let j = type_index(after, t);
                assert(components[j].type_id == t);
            }
        }
    }
    assert forall|t: u64| t != c.type_id && has_type(components, t) implies after[type_index(
        after,
        t,
    )] == components[type_index(components, t)] by {
        let j = type_index(components, t);
        assert(after[j].type_id == t);
        let j2 = type_index(after, t);
        assert(after[j2].type_id == t);
        assert(j2 == j);
    }
    let kc = type_index(after, c.type_id);
    assert(after[kc].type_id == c.type_id);
}


/// What a [`World`] stands for in contracts: its entities in the order of
/// their handles, and the next handle it will hand out.
pub struct WorldView {
    pub entities: Seq<EntityView>,
    pub next: u64,
}

/// A choice of entities: those that a listing shows, or that a despawn
/// starts from.
#[derive(Clone, Copy, Debug, PartialEq, Eq)]
pub enum Selector {
    /// Every entity that carries the prefab marker.
    Prefab,
    /// The entity with this handle.
    Handle(LiveHandle),
    /// Every child of this entity that is tagged as auto-generated.
    AutoChildOf(LiveHandle),
}

impl Selector {
    /// Whether the selector picks `e`.
    pub open spec fn selects(self, e: EntityView) -> bool {
        match self {
            Selector::Prefab => e.prefab,
            Selector::Handle(h) => e.handle == h,
            Selector::AutoChildOf(p) => e.auto_child && e.parent == Some(p),
        }
    }
}

impl Selector {
    /// Whether the selector picks the entity `e`.
    pub fn matches(&self, e: &EntityRecord) -> (b: bool)
        ensures
            b == self.selects(e@),
    {
        match self {
            Selector::Prefab => e.is_prefab(),
            Selector::Handle(h) => e.handle() == *h,
            Selector::AutoChildOf(p) => {
                e.is_auto_child() && match e.parent() {
                    Some(q) => q == *p,
                    None => false,
                }
            },
        }
    }
}

impl WorldView {
    /// Whether an entity with handle `h` is alive.
    pub open spec fn contains(self, h: u64) -> bool {
        exists|i: int| 0 <= i < self.entities.len() && (#[trigger] self.entities[i]).handle == h
    }

    /// The position of the entity with handle `h`, where it is alive.
    pub open spec fn position(self, h: u64) -> int {
        choose|i: int| 0 <= i < self.entities.len() && (#[trigger] self.entities[i]).handle == h
    }

    /// The entity with handle `h`, where it is alive.
    pub open spec fn entity(self, h: u64) -> EntityView {
        self.entities[self.position(h)]
    }

    /// Handles grow along the sequence and stay below `next`; a parent is
    /// alive and older than its child; an entity has one component per type.
    pub open spec fn wf(self) -> bool {
        &&& forall|i: int|
            0 <= i < self.entities.len() ==> (#[trigger] self.entities[i]).handle < self.next
        &&& forall|i: int, j: int|
            0 <= i < j < self.entities.len() ==> (#[trigger] self.entities[i]).handle < (
            #[trigger] self.entities[j]).handle
        &&& forall|i: int|
            0 <= i < self.entities.len() ==> match (#[trigger] self.entities[i]).parent {
                Some(p) => p < self.entities[i].handle && self.contains(p),
                None => true,
            }
        &&& forall|i: int|
            0 <= i < self.entities.len() ==> distinct_types(
                (#[trigger] self.entities[i]).components,
            )
    }

    /// Whether `h` is alive and is picked by `sel`, or descends from an entity
    /// that is.
    pub open spec fn in_subtree(self, sel: Selector, h: u64) -> bool
        decreases h,
    {
        self.contains(h) && (sel.selects(self.entity(h)) || match self.entity(h).parent {
            Some(p) => p < h && self.in_subtree(sel, p),
            None => false,
        })
    }

    /// The world without the entities that `sel` picks and their descendants.
    pub open spec fn despawned(self, sel: Selector) -> WorldView {
        WorldView { entities: survivors(self, sel, self.entities.len() as int), next: self.next }
    }

    /// The world with one entity more, under the handle `next`: the
    /// auto-generated root of the scene asset `asset`, a child of `parent`.
    pub open spec fn with_scene_root(self, parent: u64, asset: Seq<char>) -> WorldView {
        WorldView {
            entities: self.entities.push(
                EntityView {
                    auto_child: true,
                    parent: Some(parent),
                    scene: Some(asset),
                    ..blank_entity(self.next)
                },
            ),
            next: (self.next + 1) as u64,
        }
    }

    /// The handles of the entities that `sel` picks, in their order.
    pub open spec fn selected(self, sel: Selector) -> Seq<u64> {
        selected_among(self, sel, self.entities.len() as int)
    }

    /// The world after a spawn: one blank entity more, under the handle `next`.
    pub open spec fn spawned(self) -> WorldView {
        WorldView {
            entities: self.entities.push(blank_entity(self.next)),
            next: (self.next + 1) as u64,
        }
    }

    /// Whether `parent` can become the parent of `child`: both are alive and
    /// `parent` is the older one.
    pub open spec fn can_attach(self, child: u64, parent: u64) -> bool {
        parent < child && self.contains(parent) && self.contains(child)
    }

    /// The world after apply-or-insert of `c` on the entity `h`, if alive.
    pub open spec fn with_component(self, h: u64, c: ComponentView) -> WorldView {
        self.updated(h, |e: EntityView| EntityView { components: with_component(e.components, c), ..e })
    }

    /// The world in which the entity `h`, if alive, carries the prefab marker.
    pub open spec fn marked_prefab(self, h: u64) -> WorldView {
        self.updated(h, |e: EntityView| EntityView { prefab: true, ..e })
    }

    /// The world in which the entity `h`, if alive, is tagged as auto-generated.
    pub open spec fn tagged_auto_child(self, h: u64) -> WorldView {
        self.updated(h, |e: EntityView| EntityView { auto_child: true, ..e })
    }

    /// The world in which the entity `child`, if alive, has the parent `parent`.
    pub open spec fn with_parent(self, child: u64, parent: u64) -> WorldView {
        self.updated(child, |e: EntityView| EntityView { parent: Some(parent), ..e })
    }

    /// The world in which the entity `h`, if alive, is replaced by `f` of it.
    pub open spec fn updated(self, h: u64, f: spec_fn(EntityView) -> EntityView) -> WorldView {
        WorldView {
            entities: Seq::new(
                self.entities.len(),
                |i: int| if self.entities[i].handle == h {
                    f(self.entities[i])
                } else {
                    self.entities[i]
                },
            ),
            next: self.next,
        }
    }
}

/// The handles of those of the first `n` entities of `w` that `sel` picks.
pub open spec fn selected_among(w: WorldView, sel: Selector, n: int) -> Seq<u64>
    decreases n,
{
    if n <= 0 {
        Seq::empty()
    } else {
        let rest = selected_among(w, sel, n - 1);
        if sel.selects(w.entities[n - 1]) {
            rest.push(w.entities[n - 1].handle)
        } else {
            rest
        }
    }
}

/// The first `n` entities of `w`, in order, without those in the subtrees
/// that `sel` picks.
pub open spec fn survivors(w: WorldView, sel: Selector, n: int) -> Seq<EntityView>
    decreases n,
{
    if n <= 0 {
        Seq::empty()
    } else {
        let rest = survivors(w, sel, n - 1);
        if w.in_subtree(sel, w.entities[n - 1].handle) {
            rest
        } else {
            rest.push(w.entities[n - 1])
        }
    }
}

/// In a well-formed world the entity found under a handle is the one at the
/// position that carries it.
pub proof fn lemma_entity_at(w: WorldView, i: int)
    requires
        w.wf(),
        0 <= i < w.entities.len(),
    ensures
        w.contains(w.entities[i].handle),
        w.position(w.entities[i].handle) == i,
        w.entity(w.entities[i].handle) == w.entities[i],
{
    let h = w.entities[i].handle;
    let p = w.position(h);
    assert(w.entities[p].handle == h);
    if p < i {
        assert(w.entities[p].handle < w.entities[i].handle);
    } else if i < p {
        assert(w.entities[i].handle < w.entities[p].handle);
    }
}


impl EntityRecord {
    /// A new entity without tags, parent or components.
    fn blank(handle: LiveHandle) -> (e: EntityRecord)
        ensures
            e@ == blank_entity(handle),
    {
        let e = EntityRecord {
            handle,
            prefab: false,
            auto_child: false,
            parent: None,
            scene: None,
            components: Vec::new(),
        };
        assert(e@.components =~= Seq::empty());
        e
    }

    /// The entity's handle.
    pub fn handle(&self) -> (h: LiveHandle)
        ensures
            h == self@.handle,
    {
        self.handle
    }

    /// Whether the entity carries the prefab marker.
    pub fn is_prefab(&self) -> (b: bool)
        ensures
            b == self@.prefab,
    {
        self.prefab
    }

    /// Whether the entity is tagged as an auto-generated hierarchy child.
    pub fn is_auto_child(&self) -> (b: bool)
        ensures
            b == self@.auto_child,
    {
        self.auto_child
    }

    /// The entity's parent, if it has one.
    pub fn parent(&self) -> (p: Option<LiveHandle>)
        ensures
            p == self@.parent,
    {
        self.parent
    }

    /// The scene asset that the entity is the root of, if it is one.
    pub fn scene(&self) -> (asset: Option<&String>)
        ensures
            match asset {
                Some(s) => self@.scene == Some(s@),
                None => self@.scene is None,
            },
    {
        match &self.scene {
            Some(s) => Some(s),
            None => None,
        }
    }

    /// The entity's components, in the order in which their types were first
    /// attached.
    pub fn components(&self) -> (all: &Vec<Component>)
        ensures
            component_views(all@) == self@.components,
    {
        &self.components
    }

    /// The component of type `type_id`, if the entity has one: the first of
    /// that type, which in a world is the only one.
    pub fn component(&self, type_id: u64) -> (found: Option<&Component>)
        ensures
            found is Some == has_type(self@.components, type_id),
            found matches Some(c) ==> c@.type_id == type_id && exists|k: int|
                0 <= k < self@.components.len() && #[trigger] self@.components[k] == c@ && forall|
                    j: int,
                | 0 <= j < k ==> (#[trigger] self@.components[j]).type_id != type_id,
    {
        let mut i: usize = 0;
        while i < self.components.len()
            invariant
                0 <= i <= self.components.len(),
                forall|k: int| 0 <= k < i ==> (#[trigger] self@.components[k]).type_id != type_id,
            decreases self.components.len() - i,
        {
            if self.components[i].type_id == type_id {
                assert(self@.components[i as int] == self.components[i as int]@);
                return Some(&self.components[i]);
            }
            assert(self@.components[i as int] == self.components[i as int]@);
            i += 1;
        }
        None
    }

    /// Attaches the prefab marker.
    fn set_prefab(&mut self)
        ensures
            final(self)@ == (EntityView { prefab: true, ..old(self)@ }),
    {
        self.prefab = true;
    }

    /// Attaches the tag of auto-generated hierarchy children.
    fn set_auto_child(&mut self)
        ensures
            final(self)@ == (EntityView { auto_child: true, ..old(self)@ }),
    {
        self.auto_child = true;
    }

    /// Makes the entity the auto-generated root of the scene asset `asset`
    /// under `parent`.
    fn set_scene_root(&mut self, parent: LiveHandle, asset: String)
        ensures
            final(self)@ == (EntityView {
                auto_child: true,
                parent: Some(parent),
                scene: Some(asset@),
                ..old(self)@
            }),
    {
        self.auto_child = true;
        self.parent = Some(parent);
        self.scene = Some(asset);
    }

    /// Makes `parent` the entity's parent.
    fn set_parent(&mut self, parent: LiveHandle)
        ensures
            final(self)@ == (EntityView { parent: Some(parent), ..old(self)@ }),
    {
        self.parent = Some(parent);
    }

    /// Apply-or-insert: replaces the component of `c`'s type, or attaches `c`.
    fn apply_or_insert(&mut self, c: Component)
        requires
            distinct_types(old(self)@.components),
        ensures
            final(self)@ == (EntityView {
                components: with_component(old(self)@.components, c@),
                ..old(self)@
            }),
            distinct_types(final(self)@.components),
    {
        proof {
            lemma_with_component(self@.components, c@);
        }
        let ghost before = self@.components;
        let mut i: usize = 0;
        while i < self.components.len()
            invariant
                0 <= i <= self.components.len(),
                *self == *old(self),
                before == self@.components,
                distinct_types(before),
                forall|k: int| 0 <= k < i ==> (#[trigger] before[k]).type_id != c.type_id,
            decreases self.components.len() - i,
        {
            assert(self@.components[i as int] == self.components[i as int]@);
            if self.components[i].type_id == c.type_id {
                assert(before[i as int].type_id == c.type_id);
                assert(type_index(before, c.type_id) == i) by {
                    let k = type_index(before, c.type_id);
                    assert(before[k].type_id == c.type_id);
                }
                self.components.set(i, c);
                assert(self@.components =~= with_component(before, c@));
                return ;
            }
            i += 1;
        }
        assert(!has_type(before, c.type_id));
        self.components.push(c);
        assert(self@.components =~= with_component(before, c@));
    }
}


/// The live object graph: entities with their components, tags and parents.
///
/// Handles are handed out in increasing order and never reused.
pub struct World {
    entities: Vec<EntityRecord>,
    next: LiveHandle,
}

impl View for World {
    type V = WorldView;

    closed spec fn view(&self) -> WorldView {
        WorldView { entities: entity_views(self.entities@), next: self.next }
    }
}

impl World {
    /// An empty world whose first handle will be 0.
    pub fn new() -> (w: World)
        ensures
            w@.wf(),
            w@.entities.len() == 0,
            w@.next == 0,
    {
        World { entities: Vec::new(), next: 0 }
    }

    /// The number of live entities.
    pub fn len(&self) -> (n: usize)
        ensures
            n == self@.entities.len(),
    {
        self.entities.len()
    }

    /// The handle that the next spawn will return.
    pub fn next_handle(&self) -> (h: LiveHandle)
        ensures
            h == self@.next,
    {
        self.next
    }

    /// The position of the entity with handle `h`.
    fn find(&self, h: LiveHandle) -> (at: Option<usize>)
        ensures
            at is Some == self@.contains(h),
            at matches Some(i) ==> i < self.entities.len() && self.entities[i as int]@.handle == h
                && self@.entities[i as int].handle == h,
    {
        let mut i: usize = 0;
        while i < self.entities.len()
            invariant
                0 <= i <= self.entities.len(),
                forall|k: int| 0 <= k < i ==> (#[trigger] self@.entities[k]).handle != h,
            decreases self.entities.len() - i,
        {
            assert(self@.entities[i as int] == self.entities[i as int]@);
            if self.entities[i].handle == h {
                return Some(i);
            }
            i += 1;
        }
        None
    }

    /// Whether an entity with handle `h` is alive.
    pub fn contains(&self, h: LiveHandle) -> (b: bool)
        ensures
            b == self@.contains(h),
    {
        self.find(h).is_some()
    }

    /// The entity with handle `h`, if it is alive.
    pub fn get(&self, h: LiveHandle) -> (found: Option<&EntityRecord>)
        requires
            self@.wf(),
        ensures
            found is Some == self@.contains(h),
            found matches Some(e) ==> e@ == self@.entity(h),
    {
        match self.find(h) {
            Some(i) => {
                proof {
                    lemma_entity_at(self@, i as int);
                }
                Some(&self.entities[i])
            },
            None => None,
        }
    }

    /// The entity at position `i` in the order of handles.
    pub fn at(&self, i: usize) -> (e: &EntityRecord)
        requires
            i < self@.entities.len(),
        ensures
            e@ == self@.entities[i as int],
    {
        &self.entities[i]
    }

    /// Apply-or-insert of `c` on the entity `h`. Returns whether `h` is alive;
    /// a dead handle leaves the world as it is.
    pub fn insert(&mut self, h: LiveHandle, c: Component) -> (alive: bool)
        requires
            old(self)@.wf(),
        ensures
            alive == old(self)@.contains(h),
            final(self)@ == old(self)@.with_component(h, c@),
            final(self)@.wf(),
    {
        proof {
            lemma_with_component_wf(self@, h, c@);
        }
        match self.find(h) {
            Some(i) => {
                proof {
                    lemma_entity_at(self@, i as int);
                }
                assert(self@.entities[i as int] == self.entities[i as int]@);
                let e = &mut self.entities[i];
                e.apply_or_insert(c);
                assert(self@.entities =~= old(self)@.with_component(h, c@).entities) by {
                    assert forall|k: int| 0 <= k < self@.entities.len() implies
                        #[trigger] self@.entities[k] == old(self)@.with_component(
                        h,
                        c@,
                    ).entities[k] by {
                        lemma_entity_at(old(self)@, k);
                    }
                }
                true
            },
            None => {
                assert(self@.entities =~= old(self)@.with_component(h, c@).entities);
                false
            },
        }
    }

    /// Attaches the prefab marker to the entity `h`. Returns whether `h` is
    /// alive; a dead handle leaves the world as it is.
    pub fn insert_marker(&mut self, h: LiveHandle, marker: PrefabMarker) -> (alive: bool)
        requires
            old(self)@.wf(),
        ensures
            alive == old(self)@.contains(h),
            final(self)@ == old(self)@.marked_prefab(h),
            final(self)@.wf(),
    {
        proof {
            lemma_marked_prefab_wf(self@, h);
        }
        match self.find(h) {
            Some(i) => {
                assert(self@.entities[i as int] == self.entities[i as int]@);
                let e = &mut self.entities[i];
                e.set_prefab();
                assert(self@.entities =~= old(self)@.marked_prefab(h).entities) by {
                    assert forall|k: int| 0 <= k < self@.entities.len() implies
                        #[trigger] self@.entities[k] == old(self)@.marked_prefab(h).entities[k] by {
                        lemma_entity_at(old(self)@, k);
                    }
                }
                true
            },
            None => {
                assert(self@.entities =~= old(self)@.marked_prefab(h).entities);
                false
            },
        }
    }

    /// Tags the entity `h` as an auto-generated hierarchy child. Returns
    /// whether `h` is alive; a dead handle leaves the world as it is.
    pub fn insert_auto_child(&mut self, h: LiveHandle, tag: SceneAutoChild) -> (alive: bool)
        requires
            old(self)@.wf(),
        ensures
            alive == old(self)@.contains(h),
            final(self)@ == old(self)@.tagged_auto_child(h),
            final(self)@.wf(),
    {
        proof {
            lemma_tagged_auto_child_wf(self@, h);
        }
        match self.find(h) {
            Some(i) => {
                assert(self@.entities[i as int] == self.entities[i as int]@);
                let e = &mut self.entities[i];
                e.set_auto_child();
                assert(self@.entities =~= old(self)@.tagged_auto_child(h).entities) by {
                    assert forall|k: int| 0 <= k < self@.entities.len() implies
                        #[trigger] self@.entities[k] == old(self)@.tagged_auto_child(
                        h,
                    ).entities[k] by {
                        lemma_entity_at(old(self)@, k);
                    }
                }
                true
            },
            None => {
                assert(self@.entities =~= old(self)@.tagged_auto_child(h).entities);
                false
            },
        }
    }

    /// Makes `parent` the parent of `child`. A parent is always older than
    /// its child: the call takes effect, and returns `true`, only where both
    /// are alive and `parent < child`.
    pub fn set_parent(&mut self, child: LiveHandle, parent: LiveHandle) -> (attached: bool)
        requires
            old(self)@.wf(),
        ensures
            attached == old(self)@.can_attach(child, parent),
            final(self)@ == (if attached {
                old(self)@.with_parent(child, parent)
            } else {
                old(self)@
            }),
            final(self)@.wf(),
    {
        if parent >= child {
            return false;
        }
        if !self.contains(parent) {
            return false;
        }
        proof {
            lemma_with_parent_wf(self@, child, parent);
        }
        match self.find(child) {
            Some(i) => {
                assert(self@.entities[i as int] == self.entities[i as int]@);
                let e = &mut self.entities[i];
                e.set_parent(parent);
                assert(self@.entities =~= old(self)@.with_parent(child, parent).entities) by {
                    assert forall|k: int| 0 <= k < self@.entities.len() implies
                        #[trigger] self@.entities[k] == old(self)@.with_parent(
                        child,
                        parent,
                    ).entities[k] by {
                        lemma_entity_at(old(self)@, k);
                    }
                }
                true
            },
            None => false,
        }
    }

    /// The handles of the entities that `sel` picks, in their order.
    pub fn select(&self, sel: Selector) -> (handles: Vec<LiveHandle>)
        ensures
            handles@ == self@.selected(sel),
    {
        let mut handles: Vec<u64> = Vec::new();
        let mut i: usize = 0;
        while i < self.entities.len()
            invariant
                0 <= i <= self.entities.len(),
                self@.entities.len() == self.entities.len(),
                handles@ == selected_among(self@, sel, i as int),
            decreases self.entities.len() - i,
        {
            assert(self@.entities[i as int] == self.entities[i as int]@);
            if sel.matches(&self.entities[i]) {
                handles.push(self.entities[i].handle);
            }
            i += 1;
        }
        handles
    }

    /// Spawns the auto-generated root of the scene asset `asset` as a child
    /// of `parent`, and returns its handle. Where `parent` is not alive,
    /// nothing is spawned.
    pub fn spawn_scene_root(&mut self, parent: LiveHandle, asset: String) -> (root: Option<LiveHandle>)
        requires
            old(self)@.wf(),
            old(self)@.next < u64::MAX,
        ensures
            root is Some == old(self)@.contains(parent),
            root matches Some(h) ==> h == old(self)@.next
                && final(self)@ == old(self)@.with_scene_root(parent, asset@),
            root is None ==> final(self)@ == old(self)@,
            final(self)@.wf(),
    {
        match self.find(parent) {
            Some(i) => {
                let h = self.next;
                let mut e = EntityRecord::blank(h);
                e.set_scene_root(parent, asset);
                self.entities.push(e);
                self.next = h + 1;
                proof {
                    assert(self@.entities =~= old(self)@.with_scene_root(parent, asset@).entities);
                    lemma_with_scene_root_wf(old(self)@, parent, asset@);
                }
                Some(h)
            },
            None => None,
        }
    }

    /// Despawns every entity that `sel` picks, with all its descendants.
    pub fn despawn(&mut self, sel: Selector)
        requires
            old(self)@.wf(),
        ensures
            final(self)@ == old(self)@.despawned(sel),
            final(self)@.wf(),
    {
        let n = self.entities.len();
        let mut doomed: Vec<bool> = Vec::new();
        let mut i: usize = 0;
        while i < n
            invariant
                0 <= i <= n,
                n == self.entities.len(),
                *self == *old(self),
                self@.wf(),
                doomed.len() == i,
                forall|k: int|
                    0 <= k < i ==> #[trigger] doomed[k] == self@.in_subtree(
                        sel,
                        self@.entities[k].handle,
                    ),
            decreases n - i,
        {
            proof {
                lemma_entity_at(self@, i as int);
            }
            assert(self@.entities[i as int] == self.entities[i as int]@);
            let e = &self.entities[i];
            let mut gone = sel.matches(e);
            if !gone {
                match e.parent() {
                    Some(p) => {
                        match self.find(p) {
                            Some(k) => {
                                proof {
                                    if k >= i {
                                        if k > i {
                                            assert(self@.entities[i as int].handle
                                                < self@.entities[k as int].handle);
                                        }
                                        assert(false);
                                    }
                                }
                                gone = doomed[k];
                            },
                            None => {},
                        }
                    },
                    None => {},
                }
            }
            doomed.push(gone);
            i += 1;
        }
        let ghost before = self@;
        let mut i: usize = 0;
        let mut kept: usize = 0;
        while i < n
            invariant
                0 <= kept <= i <= n,
                n == before.entities.len(),
                before.wf(),
                before == old(self)@,
                doomed.len() == n,
                forall|k: int|
                    0 <= k < n ==> #[trigger] doomed[k] == before.in_subtree(
                        sel,
                        before.entities[k].handle,
                    ),
                self@.next == before.next,
                kept == survivors(before, sel, i as int).len(),
                self@.entities == survivors(before, sel, i as int) + before.entities.skip(i as int),
            decreases n - i,
        {
            let ghost current = self@.entities;
            assert(self.entities@.len() == current.len());
            assert(current.len() == kept + (n - i));
            if doomed[i] {
                self.entities.remove(kept);
                assert(self@.entities =~= current.remove(kept as int));
                assert(self@.entities =~= survivors(before, sel, i + 1) + before.entities.skip(
                    i + 1,
                ));
            } else {
                assert(self@.entities =~= survivors(before, sel, i + 1) + before.entities.skip(
                    i + 1,
                ));
                kept += 1;
            }
            i += 1;
        }
        proof {
            assert(self@.entities =~= survivors(before, sel, n as int));
            lemma_despawned(before, sel);
        }
    }

    /// Spawns a blank entity and returns its handle.
    pub fn spawn(&mut self) -> (h: LiveHandle)
        requires
            old(self)@.wf(),
            old(self)@.next < u64::MAX,
        ensures
            final(self)@ == old(self)@.spawned(),
            final(self)@.wf(),
            h == old(self)@.next,
    {
        let h = self.next;
        self.entities.push(EntityRecord::blank(h));
        self.next = h + 1;
        proof {
            assert(self@.entities =~= old(self)@.spawned().entities);
            lemma_spawned_wf(old(self)@);
        }
        h
    }
}

/// A spawn keeps the world well-formed.
pub proof fn lemma_spawned_wf(w: WorldView)
    requires
        w.wf(),
        w.next < u64::MAX,
    ensures
        w.spawned().wf(),
{
    let s = w.spawned();
    assert forall|i: int| 0 <= i < s.entities.len() implies match (#[trigger] s.entities[i]).parent {
        Some(p) => p < s.entities[i].handle && s.contains(p),
        None => true,
    } by {
        if i < w.entities.len() {
            match w.entities[i].parent {
                Some(p) => {
                    let k = w.position(p);
                    assert(s.entities[k].handle == p);
                },
                None => {},
            }
        }
    }
    assert forall|i: int| 0 <= i < s.entities.len() implies distinct_types(
        (#[trigger] s.entities[i]).components,
    ) by {
        if i < w.entities.len() {
            assert(s.entities[i] == w.entities[i]);
        }
    }
}


/// An update of one entity that keeps its handle and parent, and its
/// components distinct in type, keeps the world well-formed.
pub proof fn lemma_updated_wf(w: WorldView, h: u64, f: spec_fn(EntityView) -> EntityView)
    requires
        w.wf(),
        forall|e: EntityView| #[trigger] f(e).handle == e.handle,
        forall|i: int|
            0 <= i < w.entities.len() ==> {
                let e = #[trigger] w.entities[i];
                &&& distinct_types(f(e).components)
                &&& match f(e).parent {
                    Some(p) => e.handle == h ==> p < e.handle && w.contains(p),
                    None => true,
                }
            },
    ensures
        w.updated(h, f).wf(),
        forall|x: u64| w.updated(h, f).contains(x) == w.contains(x),
{
    let u = w.updated(h, f);
    assert forall|x: u64| u.contains(x) == w.contains(x) by {
        if w.contains(x) {
            let k = w.position(x);
            assert(u.entities[k].handle == x);
        }
        if u.contains(x) {
            let k = u.position(x);
            assert(w.entities[k].handle == x);
        }
    }
    assert forall|i: int| 0 <= i < u.entities.len() implies match (#[trigger] u.entities[i]).parent {
        Some(p) => p < u.entities[i].handle && u.contains(p),
        None => true,
    } by {
        let e = w.entities[i];
        if e.handle == h {
            assert(u.entities[i] == f(e));
        } else {
            assert(u.entities[i] == e);
        }
    }
    assert forall|i: int| 0 <= i < u.entities.len() implies distinct_types(
        (#[trigger] u.entities[i]).components,
    ) by {
        let e = w.entities[i];
        if e.handle == h {
            assert(u.entities[i] == f(e));
        } else {
            assert(u.entities[i] == e);
        }
    }
    assert forall|i: int, j: int| 0 <= i < j < u.entities.len() implies (
    #[trigger] u.entities[i]).handle < (#[trigger] u.entities[j]).handle by {
        assert(u.entities[i].handle == w.entities[i].handle);
        assert(u.entities[j].handle == w.entities[j].handle);
    }
    assert forall|i: int| 0 <= i < u.entities.len() implies (#[trigger] u.entities[i]).handle
        < u.next by {
        assert(u.entities[i].handle == w.entities[i].handle);
    }
}

/// Apply-or-insert keeps the world well-formed and the same entities alive.
pub proof fn lemma_with_component_wf(w: WorldView, h: u64, c: ComponentView)
    requires
        w.wf(),
    ensures
        w.with_component(h, c).wf(),
        forall|x: u64| w.with_component(h, c).contains(x) == w.contains(x),
{
    let f = |e: EntityView| EntityView { components: with_component(e.components, c), ..e };
    assert forall|i: int| 0 <= i < w.entities.len() implies {
        let e = #[trigger] w.entities[i];
        &&& distinct_types(f(e).components)
        &&& match f(e).parent {
            Some(p) => e.handle == h ==> p < e.handle && w.contains(p),
            None => true,
        }
    } by {
        lemma_with_component(w.entities[i].components, c);
    }
    lemma_updated_wf(w, h, f);
}


/// Attaching the prefab marker keeps the world well-formed.
pub proof fn lemma_marked_prefab_wf(w: WorldView, h: u64)
    requires
        w.wf(),
    ensures
        w.marked_prefab(h).wf(),
        forall|x: u64| w.marked_prefab(h).contains(x) == w.contains(x),
{
    lemma_updated_wf(w, h, |e: EntityView| EntityView { prefab: true, ..e });
}

/// Tagging an auto-generated child keeps the world well-formed.
pub proof fn lemma_tagged_auto_child_wf(w: WorldView, h: u64)
    requires
        w.wf(),
    ensures
        w.tagged_auto_child(h).wf(),
        forall|x: u64| w.tagged_auto_child(h).contains(x) == w.contains(x),
{
    lemma_updated_wf(w, h, |e: EntityView| EntityView { auto_child: true, ..e });
}

/// Attaching a child to an older live parent keeps the world well-formed.
pub proof fn lemma_with_parent_wf(w: WorldView, child: u64, parent: u64)
    requires
        w.wf(),
        parent < child,
        w.contains(parent),
    ensures
        w.with_parent(child, parent).wf(),
        forall|x: u64| w.with_parent(child, parent).contains(x) == w.contains(x),
{
    lemma_updated_wf(w, child, |e: EntityView| EntityView { parent: Some(parent), ..e });
}


/// What the first `n` entities leave behind: each survivor is an entity of
/// `w` outside the despawned subtrees, every such entity survives, and the
/// order of handles is kept.
pub proof fn lemma_survivors(w: WorldView, sel: Selector, n: int)
    requires
        w.wf(),
        0 <= n <= w.entities.len(),
    ensures
        survivors(w, sel, n).len() <= n,
        forall|j: int|
            0 <= j < survivors(w, sel, n).len() ==> {
                let e = #[trigger] survivors(w, sel, n)[j];
                &&& w.contains(e.handle)
                &&& w.entity(e.handle) == e
                &&& w.position(e.handle) < n
                &&& !w.in_subtree(sel, e.handle)
            },
        forall|i: int|
            0 <= i < n && !w.in_subtree(sel, (#[trigger] w.entities[i]).handle) ==> exists|j: int|
                0 <= j < survivors(w, sel, n).len() && #[trigger] survivors(w, sel, n)[j]
                    == w.entities[i],
        forall|j1: int, j2: int|
            0 <= j1 < j2 < survivors(w, sel, n).len() ==> (#[trigger] survivors(
                w,
                sel,
                n,
            )[j1]).handle < (#[trigger] survivors(w, sel, n)[j2]).handle,
    decreases n,
{
    if n > 0 {
        lemma_survivors(w, sel, n - 1);
        lemma_entity_at(w, n - 1);
        let rest = survivors(w, sel, n - 1);
        let all = survivors(w, sel, n);
        let last = w.entities[n - 1];
        assert forall|i: int|
            0 <= i < n && !w.in_subtree(sel, (#[trigger] w.entities[i]).handle) implies exists|
            j: int,
        |
            0 <= j < all.len() && #[trigger] all[j] == w.entities[i] by {
            if i < n - 1 {
                let j = choose|j: int| 0 <= j < rest.len() && #[trigger] rest[j] == w.entities[i];
                assert(all[j] == w.entities[i]);
            } else {
                assert(all[all.len() - 1] == w.entities[i]);
            }
        }
        assert forall|j1: int, j2: int| 0 <= j1 < j2 < all.len() implies (#[trigger] all[j1]).handle
            < (#[trigger] all[j2]).handle by {
            if j2 < rest.len() {
                assert(all[j1] == rest[j1]);
                assert(all[j2] == rest[j2]);
            } else {
                assert(all[j1] == rest[j1]);
                let k = w.position(rest[j1].handle);
                assert(w.entities[k].handle == rest[j1].handle);
                assert(w.entities[k].handle < w.entities[n - 1].handle);
            }
        }
        assert forall|j: int| 0 <= j < all.len() implies {
            let e = #[trigger] all[j];
            &&& w.contains(e.handle)
            &&& w.entity(e.handle) == e
            &&& w.position(e.handle) < n
            &&& !w.in_subtree(sel, e.handle)
        } by {
            if j < rest.len() {
                assert(all[j] == rest[j]);
            }
        }
    }
}

/// What a despawn leaves: a well-formed world that holds exactly the
/// entities outside the despawned subtrees, each as it was.
pub proof fn lemma_despawned(w: WorldView, sel: Selector)
    requires
        w.wf(),
    ensures
        w.despawned(sel).wf(),
        forall|h: u64|
            #[trigger] w.despawned(sel).contains(h) == (w.contains(h) && !w.in_subtree(sel, h)),
        forall|h: u64|
            w.contains(h) && !w.in_subtree(sel, h) ==> #[trigger] w.despawned(sel).entity(h)
                == w.entity(h),
{
    let n = w.entities.len() as int;
    let d = w.despawned(sel);
    lemma_survivors(w, sel, n);
    assert forall|h: u64| #[trigger] d.contains(h) == (w.contains(h) && !w.in_subtree(sel, h)) by {
        if d.contains(h) {
            let j = d.position(h);
            assert(d.entities[j].handle == h);
        }
        if w.contains(h) && !w.in_subtree(sel, h) {
            let i = w.position(h);
            assert(w.entities[i].handle == h);
            let j = choose|j: int| 0 <= j < d.entities.len() && #[trigger] d.entities[j]
                == w.entities[i];
            assert(d.entities[j].handle == h);
        }
    }
    assert forall|i: int| 0 <= i < d.entities.len() implies match (#[trigger] d.entities[i]).parent {
        Some(p) => p < d.entities[i].handle && d.contains(p),
        None => true,
    } by {
        let e = d.entities[i];
        let k = w.position(e.handle);
        assert(w.entities[k] == e);
        match e.parent {
            Some(p) => {
                assert(w.contains(p));
                assert(!w.in_subtree(sel, p));
            },
            None => {},
        }
    }
    assert forall|i: int| 0 <= i < d.entities.len() implies distinct_types(
        (#[trigger] d.entities[i]).components,
    ) by {
        let e = d.entities[i];
        let k = w.position(e.handle);
        assert(w.entities[k] == e);
    }
    assert forall|i: int| 0 <= i < d.entities.len() implies (#[trigger] d.entities[i]).handle
        < d.next by {
        let e = d.entities[i];
        let k = w.position(e.handle);
        assert(w.entities[k] == e);
    }
    assert forall|h: u64| w.contains(h) && !w.in_subtree(sel, h) implies #[trigger] d.entity(h)
        == w.entity(h) by {
        let j = d.position(h);
        assert(d.entities[j].handle == h);
    }
}


/// Spawning a scene root under a live parent keeps the world well-formed.
pub proof fn lemma_with_scene_root_wf(w: WorldView, parent: u64, asset: Seq<char>)
    requires
        w.wf(),
        w.next < u64::MAX,
        w.contains(parent),
    ensures
        w.with_scene_root(parent, asset).wf(),
        forall|x: u64|
            w.with_scene_root(parent, asset).contains(x) == (w.contains(x) || x == w.next),
{
    let s = w.with_scene_root(parent, asset);
    let n = w.entities.len() as int;
    assert forall|x: u64| s.contains(x) == (w.contains(x) || x == w.next) by {
        if w.contains(x) {
            let k = w.position(x);
            assert(s.entities[k].handle == x);
        }
        if s.contains(x) {
            let k = s.position(x);
            if k < n {
                assert(w.entities[k].handle == x);
            }
        }
        if x == w.next {
            assert(s.entities[n].handle == x);
        }
    }
    let pk = w.position(parent);
    assert(w.entities[pk].handle == parent);
    assert forall|i: int| 0 <= i < s.entities.len() implies match (#[trigger] s.entities[i]).parent {
        Some(p) => p < s.entities[i].handle && s.contains(p),
        None => true,
    } by {
        if i < n {
            assert(s.entities[i] == w.entities[i]);
        }
    }
    assert forall|i: int| 0 <= i < s.entities.len() implies distinct_types(
        (#[trigger] s.entities[i]).components,
    ) by {
        if i < n {
            assert(s.entities[i] == w.entities[i]);
        }
    }
}

} // verus!
