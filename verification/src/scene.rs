use vstd::prelude::*;

verus! {

/// A scene-local handle: it names an entity within one description, and
/// means nothing in the live world.
pub type SceneHandle = u64;

/// One component of a scene description: the name of its type and its
/// payload. `refs` holds the payload's entity-reference fields as scene-local
/// handles; `data` holds the rest of it, opaque to the engine.
#[derive(Clone, Debug, PartialEq, Eq)]
pub struct ComponentRecord {
    pub name: String,
    pub data: Vec<u8>,
    pub refs: Vec<SceneHandle>,
}

/// What a [`ComponentRecord`] stands for in contracts.
pub struct RecordView {
    pub name: Seq<char>,
    pub data: Seq<u8>,
    pub refs: Seq<u64>,
}

impl View for ComponentRecord {
    type V = RecordView;

    open spec fn view(&self) -> RecordView {
        RecordView { name: self.name@, data: self.data@, refs: self.refs@ }
    }
}

/// One entry of a scene description: a scene-local handle and the components
/// recorded for it.
#[derive(Clone, Debug, PartialEq, Eq)]
pub struct SceneEntity {
    pub handle: SceneHandle,
    pub components: Vec<ComponentRecord>,
}

/// What a [`SceneEntity`] stands for in contracts.
pub struct SceneEntityView {
    pub handle: u64,
    pub components: Seq<RecordView>,
}

impl View for SceneEntity {
    type V = SceneEntityView;

    open spec fn view(&self) -> SceneEntityView {
        SceneEntityView {
            handle: self.handle,
            components: self.components@.map_values(|r: ComponentRecord| r@),
        }
    }
}

/// An ordered sequence of entries. Handles are local to the description;
/// entries that share a handle describe the same entity.
#[derive(Clone, Debug, PartialEq, Eq)]
pub struct SceneDescription {
    pub entities: Vec<SceneEntity>,
}

impl View for SceneDescription {
    type V = Seq<SceneEntityView>;

    open spec fn view(&self) -> Seq<SceneEntityView> {
        self.entities@.map_values(|e: SceneEntity| e@)
    }
}

/// Whether some entry of `scene` has the handle `h`.
pub open spec fn defines(scene: Seq<SceneEntityView>, h: u64) -> bool {
    exists|i: int| 0 <= i < scene.len() && (#[trigger] scene[i]).handle == h
}

/// Every reference of `record` names an entity of `scene`.
pub open spec fn record_closed(scene: Seq<SceneEntityView>, record: RecordView) -> bool {
    forall|f: int| 0 <= f < record.refs.len() ==> defines(scene, #[trigger] record.refs[f])
}

impl SceneDescription {
    /// A description without entries.
    pub fn new() -> (scene: SceneDescription)
        ensures
            scene@ == Seq::<SceneEntityView>::empty(),
    {
        let scene = SceneDescription { entities: Vec::new() };
        assert(scene@ =~= Seq::<SceneEntityView>::empty());
        scene
    }

    /// Whether some entry has the handle `h`.
    pub fn defines(&self, h: SceneHandle) -> (b: bool)
        ensures
            b == defines(self@, h),
    {
        let mut i: usize = 0;
        while i < self.entities.len()
            invariant
                0 <= i <= self.entities.len(),
                forall|k: int| 0 <= k < i ==> (#[trigger] self@[k]).handle != h,
            decreases self.entities.len() - i,
        {
            assert(self@[i as int] == self.entities[i as int]@);
            if self.entities[i].handle == h {
                return true;
            }
            i += 1;
        }
        false
    }

    /// Whether every reference of `record` names an entity of the description.
    pub fn is_closed_over(&self, record: &ComponentRecord) -> (b: bool)
        ensures
            b == record_closed(self@, record@),
    {
        let mut f: usize = 0;
        while f < record.refs.len()
            invariant
                0 <= f <= record.refs.len(),
                forall|k: int| 0 <= k < f ==> defines(self@, #[trigger] record@.refs[k]),
            decreases record.refs.len() - f,
        {
            if !self.defines(record.refs[f]) {
                assert(!defines(self@, record@.refs[f as int]));
                return false;
            }
            f += 1;
        }
        true
    }
}

} // verus!
