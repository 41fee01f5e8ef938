use crate::registry::registry_wf;
use crate::registry::resolve_name;
use crate::registry::DescriptorView;
use crate::registry::TypeDescriptor;
use crate::registry::TypeRegistry;
use crate::remap::rewritten;
use crate::remap::RemapTable;
use crate::scene::record_closed;
use crate::scene::ComponentRecord;
use crate::scene::RecordView;
use crate::scene::SceneDescription;
use crate::scene::SceneEntity;
use crate::scene::SceneEntityView;
use crate::scene::SceneHandle;
use crate::world::with_component;
use crate::world::Component;
use crate::world::ComponentView;
use crate::world::EntityView;
use crate::world::LiveHandle;
use crate::world::PrefabMarker;
use crate::world::Selector;
use crate::world::World;
use crate::world::WorldView;
use vstd::prelude::*;

verus! {

/// Why a component record was passed over.
#[derive(Clone, Copy, Debug, PartialEq, Eq, Structural)]
pub enum SkipReason {
    /// The record's type name has no entry in the registry.
    UnresolvableType,
    /// The type is registered but cannot be applied to an entity.
    UnresolvableCapability,
}

/// A component record that a pass passed over: the position of its entry in
/// the description, its position among the entry's records, and the reason.
#[derive(Clone, Copy, Debug, PartialEq, Eq, Structural)]
pub struct Skipped {
    pub entity: usize,
    pub component: usize,
    pub reason: SkipReason,
}

/// What a successful pass reports.
#[derive(Clone, Debug, PartialEq, Eq)]
pub struct ReconcileReport {
    /// Each scene-local handle with the live handle it was given, in the
    /// order in which the handles first occur in the description.
    pub mapping: Vec<(SceneHandle, LiveHandle)>,
    /// The records that were passed over, in description order.
    pub skipped: Vec<Skipped>,
}

/// Why a pass was abandoned before it changed anything.
#[derive(Clone, Copy, Debug, PartialEq, Eq, Structural)]
pub enum ReconcileError {
    /// The description cannot be read: a record whose references are to be
    /// rewritten refers to an entity that the description does not describe.
    Decode,
}

/// The distinct handles among the first `n` entries, in the order in which
/// they first occur.
pub open spec fn first_handles(scene: Seq<SceneEntityView>, n: int) -> Seq<u64>
    decreases n,
{
    if n <= 0 {
        Seq::empty()
    } else {
        let rest = first_handles(scene, n - 1);
        if rest.contains(scene[n - 1].handle) {
            rest
        } else {
            rest.push(scene[n - 1].handle)
        }
    }
}

/// The distinct handles of `scene`, in the order in which they first occur.
pub open spec fn scene_handles(scene: Seq<SceneEntityView>) -> Seq<u64> {
    first_handles(scene, scene.len() as int)
}

/// The remap table of a pass that allocates from `base`: the handle at
/// position `k` of `handles` stands for the live handle `base + k`.
pub open spec fn remap_of(handles: Seq<u64>, base: u64) -> Map<u64, u64> {
    Map::new(|h: u64| handles.contains(h), |h: u64| (base + handles.index_of(h)) as u64)
}

/// The pairs of [`remap_of`], in the order of `handles`.
pub open spec fn mapping_of(handles: Seq<u64>, base: u64) -> Seq<(u64, u64)> {
    Seq::new(handles.len(), |k: int| (handles[k], (base + k) as u64))
}

/// Why `record` is passed over, or `None` where it is applied.
pub open spec fn skip_reason(reg: Seq<DescriptorView>, record: RecordView) -> Option<SkipReason> {
    match resolve_name(reg, record.name) {
        None => Some(SkipReason::UnresolvableType),
        Some(d) => if d.can_apply {
            None
        } else {
            Some(SkipReason::UnresolvableCapability)
        },
    }
}

/// Whether the references of `record` are rewritten: it is applied, and its
/// type declares entity references.
pub open spec fn rewrites(reg: Seq<DescriptorView>, record: RecordView) -> bool {
    skip_reason(reg, record) is None && resolve_name(reg, record.name)->0.maps_entities
}

/// Every reference of `entry` that is to be rewritten names an entity of
/// `scene`.
pub open spec fn entry_readable(
    scene: Seq<SceneEntityView>,
    reg: Seq<DescriptorView>,
    entry: SceneEntityView,
) -> bool {
    forall|j: int|
        0 <= j < entry.components.len() && rewrites(reg, #[trigger] entry.components[j])
            ==> record_closed(scene, entry.components[j])
}

/// The description can be read: every reference in it that is to be
/// rewritten names an entity that it describes. What a record holds whose
/// type declares no entity references, or which is passed over, is opaque
/// and does not count.
pub open spec fn scene_readable(scene: Seq<SceneEntityView>, reg: Seq<DescriptorView>) -> bool {
    forall|i: int| 0 <= i < scene.len() ==> entry_readable(scene, reg, #[trigger] scene[i])
}

/// The live component that `record` becomes under the descriptor `d`: its
/// references rewritten through `remap` where the type declares entity
/// references, its payload otherwise as recorded.
pub open spec fn instantiated(record: RecordView, d: DescriptorView, remap: Map<u64, u64>)
    -> ComponentView {
    ComponentView {
        type_id: d.type_id,
        data: record.data,
        refs: if d.maps_entities {
            rewritten(remap, record.refs)
        } else {
            record.refs
        },
    }
}

/// The components of an entity after `record` has been processed.
pub open spec fn apply_record(
    components: Seq<ComponentView>,
    record: RecordView,
    reg: Seq<DescriptorView>,
    remap: Map<u64, u64>,
) -> Seq<ComponentView> {
    if skip_reason(reg, record) is None {
        with_component(components, instantiated(record, resolve_name(reg, record.name)->0, remap))
    } else {
        components
    }
}

/// The components of an entity after the first `m` of `records` have been
/// processed in order.
pub open spec fn applied(
    components: Seq<ComponentView>,
    records: Seq<RecordView>,
    reg: Seq<DescriptorView>,
    remap: Map<u64, u64>,
    m: int,
) -> Seq<ComponentView>
    decreases m,
{
    if m <= 0 {
        components
    } else {
        apply_record(applied(components, records, reg, remap, m - 1), records[m - 1], reg, remap)
    }
}

/// The components that the first `n` entries of `scene` give the entity
/// with the scene-local handle `h`.
pub open spec fn built(
    scene: Seq<SceneEntityView>,
    reg: Seq<DescriptorView>,
    remap: Map<u64, u64>,
    h: u64,
    n: int,
) -> Seq<ComponentView>
    decreases n,
{
    if n <= 0 {
        Seq::empty()
    } else {
        let before = built(scene, reg, remap, h, n - 1);
        if scene[n - 1].handle == h {
            applied(before, scene[n - 1].components, reg, remap, scene[n - 1].components.len() as int)
        } else {
            before
        }
    }
}

/// An entity that a pass creates: marked as prefab content, without parent.
pub open spec fn produced_entity(handle: u64, components: Seq<ComponentView>) -> EntityView {
    EntityView { handle, prefab: true, auto_child: false, parent: None, scene: None, components }
}

/// The entities that a pass over `scene` creates when it allocates from
/// `base`: one for each distinct handle, in the order of first occurrence,
/// with the components that the entries for the handle give it.
pub open spec fn produced(scene: Seq<SceneEntityView>, reg: Seq<DescriptorView>, base: u64) -> Seq<
    EntityView,
> {
    let handles = scene_handles(scene);
    Seq::new(
        handles.len(),
        |k: int|
            produced_entity(
                (base + k) as u64,
                built(scene, reg, remap_of(handles, base), handles[k], scene.len() as int),
            ),
    )
}

/// The world after a pass over a readable `scene`: the prefab content of
/// `w` and what descends from it is gone, and the entities that the pass
/// creates stand after the others.
pub open spec fn reconciled(w: WorldView, scene: Seq<SceneEntityView>, reg: Seq<DescriptorView>)
    -> WorldView {
    WorldView {
        entities: w.despawned(Selector::Prefab).entities + produced(scene, reg, w.next),
        next: (w.next + scene_handles(scene).len()) as u64,
    }
}

/// The records among the first `m` of entry `i` that are passed over.
pub open spec fn skipped_records(
    reg: Seq<DescriptorView>,
    records: Seq<RecordView>,
    i: int,
    m: int,
) -> Seq<Skipped>
    decreases m,
{
    if m <= 0 {
        Seq::empty()
    } else {
        let rest = skipped_records(reg, records, i, m - 1);
        match skip_reason(reg, records[m - 1]) {
            Some(reason) => rest.push(
                Skipped { entity: i as usize, component: (m - 1) as usize, reason },
            ),
            None => rest,
        }
    }
}

/// The records of the first `n` entries that are passed over, in order.
pub open spec fn skipped(scene: Seq<SceneEntityView>, reg: Seq<DescriptorView>, n: int) -> Seq<
    Skipped,
>
    decreases n,
{
    if n <= 0 {
        Seq::empty()
    } else {
        skipped(scene, reg, n - 1) + skipped_records(
            reg,
            scene[n - 1].components,
            n - 1,
            scene[n - 1].components.len() as int,
        )
    }
}

/// The first handles hold no handle twice, hold the handle of each entry
/// seen, and no other.
pub proof fn lemma_first_handles(scene: Seq<SceneEntityView>, n: int)
    requires
        0 <= n <= scene.len(),
    ensures
        first_handles(scene, n).no_duplicates(),
        first_handles(scene, n).len() <= n,
        forall|i: int| 0 <= i < n ==> first_handles(scene, n).contains((#[trigger] scene[i]).handle),
        forall|k: int|
            0 <= k < first_handles(scene, n).len() ==> exists|i: int|
                0 <= i < n && (#[trigger] scene[i]).handle == #[trigger] first_handles(scene, n)[k],
    decreases n,
{
    if n > 0 {
        lemma_first_handles(scene, n - 1);
        let rest = first_handles(scene, n - 1);
        let all = first_handles(scene, n);
        let h = scene[n - 1].handle;
        assert forall|i: int| 0 <= i < n implies all.contains((#[trigger] scene[i]).handle) by {
            if i < n - 1 {
                let k = rest.index_of(scene[i].handle);
                assert(rest[k] == scene[i].handle);
                assert(all[k] == scene[i].handle);
            } else {
                if rest.contains(h) {
                } else {
                    assert(all[all.len() - 1] == h);
                }
            }
        }
        assert forall|k: int| 0 <= k < all.len() implies exists|i: int|
            0 <= i < n && (#[trigger] scene[i]).handle == #[trigger] all[k] by {
            if k < rest.len() {
                assert(all[k] == rest[k]);
                let i = choose|i: int| 0 <= i < n - 1 && (#[trigger] scene[i]).handle == rest[k];
                assert(scene[i].handle == all[k]);
            } else {
                assert(scene[n - 1].handle == all[k]);
            }
        }
    }
}

/// In a sequence without duplicates an element is found where it stands.
pub proof fn lemma_index_of(handles: Seq<u64>, k: int)
    requires
        handles.no_duplicates(),
        0 <= k < handles.len(),
    ensures
        handles.contains(handles[k]),
        handles.index_of(handles[k]) == k,
{
    let j = handles.index_of(handles[k]);
    assert(handles[j] == handles[k]);
}

/// Allocating for one more handle adds one pair to the remap table.
pub proof fn lemma_remap_push(handles: Seq<u64>, h: u64, base: u64)
    requires
        handles.no_duplicates(),
        !handles.contains(h),
    ensures
        remap_of(handles.push(h), base) == remap_of(handles, base).insert(
            h,
            (base + handles.len()) as u64,
        ),
{
    let more = handles.push(h);
    let a = remap_of(more, base);
    let b = remap_of(handles, base).insert(h, (base + handles.len()) as u64);
    assert(more.no_duplicates());
    assert forall|x: u64| a.contains_key(x) == b.contains_key(x) by {
        if handles.contains(x) {
            let k = handles.index_of(x);
            assert(more[k] == x);
        }
        if more.contains(x) {
            let k = more.index_of(x);
            assert(more[k] == x);
            if k < handles.len() {
                assert(handles[k] == x);
            }
        }
        if x == h {
            assert(more[handles.len() as int] == h);
        }
    }
    assert forall|x: u64| a.contains_key(x) implies a[x] == b[x] by {
        let k = more.index_of(x);
        assert(more[k] == x);
        if x == h {
            lemma_index_of(more, handles.len() as int);
        } else {
            assert(handles[k] == x);
            lemma_index_of(handles, k);
            lemma_index_of(more, k);
        }
    }
    assert(a =~= b);
}

/// As [`built`], with the first `m` records of entry `n` processed as well.
spec fn built_partly(
    scene: Seq<SceneEntityView>,
    reg: Seq<DescriptorView>,
    remap: Map<u64, u64>,
    h: u64,
    n: int,
    m: int,
) -> Seq<ComponentView> {
    if 0 <= n < scene.len() && scene[n].handle == h {
        applied(built(scene, reg, remap, h, n), scene[n].components, reg, remap, m)
    } else {
        built(scene, reg, remap, h, n)
    }
}

/// The entities that a pass over `scene` creates when it allocates from
/// `base`, with the first `n` entries and `m` records of entry `n` processed.
spec fn staged(
    scene: Seq<SceneEntityView>,
    reg: Seq<DescriptorView>,
    base: u64,
    n: int,
    m: int,
) -> Seq<EntityView> {
    let handles = scene_handles(scene);
    Seq::new(
        handles.len(),
        |k: int|
            produced_entity(
                (base + k) as u64,
                built_partly(scene, reg, remap_of(handles, base), handles[k], n, m),
            ),
    )
}

/// The world of a pass in progress: what the despawn left, followed by the
/// entities of the pass with the first `n` entries and `m` records of entry
/// `n` processed.
spec fn pass_world(
    cleared: WorldView,
    scene: Seq<SceneEntityView>,
    reg: Seq<DescriptorView>,
    n: int,
    m: int,
) -> WorldView {
    WorldView {
        entities: cleared.entities + staged(scene, reg, cleared.next, n, m),
        next: (cleared.next + scene_handles(scene).len()) as u64,
    }
}

/// The world after `count` entities of a pass have been allocated.
spec fn allocated(w: WorldView, count: int) -> WorldView {
    WorldView {
        entities: w.entities + Seq::new(
            count as nat,
            |k: int| produced_entity((w.next + k) as u64, Seq::empty()),
        ),
        next: (w.next + count) as u64,
    }
}

/// A pass starts from the allocated world.
proof fn lemma_pass_start(cleared: WorldView, scene: Seq<SceneEntityView>, reg: Seq<DescriptorView>)
    ensures
        pass_world(cleared, scene, reg, 0, 0) == allocated(
            cleared,
            scene_handles(scene).len() as int,
        ),
{
    assert(pass_world(cleared, scene, reg, 0, 0).entities =~= allocated(
        cleared,
        scene_handles(scene).len() as int,
    ).entities);
}

/// A pass that has processed every entry has reconciled the world.
proof fn lemma_pass_end(w: WorldView, scene: Seq<SceneEntityView>, reg: Seq<DescriptorView>)
    ensures
        pass_world(w.despawned(Selector::Prefab), scene, reg, scene.len() as int, 0) == reconciled(
            w,
            scene,
            reg,
        ),
{
    assert(pass_world(
        w.despawned(Selector::Prefab),
        scene,
        reg,
        scene.len() as int,
        0,
    ).entities =~= reconciled(w, scene, reg).entities);
}

/// A pass that has processed every record of entry `i` stands at entry
/// `i + 1`.
proof fn lemma_pass_next(
    cleared: WorldView,
    scene: Seq<SceneEntityView>,
    reg: Seq<DescriptorView>,
    i: int,
)
    requires
        0 <= i < scene.len(),
    ensures
        pass_world(cleared, scene, reg, i, scene[i].components.len() as int) == pass_world(
            cleared,
            scene,
            reg,
            i + 1,
            0,
        ),
{
    assert(pass_world(cleared, scene, reg, i, scene[i].components.len() as int).entities
        =~= pass_world(cleared, scene, reg, i + 1, 0).entities);
}

/// One record of a pass: where it is applied, the world changes by an
/// apply-or-insert on the entity that stands for the entry's handle; where
/// it is passed over, the world stays.
proof fn lemma_pass_step(
    cleared: WorldView,
    scene: Seq<SceneEntityView>,
    reg: Seq<DescriptorView>,
    i: int,
    j: int,
)
    requires
        cleared.wf(),
        cleared.next + scene.len() <= u64::MAX,
        0 <= i < scene.len(),
        0 <= j < scene[i].components.len(),
    ensures
        remap_of(scene_handles(scene), cleared.next).contains_key(scene[i].handle),
        skip_reason(reg, scene[i].components[j]) is None ==> pass_world(
            cleared,
            scene,
            reg,
            i,
            j,
        ).with_component(
            remap_of(scene_handles(scene), cleared.next)[scene[i].handle],
            instantiated(
                scene[i].components[j],
                resolve_name(reg, scene[i].components[j].name)->0,
                remap_of(scene_handles(scene), cleared.next),
            ),
        ) == pass_world(cleared, scene, reg, i, j + 1),
        skip_reason(reg, scene[i].components[j]) is Some ==> pass_world(cleared, scene, reg, i, j)
            == pass_world(cleared, scene, reg, i, j + 1),
{
    let handles = scene_handles(scene);
    let base = cleared.next;
    let remap = remap_of(handles, base);
    let h = scene[i].handle;
    let rec = scene[i].components[j];
    lemma_first_handles(scene, scene.len() as int);
    assert(handles.contains(h));
    let k0 = handles.index_of(h);
    assert(handles[k0] == h);
    let live = remap[h];
    let before = pass_world(cleared, scene, reg, i, j);
    let after = pass_world(cleared, scene, reg, i, j + 1);
    if skip_reason(reg, rec) is None {
        let c = instantiated(rec, resolve_name(reg, rec.name)->0, remap);
        let stepped = before.with_component(live, c);
        assert forall|x: int| 0 <= x < stepped.entities.len() implies #[trigger] stepped.entities[x]
            == after.entities[x] by {
            if x < cleared.entities.len() {
                assert(before.entities[x] == cleared.entities[x]);
                assert(cleared.entities[x].handle < cleared.next);
            } else {
                let k = x - cleared.entities.len();
                if handles[k] == h {
                    lemma_index_of(handles, k);
                } else {
                    assert(k != k0);
                }
            }
        }
        assert(stepped.entities =~= after.entities);
    } else {
        assert(before.entities =~= after.entities);
    }
}

/// Whether every reference of `entry` that is to be rewritten names an
/// entity of the description.
fn entry_is_readable(
    description: &SceneDescription,
    registry: &TypeRegistry,
    entry: &SceneEntity,
) -> (b: bool)
    requires
        registry_wf(registry@),
    ensures
        b == entry_readable(description@, registry@, entry@),
{
    let mut j: usize = 0;
    while j < entry.components.len()
        invariant
            0 <= j <= entry.components.len(),
            registry_wf(registry@),
            forall|k: int|
                0 <= k < j && rewrites(registry@, #[trigger] entry@.components[k]) ==> record_closed(
                    description@,
                    entry@.components[k],
                ),
        decreases entry.components.len() - j,
    {
        let record = &entry.components[j];
        assert(entry@.components[j as int] == record@);
        let rewritten = match registry.lookup_by_name(&record.name) {
            Some(d) => d.can_apply && d.maps_entities,
            None => false,
        };
        if rewritten && !description.is_closed_over(record) {
            return false;
        }
        j += 1;
    }
    true
}

/// Whether the description can be read against the registry: every
/// reference in it that is to be rewritten names an entity that it
/// describes.
pub fn is_readable(description: &SceneDescription, registry: &TypeRegistry) -> (b: bool)
    requires
        registry_wf(registry@),
    ensures
        b == scene_readable(description@, registry@),
{
    let mut i: usize = 0;
    while i < description.entities.len()
        invariant
            0 <= i <= description.entities.len(),
            registry_wf(registry@),
            forall|k: int|
                0 <= k < i ==> entry_readable(description@, registry@, #[trigger] description@[k]),
        decreases description.entities.len() - i,
    {
        assert(description@[i as int] == description.entities[i as int]@);
        if !entry_is_readable(description, registry, &description.entities[i]) {
            return false;
        }
        i += 1;
    }
    true
}

/// A copy of `record` as a live component of the type that `d` describes.
fn instantiate(record: &ComponentRecord, d: &TypeDescriptor, table: &RemapTable) -> (c: Component)
    ensures
        c@ == instantiated(record@, d@, table@),
{
    let data = record.data.clone();
    assert(data@ =~= record.data@);
    let refs = if d.maps_entities {
        table.rewrite(&record.refs)
    } else {
        let same = record.refs.clone();
        assert(same@ =~= record.refs@);
        same
    };
    Component { type_id: d.type_id, data, refs }
}

/// Allocates a live entity for each distinct handle of the description, in
/// the order of first occurrence, and marks it as prefab content.
fn allocate(description: &SceneDescription, world: &mut World) -> (out: (
    RemapTable,
    Vec<(SceneHandle, LiveHandle)>,
))
    requires
        old(world)@.wf(),
        old(world)@.next + description@.len() <= u64::MAX,
    ensures
        final(world)@ == allocated(old(world)@, scene_handles(description@).len() as int),
        final(world)@.wf(),
        out.0@ == remap_of(scene_handles(description@), old(world)@.next),
        out.1@ == mapping_of(scene_handles(description@), old(world)@.next),
{
    let base = world.next_handle();
    let mut table = RemapTable::new();
    let mut mapping: Vec<(SceneHandle, LiveHandle)> = Vec::new();
    let mut i: usize = 0;
    proof {
        assert(world@.entities =~= allocated(old(world)@, 0).entities);
        assert(table@ =~= remap_of(first_handles(description@, 0), base));
        assert(mapping@ =~= mapping_of(first_handles(description@, 0), base));
    }
    while i < description.entities.len()
        invariant
            0 <= i <= description.entities.len(),
            description@.len() == description.entities.len(),
            base == old(world)@.next,
            old(world)@.wf(),
            base + description@.len() <= u64::MAX,
            world@ == allocated(old(world)@, first_handles(description@, i as int).len() as int),
            world@.wf(),
            table@ == remap_of(first_handles(description@, i as int), base),
            mapping@ == mapping_of(first_handles(description@, i as int), base),
        decreases description.entities.len() - i,
    {
        proof {
            lemma_first_handles(description@, i as int);
            lemma_first_handles(description@, i + 1);
        }
        let ghost seen = first_handles(description@, i as int);
        let ghost stage = world@;
        let h = description.entities[i].handle;
        assert(description@[i as int] == description.entities[i as int]@);
        match table.get(h) {
            Some(_) => {
                assert(seen.contains(h));
            },
            None => {
                assert(!seen.contains(h));
                let live = world.spawn();
                world.insert_marker(live, PrefabMarker);
                table.insert(h, live);
                mapping.push((h, live));
                proof {
                    lemma_remap_push(seen, h, base);
                    let grown = allocated(old(world)@, seen.len() as int + 1);
                    assert forall|x: int| 0 <= x < grown.entities.len() implies
                        #[trigger] world@.entities[x] == grown.entities[x] by {
                        if x < stage.entities.len() {
                            assert(stage.entities[x].handle < stage.next);
                        }
                    }
                    assert(world@.entities =~= grown.entities);
                    assert(mapping@ =~= mapping_of(seen.push(h), base));
                }
            },
        }
        i += 1;
    }
    (table, mapping)
}

/// Processes the records of one entry of the description.
fn apply_entry(
    entry: &SceneEntity,
    index: usize,
    registry: &TypeRegistry,
    table: &RemapTable,
    world: &mut World,
    skipped_so_far: &mut Vec<Skipped>,
    Ghost(cleared): Ghost<WorldView>,
    Ghost(scene): Ghost<Seq<SceneEntityView>>,
)
    requires
        cleared.wf(),
        cleared.next + scene.len() <= u64::MAX,
        registry_wf(registry@),
        index < scene.len(),
        scene[index as int] == entry@,
        table@ == remap_of(scene_handles(scene), cleared.next),
        old(world)@ == pass_world(cleared, scene, registry@, index as int, 0),
        old(world)@.wf(),
        old(skipped_so_far)@ == skipped(scene, registry@, index as int),
    ensures
        final(world)@ == pass_world(cleared, scene, registry@, index + 1, 0),
        final(world)@.wf(),
        final(skipped_so_far)@ == skipped(scene, registry@, index + 1),
{
    let ghost reg = registry@;
    let ghost earlier = skipped_so_far@;
    let mut j: usize = 0;
    proof {
        assert(skipped_so_far@ =~= earlier + skipped_records(
            reg,
            entry@.components,
            index as int,
            0,
        ));
    }
    while j < entry.components.len()
        invariant
            0 <= j <= entry.components.len(),
            entry@.components.len() == entry.components.len(),
            cleared.wf(),
            cleared.next + scene.len() <= u64::MAX,
            reg == registry@,
            registry_wf(reg),
            index < scene.len(),
            scene[index as int] == entry@,
            table@ == remap_of(scene_handles(scene), cleared.next),
            world@ == pass_world(cleared, scene, reg, index as int, j as int),
            world@.wf(),
            earlier == skipped(scene, reg, index as int),
            skipped_so_far@ == earlier + skipped_records(
                reg,
                entry@.components,
                index as int,
                j as int,
            ),
        decreases entry.components.len() - j,
    {
        proof {
            lemma_pass_step(cleared, scene, reg, index as int, j as int);
        }
        let record = &entry.components[j];
        assert(entry@.components[j as int] == record@);
        let ghost listed = skipped_so_far@;
        match registry.lookup_by_name(&record.name) {
            Some(d) => {
                if d.can_apply {
                    match table.get(entry.handle) {
                        Some(live) => {
                            let c = instantiate(record, d, table);
                            world.insert(live, c);
                        },
                        None => {
                            assert(false);
                        },
                    }
                } else {
                    skipped_so_far.push(
                        Skipped {
                            entity: index,
                            component: j,
                            reason: SkipReason::UnresolvableCapability,
                        },
                    );
                }
            },
            None => {
                skipped_so_far.push(
                    Skipped { entity: index, component: j, reason: SkipReason::UnresolvableType },
                );
            },
        }
        proof {
            assert(skipped_so_far@ =~= earlier + skipped_records(
                reg,
                entry@.components,
                index as int,
                j + 1,
            ));
        }
        j += 1;
    }
    proof {
        lemma_pass_next(cleared, scene, reg, index as int);
    }
}

/// Merges `description` into `world`, in place of what an earlier pass left
/// there.
///
/// A description that cannot be read (see [`scene_readable`]) is refused with
/// [`ReconcileError::Decode`] before anything changes. Otherwise every
/// entity that carries the prefab marker is despawned with its descendants;
/// a live entity is allocated and marked for each distinct handle of the
/// description, in the order of first occurrence; and each record is applied
/// to the entity of its entry by apply-or-insert, its references rewritten
/// to live handles where its type declares entity references. A record whose
/// type is not registered, or cannot be applied, is passed over and reported;
/// the records around it are processed all the same.
///
/// The world must have a handle left for each entry of the description.
pub fn reconcile(
    description: &SceneDescription,
    registry: &TypeRegistry,
    world: &mut World,
) -> (result: Result<ReconcileReport, ReconcileError>)
    requires
        old(world)@.wf(),
        registry_wf(registry@),
        old(world)@.next + description@.len() <= u64::MAX,
    ensures
        final(world)@.wf(),
        result is Ok == scene_readable(description@, registry@),
        result matches Ok(report) ==> ({
            &&& final(world)@ == reconciled(old(world)@, description@, registry@)
            &&& report.mapping@ == mapping_of(scene_handles(description@), old(world)@.next)
            &&& report.skipped@ == skipped(description@, registry@, description@.len() as int)
        }),
        result matches Err(e) ==> e == ReconcileError::Decode && final(world)@ == old(world)@,
{
    if !is_readable(description, registry) {
        return Err(ReconcileError::Decode);
    }
    world.despawn(Selector::Prefab);
    let ghost cleared = world@;
    let ghost scene = description@;
    let (table, mapping) = allocate(description, world);
    proof {
        lemma_pass_start(cleared, scene, registry@);
    }
    let mut skipped_so_far: Vec<Skipped> = Vec::new();
    let mut i: usize = 0;
    while i < description.entities.len()
        invariant
            0 <= i <= description.entities.len(),
            scene == description@,
            scene.len() == description.entities.len(),
            cleared.wf(),
            cleared.next + scene.len() <= u64::MAX,
            registry_wf(registry@),
            table@ == remap_of(scene_handles(scene), cleared.next),
            world@ == pass_world(cleared, scene, registry@, i as int, 0),
            world@.wf(),
            skipped_so_far@ == skipped(scene, registry@, i as int),
        decreases description.entities.len() - i,
    {
        assert(scene[i as int] == description.entities[i as int]@);
        apply_entry(
            &description.entities[i],
            i,
            registry,
            &table,
            world,
            &mut skipped_so_far,
            Ghost(cleared),
            Ghost(scene),
        );
        i += 1;
    }
    proof {
        lemma_pass_end(old(world)@, scene, registry@);
    }
    Ok(ReconcileReport { mapping, skipped: skipped_so_far })
}

} // verus!
