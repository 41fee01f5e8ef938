use crate::reconcile::applied;
use crate::reconcile::built;
use crate::reconcile::instantiated;
use crate::reconcile::lemma_first_handles;
use crate::reconcile::produced;
use crate::reconcile::apply_record;
use crate::reconcile::reconciled;
use crate::reconcile::remap_of;
use crate::reconcile::entry_readable;
use crate::reconcile::rewrites;
use crate::reconcile::scene_handles;
use crate::reconcile::scene_readable;
use crate::reconcile::skip_reason;
use crate::registry::lemma_resolve_at;
use crate::registry::registry_wf;
use crate::registry::resolve_id;
use crate::registry::resolve_name;
use crate::registry::DescriptorView;
use crate::remap::rewritten;
use crate::scene::defines;
use crate::scene::record_closed;
use crate::scene::RecordView;
use crate::scene::SceneEntityView;
use crate::world::distinct_types;
use crate::world::has_type;
use crate::world::lemma_despawned;
use crate::world::lemma_entity_at;
use crate::world::lemma_with_component;
use crate::world::survivors;
use crate::world::with_component;
use crate::world::type_index;
use crate::world::ComponentView;
use crate::world::EntityView;
use crate::world::Selector;
use crate::world::WorldView;
use vstd::prelude::*;

verus! {

/// The last of the first `m` records that is applied with the type `t`.
pub open spec fn last_record_of_type(
    records: Seq<RecordView>,
    reg: Seq<DescriptorView>,
    t: u64,
    m: int,
) -> Option<int>
    decreases m,
{
    if m <= 0 {
        None
    } else if skip_reason(reg, records[m - 1]) is None && resolve_name(
        reg,
        records[m - 1].name,
    )->0.type_id == t {
        Some(m - 1)
    } else {
        last_record_of_type(records, reg, t, m - 1)
    }
}

/// The place of a record in a description: the position of its entry and
/// its position among the entry's records.
pub struct RecordAt {
    pub entry: int,
    pub index: int,
}

/// The last record, among those that the first `n` entries hold for the
/// handle `h`, that is applied with the type `t`: the position of its entry
/// and its position in the entry.
pub open spec fn last_in_scene(
    scene: Seq<SceneEntityView>,
    reg: Seq<DescriptorView>,
    h: u64,
    t: u64,
    n: int,
) -> Option<RecordAt>
    decreases n,
{
    if n <= 0 {
        None
    } else if scene[n - 1].handle == h && last_record_of_type(
        scene[n - 1].components,
        reg,
        t,
        scene[n - 1].components.len() as int,
    ) is Some {
        Some(
            RecordAt {
                entry: n - 1,
                index: last_record_of_type(
                    scene[n - 1].components,
                    reg,
                    t,
                    scene[n - 1].components.len() as int,
                )->0,
            },
        )
    } else {
        last_in_scene(scene, reg, h, t, n - 1)
    }
}

/// The component of type `t` among `components`, if there is one.
pub open spec fn component_of(components: Seq<ComponentView>, t: u64) -> Option<ComponentView> {
    if has_type(components, t) {
        Some(components[type_index(components, t)])
    } else {
        None
    }
}

/// Where the last applied record of a type stands, and that none follows it.
pub proof fn lemma_last_record_of_type(
    records: Seq<RecordView>,
    reg: Seq<DescriptorView>,
    t: u64,
    m: int,
)
    requires
        0 <= m <= records.len(),
    ensures
        match last_record_of_type(records, reg, t, m) {
            Some(j) => 0 <= j < m && skip_reason(reg, records[j]) is None && resolve_name(
                reg,
                records[j].name,
            )->0.type_id == t,
            None => true,
        },
        forall|j: int|
            0 <= j < m && skip_reason(reg, #[trigger] records[j]) is None && resolve_name(
                reg,
                records[j].name,
            )->0.type_id == t ==> last_record_of_type(records, reg, t, m) is Some
                && last_record_of_type(records, reg, t, m)->0 >= j,
    decreases m,
{
    if m > 0 {
        lemma_last_record_of_type(records, reg, t, m - 1);
    }
}

/// Processing records keeps the types distinct; afterwards the component of
/// a type is what the last applied record of that type gave, or what was
/// there before where no record of the type was applied.
pub proof fn lemma_applied(
    components: Seq<ComponentView>,
    records: Seq<RecordView>,
    reg: Seq<DescriptorView>,
    remap: Map<u64, u64>,
    m: int,
)
    requires
        distinct_types(components),
        0 <= m <= records.len(),
    ensures
        distinct_types(applied(components, records, reg, remap, m)),
        forall|t: u64|
            #[trigger] component_of(applied(components, records, reg, remap, m), t) == (
            match last_record_of_type(records, reg, t, m) {
                Some(j) => Some(
                    instantiated(records[j], resolve_name(reg, records[j].name)->0, remap),
                ),
                None => component_of(components, t),
            }),
    decreases m,
{
    if m > 0 {
        lemma_applied(components, records, reg, remap, m - 1);
        let before = applied(components, records, reg, remap, m - 1);
        let after = applied(components, records, reg, remap, m);
        let record = records[m - 1];
        if skip_reason(reg, record) is None {
            let c = instantiated(record, resolve_name(reg, record.name)->0, remap);
            lemma_with_component(before, c);
            assert forall|t: u64| #[trigger] component_of(after, t) == (match last_record_of_type(
                records,
                reg,
                t,
                m,
            ) {
                Some(j) => Some(
                    instantiated(records[j], resolve_name(reg, records[j].name)->0, remap),
                ),
                None => component_of(components, t),
            }) by {
                if t == c.type_id {
                } else {
                    assert(component_of(after, t) == component_of(before, t));
                }
            }
        } else {
            assert forall|t: u64| #[trigger] component_of(after, t) == (match last_record_of_type(
                records,
                reg,
                t,
                m,
            ) {
                Some(j) => Some(
                    instantiated(records[j], resolve_name(reg, records[j].name)->0, remap),
                ),
                None => component_of(components, t),
            }) by {
                assert(component_of(after, t) == component_of(before, t));
            }
        }
    }
}

/// Where the last applied record of a type for a handle stands.
pub proof fn lemma_last_in_scene(
    scene: Seq<SceneEntityView>,
    reg: Seq<DescriptorView>,
    h: u64,
    t: u64,
    n: int,
)
    requires
        0 <= n <= scene.len(),
    ensures
        match last_in_scene(scene, reg, h, t, n) {
            Some(at) => 0 <= at.entry < n && 0 <= at.index < scene[at.entry].components.len()
                && scene[at.entry].handle == h && skip_reason(
                reg,
                scene[at.entry].components[at.index],
            ) is None && resolve_name(reg, scene[at.entry].components[at.index].name)->0.type_id
                == t,
            None => true,
        },
        forall|i: int, j: int|
            0 <= i < n && 0 <= j < scene[i].components.len() && scene[i].handle == h
                && skip_reason(reg, #[trigger] scene[i].components[j]) is None && resolve_name(
                reg,
                scene[i].components[j].name,
            )->0.type_id == t ==> last_in_scene(scene, reg, h, t, n) is Some,
    decreases n,
{
    if n > 0 {
        lemma_last_in_scene(scene, reg, h, t, n - 1);
        let records = scene[n - 1].components;
        lemma_last_record_of_type(records, reg, t, records.len() as int);
    }
}

/// The components that a description gives an entity are distinct in type,
/// and the component of a type is what the last applied record of that type
/// for the entity's handle gave; there is none where no such record exists.
pub proof fn lemma_built(
    scene: Seq<SceneEntityView>,
    reg: Seq<DescriptorView>,
    remap: Map<u64, u64>,
    h: u64,
    n: int,
)
    requires
        0 <= n <= scene.len(),
    ensures
        distinct_types(built(scene, reg, remap, h, n)),
        forall|t: u64|
            #[trigger] component_of(built(scene, reg, remap, h, n), t) == (match last_in_scene(
                scene,
                reg,
                h,
                t,
                n,
            ) {
                Some(at) => Some(
                    instantiated(
                        scene[at.entry].components[at.index],
                        resolve_name(reg, scene[at.entry].components[at.index].name)->0,
                        remap,
                    ),
                ),
                None => None,
            }),
    decreases n,
{
    if n > 0 {
        lemma_built(scene, reg, remap, h, n - 1);
        let before = built(scene, reg, remap, h, n - 1);
        if scene[n - 1].handle == h {
            let records = scene[n - 1].components;
            lemma_applied(before, records, reg, remap, records.len() as int);
            assert forall|t: u64|
                #[trigger] component_of(built(scene, reg, remap, h, n), t) == (match last_in_scene(
                    scene,
                    reg,
                    h,
                    t,
                    n,
                ) {
                    Some(at) => Some(
                    instantiated(
                        scene[at.entry].components[at.index],
                        resolve_name(reg, scene[at.entry].components[at.index].name)->0,
                        remap,
                    ),
                ),
                    None => None,
                }) by {
                assert(component_of(before, t) == (match last_in_scene(scene, reg, h, t, n - 1) {
                    Some(at) => Some(
                    instantiated(
                        scene[at.entry].components[at.index],
                        resolve_name(reg, scene[at.entry].components[at.index].name)->0,
                        remap,
                    ),
                ),
                    None => None,
                }));
            }
        } else {
            assert forall|t: u64|
                #[trigger] component_of(built(scene, reg, remap, h, n), t) == (match last_in_scene(
                    scene,
                    reg,
                    h,
                    t,
                    n,
                ) {
                    Some(at) => Some(
                    instantiated(
                        scene[at.entry].components[at.index],
                        resolve_name(reg, scene[at.entry].components[at.index].name)->0,
                        remap,
                    ),
                ),
                    None => None,
                }) by {
                assert(component_of(before, t) == (match last_in_scene(scene, reg, h, t, n - 1) {
                    Some(at) => Some(
                    instantiated(
                        scene[at.entry].components[at.index],
                        resolve_name(reg, scene[at.entry].components[at.index].name)->0,
                        remap,
                    ),
                ),
                    None => None,
                }));
            }
        }
    } else {
        assert forall|t: u64|
            #[trigger] component_of(built(scene, reg, remap, h, n), t) == None::<
                ComponentView,
            > by {}
    }
}


/// The shape of the world after a pass: it is well-formed; it holds what
/// was outside the prefab content, each entity as it was, and, under the
/// handles from `w.next` on, the entities that the pass created.
pub proof fn lemma_reconciled(w: WorldView, scene: Seq<SceneEntityView>, reg: Seq<DescriptorView>)
    requires
        w.wf(),
        w.next + scene.len() <= u64::MAX,
    ensures
        reconciled(w, scene, reg).wf(),
        scene_handles(scene).len() <= scene.len(),
        forall|h: u64|
            #[trigger] reconciled(w, scene, reg).contains(h) == ((w.contains(h) && !w.in_subtree(
                Selector::Prefab,
                h,
            )) || w.next <= h < w.next + scene_handles(scene).len()),
        forall|h: u64|
            w.contains(h) && !w.in_subtree(Selector::Prefab, h) ==> #[trigger] reconciled(
                w,
                scene,
                reg,
            ).entity(h) == w.entity(h),
        forall|k: int|
            0 <= k < scene_handles(scene).len() ==> reconciled(w, scene, reg).entity(
                (w.next + k) as u64,
            ) == #[trigger] produced(scene, reg, w.next)[k],
{
    let r = reconciled(w, scene, reg);
    let cleared = w.despawned(Selector::Prefab);
    let made = produced(scene, reg, w.next);
    let handles = scene_handles(scene);
    let base = w.next;
    lemma_despawned(w, Selector::Prefab);
    lemma_first_handles(scene, scene.len() as int);
    let split = cleared.entities.len() as int;
    assert forall|i: int| 0 <= i < r.entities.len() implies (#[trigger] r.entities[i]).handle
        < r.next by {
        if i < split {
            assert(r.entities[i] == cleared.entities[i]);
        }
    }
    assert forall|i: int, j: int| 0 <= i < j < r.entities.len() implies (
    #[trigger] r.entities[i]).handle < (#[trigger] r.entities[j]).handle by {
        if j < split {
            assert(r.entities[i] == cleared.entities[i]);
            assert(r.entities[j] == cleared.entities[j]);
        } else if i < split {
            assert(r.entities[i] == cleared.entities[i]);
            assert(cleared.entities[i].handle < cleared.next);
        }
    }
    assert forall|i: int| 0 <= i < r.entities.len() implies match (#[trigger] r.entities[i]).parent {
        Some(p) => p < r.entities[i].handle && r.contains(p),
        None => true,
    } by {
        if i < split {
            assert(r.entities[i] == cleared.entities[i]);
            match cleared.entities[i].parent {
                Some(p) => {
                    let k = cleared.position(p);
                    assert(r.entities[k].handle == p);
                },
                None => {},
            }
        }
    }
    assert forall|i: int| 0 <= i < r.entities.len() implies distinct_types(
        (#[trigger] r.entities[i]).components,
    ) by {
        if i < split {
            assert(r.entities[i] == cleared.entities[i]);
        } else {
            let k = i - split;
            lemma_built(scene, reg, remap_of(handles, base), handles[k], scene.len() as int);
        }
    }
    assert(r.wf());
    assert forall|h: u64| #[trigger] r.contains(h) == ((w.contains(h) && !w.in_subtree(
        Selector::Prefab,
        h,
    )) || base <= h < base + handles.len()) by {
        if r.contains(h) {
            let i = r.position(h);
            if i < split {
                assert(cleared.entities[i].handle == h);
            }
        }
        if cleared.contains(h) {
            let i = cleared.position(h);
            assert(r.entities[i].handle == h);
        }
        if base <= h < base + handles.len() {
            assert(r.entities[split + (h - base)].handle == h);
        }
    }
    assert forall|h: u64| w.contains(h) && !w.in_subtree(Selector::Prefab, h) implies #[trigger] r.entity(
        h,
    ) == w.entity(h) by {
        assert(cleared.contains(h));
        let i = cleared.position(h);
        assert(cleared.entities[i].handle == h);
        assert(r.entities[i] == cleared.entities[i]);
        lemma_entity_at(r, i);
        lemma_entity_at(cleared, i);
    }
    assert forall|k: int| 0 <= k < handles.len() implies r.entity((base + k) as u64)
        == #[trigger] made[k] by {
        assert(r.entities[split + k] == made[k]);
        lemma_entity_at(r, split + k);
    }
}

/// A pass leaves alone every entity that neither carries the prefab marker
/// nor descends from an entity that does: it stays alive and is the same in
/// every field.
pub proof fn lemma_unowned_entities_untouched(
    w: WorldView,
    scene: Seq<SceneEntityView>,
    reg: Seq<DescriptorView>,
    h: u64,
)
    requires
        w.wf(),
        w.next + scene.len() <= u64::MAX,
        w.contains(h),
        !w.in_subtree(Selector::Prefab, h),
    ensures
        reconciled(w, scene, reg).contains(h),
        reconciled(w, scene, reg).entity(h) == w.entity(h),
{
    lemma_reconciled(w, scene, reg);
}

/// A pass removes all earlier prefab content: every entity that carried the
/// prefab marker, or descended from one that did, is gone afterwards. (Its
/// handle is never handed out again.)
pub proof fn lemma_prefab_content_removed(
    w: WorldView,
    scene: Seq<SceneEntityView>,
    reg: Seq<DescriptorView>,
    h: u64,
)
    requires
        w.wf(),
        w.next + scene.len() <= u64::MAX,
        w.in_subtree(Selector::Prefab, h),
    ensures
        !reconciled(w, scene, reg).contains(h),
{
    lemma_reconciled(w, scene, reg);
    let i = w.position(h);
    assert(w.entities[i].handle == h);
}

/// A pass over an empty description only clears: what is left is the world
/// without its prefab content.
pub proof fn lemma_empty_description_clears(w: WorldView, reg: Seq<DescriptorView>)
    requires
        w.wf(),
    ensures
        reconciled(w, Seq::empty(), reg) == w.despawned(Selector::Prefab),
{
    let r = reconciled(w, Seq::<SceneEntityView>::empty(), reg);
    assert(r.entities =~= w.despawned(Selector::Prefab).entities);
}


/// A descriptor that a name resolves to is also what its identifier
/// resolves to.
pub proof fn lemma_resolved_by_id(reg: Seq<DescriptorView>, name: Seq<char>)
    requires
        registry_wf(reg),
        resolve_name(reg, name) is Some,
    ensures
        resolve_id(reg, resolve_name(reg, name)->0.type_id) == resolve_name(reg, name),
{
    let i = choose|i: int| 0 <= i < reg.len() && (#[trigger] reg[i]).name == name;
    lemma_resolve_at(reg, i);
}

/// Every handle that a readable description asks the remap table for, as
/// the handle of an entry or as a reference that is to be rewritten, has its
/// place in the table of the pass before the first record is applied.
pub proof fn lemma_remap_covers_description(
    scene: Seq<SceneEntityView>,
    reg: Seq<DescriptorView>,
    base: u64,
    i: int,
    j: int,
    f: int,
)
    requires
        scene_readable(scene, reg),
        0 <= i < scene.len(),
        0 <= j < scene[i].components.len(),
        0 <= f < scene[i].components[j].refs.len(),
        rewrites(reg, scene[i].components[j]),
    ensures
        remap_of(scene_handles(scene), base).contains_key(scene[i].handle),
        remap_of(scene_handles(scene), base).contains_key(scene[i].components[j].refs[f]),
{
    lemma_first_handles(scene, scene.len() as int);
    let r = scene[i].components[j].refs[f];
    assert(entry_readable(scene, reg, scene[i]));
    assert(record_closed(scene, scene[i].components[j]));
    assert(defines(scene, r));
    let x = choose|x: int| 0 <= x < scene.len() && (#[trigger] scene[x]).handle == r;
    assert(scene_handles(scene).contains(scene[x].handle));
    assert(scene_handles(scene).contains(scene[i].handle));
}

/// The live handle that a pass gives the scene-local handle of an entry,
/// and the entity found under it: one that the pass created, marked as
/// prefab content, absent from the world before.
pub proof fn lemma_entry_is_instantiated(
    w: WorldView,
    scene: Seq<SceneEntityView>,
    reg: Seq<DescriptorView>,
    i: int,
)
    requires
        w.wf(),
        w.next + scene.len() <= u64::MAX,
        0 <= i < scene.len(),
    ensures
        ({
            let handles = scene_handles(scene);
            let remap = remap_of(handles, w.next);
            let h = scene[i].handle;
            let after = reconciled(w, scene, reg);
            &&& remap.contains_key(h)
            &&& w.next <= remap[h] < w.next + handles.len()
            &&& !w.contains(remap[h])
            &&& after.contains(remap[h])
            &&& after.entity(remap[h]).handle == remap[h]
            &&& after.entity(remap[h]).prefab
            &&& after.entity(remap[h]).components == built(scene, reg, remap, h, scene.len() as int)
        }),
{
    let handles = scene_handles(scene);
    let h = scene[i].handle;
    lemma_first_handles(scene, scene.len() as int);
    lemma_reconciled(w, scene, reg);
    assert(handles.contains(h));
    let k = handles.index_of(h);
    assert(handles[k] == h);
    let made = produced(scene, reg, w.next);
    assert(reconciled(w, scene, reg).entity((w.next + k) as u64) == made[k]);
    if w.contains((w.next + k) as u64) {
        let x = w.position((w.next + k) as u64);
        assert(w.entities[x].handle < w.next);
    }
}

/// What a pass attaches: the entity that stands for an entry carries a
/// component of a type exactly where one of the records for its handle is
/// applied with that type, and the component is what the last such record
/// gives, its references rewritten where the type declares them. Records
/// that are passed over leave no trace, and stop no other record.
pub proof fn lemma_last_record_wins(
    w: WorldView,
    scene: Seq<SceneEntityView>,
    reg: Seq<DescriptorView>,
    i: int,
    t: u64,
)
    requires
        w.wf(),
        w.next + scene.len() <= u64::MAX,
        0 <= i < scene.len(),
    ensures
        ({
            let remap = remap_of(scene_handles(scene), w.next);
            let live = remap[scene[i].handle];
            component_of(reconciled(w, scene, reg).entity(live).components, t) == (
            match last_in_scene(scene, reg, scene[i].handle, t, scene.len() as int) {
                Some(at) => Some(
                    instantiated(
                        scene[at.entry].components[at.index],
                        resolve_name(reg, scene[at.entry].components[at.index].name)->0,
                        remap,
                    ),
                ),
                None => None,
            })
        }),
{
    let remap = remap_of(scene_handles(scene), w.next);
    lemma_entry_is_instantiated(w, scene, reg, i);
    lemma_built(scene, reg, remap, scene[i].handle, scene.len() as int);
}

/// Partial failure stays local: a record that can be applied leaves a
/// component of its type on the entity that stands for its entry, whatever
/// becomes of the records before and after it, in its entry or in others.
pub proof fn lemma_failure_is_isolated(
    w: WorldView,
    scene: Seq<SceneEntityView>,
    reg: Seq<DescriptorView>,
    i: int,
    j: int,
)
    requires
        w.wf(),
        w.next + scene.len() <= u64::MAX,
        0 <= i < scene.len(),
        0 <= j < scene[i].components.len(),
        skip_reason(reg, scene[i].components[j]) is None,
    ensures
        ({
            let live = remap_of(scene_handles(scene), w.next)[scene[i].handle];
            let t = resolve_name(reg, scene[i].components[j].name)->0.type_id;
            &&& reconciled(w, scene, reg).contains(live)
            &&& reconciled(w, scene, reg).entity(live).prefab
            &&& has_type(reconciled(w, scene, reg).entity(live).components, t)
        }),
{
    let t = resolve_name(reg, scene[i].components[j].name)->0.type_id;
    lemma_entry_is_instantiated(w, scene, reg, i);
    lemma_last_record_wins(w, scene, reg, i, t);
    lemma_last_in_scene(scene, reg, scene[i].handle, t, scene.len() as int);
}

/// Reference integrity: on an entity that a pass created, every reference
/// of a component whose type declares entity references is the live handle
/// of an entity that the same pass created; it names no entity that was
/// there before, and it is the rewritten form of the reference that the
/// record held at that place.
pub proof fn lemma_reference_integrity(
    w: WorldView,
    scene: Seq<SceneEntityView>,
    reg: Seq<DescriptorView>,
    i: int,
    t: u64,
    f: int,
)
    requires
        w.wf(),
        registry_wf(reg),
        scene_readable(scene, reg),
        w.next + scene.len() <= u64::MAX,
        0 <= i < scene.len(),
        resolve_id(reg, t) matches Some(d) && d.maps_entities,
        component_of(
            reconciled(w, scene, reg).entity(
                remap_of(scene_handles(scene), w.next)[scene[i].handle],
            ).components,
            t,
        ) matches Some(c) && 0 <= f < c.refs.len(),
    ensures
        ({
            let remap = remap_of(scene_handles(scene), w.next);
            let after = reconciled(w, scene, reg);
            let c = component_of(after.entity(remap[scene[i].handle]).components, t)->0;
            let source = last_in_scene(scene, reg, scene[i].handle, t, scene.len() as int);
            &&& source is Some
            &&& f < scene[source->0.entry].components[source->0.index].refs.len()
            &&& remap.contains_key(scene[source->0.entry].components[source->0.index].refs[f])
            &&& c.refs[f] == remap[scene[source->0.entry].components[source->0.index].refs[f]]
            &&& w.next <= c.refs[f] < w.next + scene_handles(scene).len()
            &&& !w.contains(c.refs[f])
            &&& after.contains(c.refs[f])
            &&& after.entity(c.refs[f]).prefab
        }),
{
    let handles = scene_handles(scene);
    let remap = remap_of(handles, w.next);
    let after = reconciled(w, scene, reg);
    lemma_last_record_wins(w, scene, reg, i, t);
    lemma_last_in_scene(scene, reg, scene[i].handle, t, scene.len() as int);
    let source = last_in_scene(scene, reg, scene[i].handle, t, scene.len() as int);
    let a = source->0.entry;
    let record = scene[a].components[source->0.index];
    lemma_resolved_by_id(reg, record.name);
    let r = record.refs[f];
    assert(entry_readable(scene, reg, scene[a]));
    assert(rewrites(reg, record));
    assert(record_closed(scene, record));
    assert(defines(scene, r));
    let x = choose|x: int| 0 <= x < scene.len() && (#[trigger] scene[x]).handle == r;
    lemma_entry_is_instantiated(w, scene, reg, x);
}

/// Forward references resolve: where a record of entry `i` refers to the
/// handle of a later entry `k`, and no later record for the same entity
/// replaces it, the component holds the live handle of the entity that
/// stands for entry `k`, which carries what entry `k` records.
pub proof fn lemma_forward_reference_resolves(
    w: WorldView,
    scene: Seq<SceneEntityView>,
    reg: Seq<DescriptorView>,
    i: int,
    j: int,
    f: int,
    k: int,
)
    requires
        w.wf(),
        w.next + scene.len() <= u64::MAX,
        0 <= i < k < scene.len(),
        0 <= j < scene[i].components.len(),
        0 <= f < scene[i].components[j].refs.len(),
        scene[i].components[j].refs[f] == scene[k].handle,
        skip_reason(reg, scene[i].components[j]) is None,
        resolve_name(reg, scene[i].components[j].name)->0.maps_entities,
        last_in_scene(
            scene,
            reg,
            scene[i].handle,
            resolve_name(reg, scene[i].components[j].name)->0.type_id,
            scene.len() as int,
        ) == Some(RecordAt { entry: i, index: j }),
    ensures
        ({
            let remap = remap_of(scene_handles(scene), w.next);
            let after = reconciled(w, scene, reg);
            let t = resolve_name(reg, scene[i].components[j].name)->0.type_id;
            let c = component_of(after.entity(remap[scene[i].handle]).components, t);
            &&& c is Some
            &&& c->0.refs.len() == scene[i].components[j].refs.len()
            &&& c->0.refs[f] == remap[scene[k].handle]
            &&& after.contains(remap[scene[k].handle])
            &&& after.entity(remap[scene[k].handle]).prefab
            &&& after.entity(remap[scene[k].handle]).components == built(
                scene,
                reg,
                remap,
                scene[k].handle,
                scene.len() as int,
            )
        }),
{
    let t = resolve_name(reg, scene[i].components[j].name)->0.type_id;
    lemma_last_record_wins(w, scene, reg, i, t);
    lemma_entry_is_instantiated(w, scene, reg, k);
}


/// The component `c` with its live references moved up by `shift`, where
/// its type declares entity references.
pub open spec fn relabelled_component(c: ComponentView, reg: Seq<DescriptorView>, shift: int)
    -> ComponentView {
    ComponentView {
        refs: if resolve_id(reg, c.type_id) matches Some(d) && d.maps_entities {
            Seq::new(c.refs.len(), |f: int| (c.refs[f] + shift) as u64)
        } else {
            c.refs
        },
        ..c
    }
}

/// The entity `e` under a handle that is `shift` higher, its components
/// relabelled alike: the same content under other live handles.
pub open spec fn relabelled(e: EntityView, reg: Seq<DescriptorView>, shift: int) -> EntityView {
    EntityView {
        handle: (e.handle + shift) as u64,
        components: Seq::new(
            e.components.len(),
            |x: int| relabelled_component(e.components[x], reg, shift),
        ),
        ..e
    }
}

/// The components `components`, each relabelled.
pub open spec fn relabelled_components(
    components: Seq<ComponentView>,
    reg: Seq<DescriptorView>,
    shift: int,
) -> Seq<ComponentView> {
    Seq::new(components.len(), |x: int| relabelled_component(components[x], reg, shift))
}

/// Apply-or-insert and relabelling can be done in either order.
proof fn lemma_relabel_with_component(
    components: Seq<ComponentView>,
    c: ComponentView,
    reg: Seq<DescriptorView>,
    shift: int,
)
    requires
        distinct_types(components),
    ensures
        with_component(
            relabelled_components(components, reg, shift),
            relabelled_component(c, reg, shift),
        ) == relabelled_components(with_component(components, c), reg, shift),
{
    let moved = relabelled_components(components, reg, shift);
    let mc = relabelled_component(c, reg, shift);
    if has_type(components, c.type_id) {
        let k = type_index(components, c.type_id);
        assert(moved[k].type_id == c.type_id);
        let k2 = type_index(moved, mc.type_id);
        assert(moved[k2].type_id == c.type_id);
        assert(components[k2].type_id == c.type_id);
        assert(k2 == k);
        assert(with_component(moved, mc) =~= relabelled_components(
            with_component(components, c),
            reg,
            shift,
        ));
    } else {
        if has_type(moved, mc.type_id) {
            let k2 = type_index(moved, mc.type_id);
            assert(components[k2].type_id == c.type_id);
        }
        assert(with_component(moved, mc) =~= relabelled_components(
            with_component(components, c),
            reg,
            shift,
        ));
    }
}

/// A record applied under a remap table that lies `shift` higher gives the
/// relabelled component.
proof fn lemma_relabel_record(
    components: Seq<ComponentView>,
    record: RecordView,
    scene: Seq<SceneEntityView>,
    reg: Seq<DescriptorView>,
    base: u64,
    shift: int,
)
    requires
        distinct_types(components),
        registry_wf(reg),
        rewrites(reg, record) ==> record_closed(scene, record),
        0 <= shift,
        base + shift + scene.len() <= u64::MAX,
    ensures
        apply_record(
            relabelled_components(components, reg, shift),
            record,
            reg,
            remap_of(scene_handles(scene), (base + shift) as u64),
        ) == relabelled_components(
            apply_record(components, record, reg, remap_of(scene_handles(scene), base)),
            reg,
            shift,
        ),
{
    let handles = scene_handles(scene);
    let low = remap_of(handles, base);
    let high = remap_of(handles, (base + shift) as u64);
    if skip_reason(reg, record) is None {
        let d = resolve_name(reg, record.name)->0;
        lemma_resolved_by_id(reg, record.name);
        let c = instantiated(record, d, low);
        let c2 = instantiated(record, d, high);
        lemma_first_handles(scene, scene.len() as int);
        assert(c2.refs =~= relabelled_component(c, reg, shift).refs) by {
            if d.maps_entities {
                assert forall|f: int| 0 <= f < record.refs.len() implies c2.refs[f] == (c.refs[f]
                    + shift) as u64 by {
                    let r = record.refs[f];
                    assert(defines(scene, r));
                    let x = choose|x: int| 0 <= x < scene.len() && (#[trigger] scene[x]).handle == r;
                    assert(handles.contains(scene[x].handle));
                    let k = handles.index_of(r);
                    assert(handles[k] == r);
                }
            }
        }
        assert(c2 == relabelled_component(c, reg, shift));
        lemma_relabel_with_component(components, c, reg, shift);
    }
}

/// The components that a description gives an entity under a remap table
/// that lies `shift` higher are the relabelled ones.
proof fn lemma_relabel_applied(
    components: Seq<ComponentView>,
    records: Seq<RecordView>,
    scene: Seq<SceneEntityView>,
    reg: Seq<DescriptorView>,
    base: u64,
    shift: int,
    m: int,
)
    requires
        distinct_types(components),
        registry_wf(reg),
        forall|j: int|
            0 <= j < records.len() && rewrites(reg, #[trigger] records[j]) ==> record_closed(
                scene,
                records[j],
            ),
        0 <= shift,
        base + shift + scene.len() <= u64::MAX,
        0 <= m <= records.len(),
    ensures
        applied(
            relabelled_components(components, reg, shift),
            records,
            reg,
            remap_of(scene_handles(scene), (base + shift) as u64),
            m,
        ) == relabelled_components(
            applied(components, records, reg, remap_of(scene_handles(scene), base), m),
            reg,
            shift,
        ),
    decreases m,
{
    if m > 0 {
        let low = remap_of(scene_handles(scene), base);
        lemma_relabel_applied(components, records, scene, reg, base, shift, m - 1);
        lemma_applied(components, records, reg, low, m - 1);
        lemma_relabel_record(
            applied(components, records, reg, low, m - 1),
            records[m - 1],
            scene,
            reg,
            base,
            shift,
        );
    }
}

/// As [`lemma_relabel_applied`], for all that the first `n` entries record
/// for a handle.
proof fn lemma_relabel_built(
    scene: Seq<SceneEntityView>,
    reg: Seq<DescriptorView>,
    base: u64,
    shift: int,
    h: u64,
    n: int,
)
    requires
        registry_wf(reg),
        scene_readable(scene, reg),
        0 <= shift,
        base + shift + scene.len() <= u64::MAX,
        0 <= n <= scene.len(),
    ensures
        built(scene, reg, remap_of(scene_handles(scene), (base + shift) as u64), h, n)
            == relabelled_components(
            built(scene, reg, remap_of(scene_handles(scene), base), h, n),
            reg,
            shift,
        ),
    decreases n,
{
    let low = remap_of(scene_handles(scene), base);
    let high = remap_of(scene_handles(scene), (base + shift) as u64);
    if n > 0 {
        lemma_relabel_built(scene, reg, base, shift, h, n - 1);
        if scene[n - 1].handle == h {
            let records = scene[n - 1].components;
            lemma_built(scene, reg, low, h, n - 1);
            assert(entry_readable(scene, reg, scene[n - 1]));
            lemma_relabel_applied(
                built(scene, reg, low, h, n - 1),
                records,
                scene,
                reg,
                base,
                shift,
                records.len() as int,
            );
        }
    } else {
        assert(built(scene, reg, high, h, n) =~= relabelled_components(
            built(scene, reg, low, h, n),
            reg,
            shift,
        ));
    }
}

/// After a pass, nothing of what the pass left in place is prefab content.
proof fn lemma_kept_is_unowned(
    w: WorldView,
    scene: Seq<SceneEntityView>,
    reg: Seq<DescriptorView>,
    h: u64,
)
    requires
        w.wf(),
        w.next + scene.len() <= u64::MAX,
        w.contains(h),
        !w.in_subtree(Selector::Prefab, h),
    ensures
        !reconciled(w, scene, reg).in_subtree(Selector::Prefab, h),
    decreases h,
{
    lemma_reconciled(w, scene, reg);
    let i = w.position(h);
    assert(w.entities[i].handle == h);
    match w.entity(h).parent {
        Some(p) => {
            if p < h {
                assert(w.contains(p));
                lemma_kept_is_unowned(w, scene, reg, p);
            }
        },
        None => {},
    }
}

/// A second despawn of prefab content leaves what the first one left.
proof fn lemma_second_clearing(
    w: WorldView,
    scene: Seq<SceneEntityView>,
    reg: Seq<DescriptorView>,
    n: int,
)
    requires
        w.wf(),
        w.next + scene.len() <= u64::MAX,
        0 <= n <= reconciled(w, scene, reg).entities.len(),
    ensures
        survivors(reconciled(w, scene, reg), Selector::Prefab, n) == w.despawned(
            Selector::Prefab,
        ).entities.take(
            if n <= w.despawned(Selector::Prefab).entities.len() {
                n
            } else {
                w.despawned(Selector::Prefab).entities.len() as int
            },
        ),
    decreases n,
{
    let once = reconciled(w, scene, reg);
    let cleared = w.despawned(Selector::Prefab);
    let split = cleared.entities.len() as int;
    lemma_reconciled(w, scene, reg);
    lemma_despawned(w, Selector::Prefab);
    if n > 0 {
        lemma_second_clearing(w, scene, reg, n - 1);
        lemma_entity_at(once, n - 1);
        let e = once.entities[n - 1];
        if n - 1 < split {
            assert(e == cleared.entities[n - 1]);
            assert(cleared.contains(e.handle));
            lemma_kept_is_unowned(w, scene, reg, e.handle);
            assert(survivors(once, Selector::Prefab, n) =~= cleared.entities.take(n));
        } else {
            assert(e.prefab);
            assert(once.in_subtree(Selector::Prefab, e.handle));
            assert(cleared.entities.take(split) =~= cleared.entities);
        }
    } else {
        assert(survivors(once, Selector::Prefab, n) =~= cleared.entities.take(0));
    }
}

/// Reload is idempotent. A second pass over the same description, right
/// after the first, leaves what was outside the prefab content as the first
/// pass left it, and creates the same entities again: as many, each with
/// the prefab marker and the same components, under handles that lie higher
/// by the number of entities created, the references to them moved alike.
pub proof fn lemma_reload_is_idempotent(
    w: WorldView,
    scene: Seq<SceneEntityView>,
    reg: Seq<DescriptorView>,
)
    requires
        w.wf(),
        registry_wf(reg),
        scene_readable(scene, reg),
        w.next + 2 * scene.len() <= u64::MAX,
    ensures
        ({
            let once = reconciled(w, scene, reg);
            let twice = reconciled(once, scene, reg);
            let kept = w.despawned(Selector::Prefab).entities;
            let shift = scene_handles(scene).len() as int;
            &&& once.entities == kept + produced(scene, reg, w.next)
            &&& twice.entities == kept + produced(scene, reg, once.next)
            &&& twice.entities.len() == once.entities.len()
            &&& produced(scene, reg, once.next).len() == shift
            &&& forall|k: int|
                0 <= k < shift ==> #[trigger] produced(scene, reg, once.next)[k] == relabelled(
                    produced(scene, reg, w.next)[k],
                    reg,
                    shift,
                )
        }),
{
    let once = reconciled(w, scene, reg);
    let twice = reconciled(once, scene, reg);
    let cleared = w.despawned(Selector::Prefab);
    let handles = scene_handles(scene);
    let shift = handles.len() as int;
    lemma_reconciled(w, scene, reg);
    lemma_second_clearing(w, scene, reg, once.entities.len() as int);
    assert(cleared.entities.take(cleared.entities.len() as int) =~= cleared.entities);
    assert(once.despawned(Selector::Prefab).entities == cleared.entities);
    assert forall|k: int| 0 <= k < shift implies #[trigger] produced(scene, reg, once.next)[k]
        == relabelled(produced(scene, reg, w.next)[k], reg, shift) by {
        lemma_relabel_built(scene, reg, w.next, shift, handles[k], scene.len() as int);
        let a = produced(scene, reg, once.next)[k];
        let b = relabelled(produced(scene, reg, w.next)[k], reg, shift);
        assert(a.components =~= b.components);
    }
}

} // verus!
