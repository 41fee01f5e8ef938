use bevy::ecs::entity::Entity;
use bevy::ecs::entity::EntityMap;
use crate::scene::SceneHandle;
use crate::world::LiveHandle;
use vstd::prelude::*;

verus! {

/// bevy's `EntityMap`, a mapping from entities to entities. Its inside is
/// not looked into: the three functions below speak for it.
#[verifier::external_type_specification]
#[verifier::external_body]
pub struct ExEntityMap(EntityMap);

/// The pairs that an entity map holds, each entity written as its 64 bits.
pub uninterp spec fn remap_contents(map: EntityMap) -> Map<u64, u64>;

/// `EntityMap::default`: a map without entries.
#[verifier::external_body]
fn entity_map_new() -> (fresh: EntityMap)
    ensures
        remap_contents(fresh) == (Map::<u64, u64>::empty()),
{
    EntityMap::default()
}

/// `EntityMap::get`: the entity recorded for `from`, if there is one. Handles
/// go in and out through `Entity::from_bits` and `Entity::to_bits`, which are
/// inverse to each other.
#[verifier::external_body]
fn entity_map_get(map: &EntityMap, from: u64) -> (to: Option<u64>)
    ensures
        to == (if remap_contents(*map).contains_key(from) {
            Some(remap_contents(*map)[from])
        } else {
            None
        }),
{
    map.get(Entity::from_bits(from)).map(Entity::to_bits)
}

/// `EntityMap::insert`: records `to` for `from`, in place of what was
/// recorded for it, and leaves the other pairs alone.
#[verifier::external_body]
fn entity_map_insert(map: &mut EntityMap, from: u64, to: u64)
    ensures
        remap_contents(*final(map)) == remap_contents(*old(map)).insert(from, to),
{
    map.insert(Entity::from_bits(from), Entity::from_bits(to));
}

/// The mapping from scene-local handles to live handles that one
/// reconciliation pass builds up and then discards.
pub struct RemapTable {
    map: EntityMap,
}

impl View for RemapTable {
    type V = Map<u64, u64>;

    closed spec fn view(&self) -> Map<u64, u64> {
        remap_contents(self.map)
    }
}

/// The references `refs` as the table `remap` rewrites them: a handle that
/// the table holds becomes the live handle recorded for it, any other stays.
pub open spec fn rewritten(remap: Map<u64, u64>, refs: Seq<u64>) -> Seq<u64> {
    Seq::new(
        refs.len(),
        |f: int| if remap.contains_key(refs[f]) {
            remap[refs[f]]
        } else {
            refs[f]
        },
    )
}

impl RemapTable {
    /// A table without entries.
    pub fn new() -> (table: RemapTable)
        ensures
            table@ == (Map::<u64, u64>::empty()),
    {
        RemapTable { map: entity_map_new() }
    }

    /// The live handle recorded for the scene-local handle `scene`.
    pub fn get(&self, scene: SceneHandle) -> (live: Option<LiveHandle>)
        ensures
            live == (if self@.contains_key(scene) {
                Some(self@[scene])
            } else {
                None
            }),
    {
        entity_map_get(&self.map, scene)
    }

    /// Records that the scene-local handle `scene` stands for `live`.
    pub fn insert(&mut self, scene: SceneHandle, live: LiveHandle)
        ensures
            final(self)@ == old(self)@.insert(scene, live),
    {
        entity_map_insert(&mut self.map, scene, live);
    }

    /// Rewrites scene-local references into live ones.
    pub fn rewrite(&self, refs: &Vec<SceneHandle>) -> (out: Vec<LiveHandle>)
        ensures
            out@ == rewritten(self@, refs@),
    {
        let mut out: Vec<u64> = Vec::new();
        let mut f: usize = 0;
        while f < refs.len()
            invariant
                0 <= f <= refs.len(),
                out@ == rewritten(self@, refs@).take(f as int),
            decreases refs.len() - f,
        {
            let r = refs[f];
            let live = match self.get(r) {
                Some(l) => l,
                None => r,
            };
            out.push(live);
            assert(out@ =~= rewritten(self@, refs@).take(f + 1));
            f += 1;
        }
        assert(out@ =~= rewritten(self@, refs@));
        out
    }
}

} // verus!
