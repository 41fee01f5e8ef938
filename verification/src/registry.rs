use vstd::prelude::*;

verus! {

/// What the engine knows of one component type: its stable identifier, its
/// name, and its two capabilities.
#[derive(Clone, Debug, PartialEq, Eq)]
pub struct TypeDescriptor {
    pub type_id: u64,
    pub name: String,
    /// The type can be applied to, or inserted on, an entity.
    pub can_apply: bool,
    /// The type declares entity-reference fields, to be rewritten on load.
    pub maps_entities: bool,
}

/// What a [`TypeDescriptor`] stands for in contracts.
pub struct DescriptorView {
    pub type_id: u64,
    pub name: Seq<char>,
    pub can_apply: bool,
    pub maps_entities: bool,
}

impl View for TypeDescriptor {
    type V = DescriptorView;

    open spec fn view(&self) -> DescriptorView {
        DescriptorView {
            type_id: self.type_id,
            name: self.name@,
            can_apply: self.can_apply,
            maps_entities: self.maps_entities,
        }
    }
}

/// Whether a descriptor is registered under the identifier `type_id`.
pub open spec fn knows_id(reg: Seq<DescriptorView>, type_id: u64) -> bool {
    exists|i: int| 0 <= i < reg.len() && (#[trigger] reg[i]).type_id == type_id
}

/// Whether a descriptor is registered under the name `name`.
pub open spec fn knows_name(reg: Seq<DescriptorView>, name: Seq<char>) -> bool {
    exists|i: int| 0 <= i < reg.len() && (#[trigger] reg[i]).name == name
}

/// The descriptor registered under `type_id`, if there is one.
pub open spec fn resolve_id(reg: Seq<DescriptorView>, type_id: u64) -> Option<DescriptorView> {
    if knows_id(reg, type_id) {
        Some(reg[choose|i: int| 0 <= i < reg.len() && (#[trigger] reg[i]).type_id == type_id])
    } else {
        None
    }
}

/// The descriptor registered under `name`, if there is one.
pub open spec fn resolve_name(reg: Seq<DescriptorView>, name: Seq<char>) -> Option<
    DescriptorView,
> {
    if knows_name(reg, name) {
        Some(reg[choose|i: int| 0 <= i < reg.len() && (#[trigger] reg[i]).name == name])
    } else {
        None
    }
}

/// No identifier and no name is registered twice.
pub open spec fn registry_wf(reg: Seq<DescriptorView>) -> bool {
    forall|i: int, j: int|
        0 <= i < j < reg.len() ==> (#[trigger] reg[i]).type_id != (#[trigger] reg[j]).type_id
            && reg[i].name != reg[j].name
}

/// In a well-formed registry an entry is what its name and its identifier
/// resolve to.
pub proof fn lemma_resolve_at(reg: Seq<DescriptorView>, i: int)
    requires
        registry_wf(reg),
        0 <= i < reg.len(),
    ensures
        resolve_name(reg, reg[i].name) == Some(reg[i]),
        resolve_id(reg, reg[i].type_id) == Some(reg[i]),
{
    let a = choose|k: int| 0 <= k < reg.len() && (#[trigger] reg[k]).name == reg[i].name;
    assert(reg[a].name == reg[i].name);
    assert(a == i) by {
        if a < i {
            assert(reg[a].name != reg[i].name);
        } else if i < a {
            assert(reg[i].name != reg[a].name);
        }
    }
    let b = choose|k: int| 0 <= k < reg.len() && (#[trigger] reg[k]).type_id == reg[i].type_id;
    assert(reg[b].type_id == reg[i].type_id);
    assert(b == i) by {
        if b < i {
            assert(reg[b].type_id != reg[i].type_id);
        } else if i < b {
            assert(reg[i].type_id != reg[b].type_id);
        }
    }
}

/// The mapping from type identifiers and names to descriptors. It is filled
/// once, before the world starts processing, and only read afterwards.
pub struct TypeRegistry {
    entries: Vec<TypeDescriptor>,
}

impl View for TypeRegistry {
    type V = Seq<DescriptorView>;

    closed spec fn view(&self) -> Seq<DescriptorView> {
        self.entries@.map_values(|d: TypeDescriptor| d@)
    }
}

impl TypeRegistry {
    /// A registry without entries.
    pub fn new() -> (reg: TypeRegistry)
        ensures
            reg@ == Seq::<DescriptorView>::empty(),
            registry_wf(reg@),
    {
        let reg = TypeRegistry { entries: Vec::new() };
        assert(reg@ =~= Seq::<DescriptorView>::empty());
        reg
    }

    /// The number of registered types.
    pub fn len(&self) -> (n: usize)
        ensures
            n == self@.len(),
    {
        self.entries.len()
    }

    /// Registers `descriptor`, unless its identifier or its name is taken:
    /// registering a type again changes nothing. Returns whether it was added.
    pub fn register(&mut self, descriptor: TypeDescriptor) -> (added: bool)
        requires
            registry_wf(old(self)@),
        ensures
            added == (!knows_id(old(self)@, descriptor.type_id) && !knows_name(
                old(self)@,
                descriptor.name@,
            )),
            final(self)@ == (if added {
                old(self)@.push(descriptor@)
            } else {
                old(self)@
            }),
            registry_wf(final(self)@),
    {
        let mut i: usize = 0;
        while i < self.entries.len()
            invariant
                0 <= i <= self.entries.len(),
                *self == *old(self),
                registry_wf(self@),
                forall|k: int|
                    0 <= k < i ==> (#[trigger] self@[k]).type_id != descriptor.type_id
                        && self@[k].name != descriptor.name@,
            decreases self.entries.len() - i,
        {
            assert(self@[i as int] == self.entries[i as int]@);
            if self.entries[i].type_id == descriptor.type_id || self.entries[i].name
                == descriptor.name {
                return false;
            }
            i += 1;
        }
        self.entries.push(descriptor);
        assert(self@ =~= old(self)@.push(descriptor@));
        true
    }

    /// The descriptor registered under `type_id`.
    pub fn lookup(&self, type_id: u64) -> (found: Option<&TypeDescriptor>)
        requires
            registry_wf(self@),
        ensures
            found is Some == knows_id(self@, type_id),
            found matches Some(d) ==> Some(d@) == resolve_id(self@, type_id),
    {
        let mut i: usize = 0;
        while i < self.entries.len()
            invariant
                0 <= i <= self.entries.len(),
                registry_wf(self@),
                forall|k: int| 0 <= k < i ==> (#[trigger] self@[k]).type_id != type_id,
            decreases self.entries.len() - i,
        {
            assert(self@[i as int] == self.entries[i as int]@);
            if self.entries[i].type_id == type_id {
                proof {
                    lemma_resolve_at(self@, i as int);
                }
                return Some(&self.entries[i]);
            }
            i += 1;
        }
        None
    }

    /// The descriptor registered under `name`, or `None` where the name is
    /// not found.
    pub fn lookup_by_name(&self, name: &String) -> (found: Option<&TypeDescriptor>)
        requires
            registry_wf(self@),
        ensures
            found is Some == knows_name(self@, name@),
            found matches Some(d) ==> Some(d@) == resolve_name(self@, name@),
    {
        let mut i: usize = 0;
        while i < self.entries.len()
            invariant
                0 <= i <= self.entries.len(),
                registry_wf(self@),
                forall|k: int| 0 <= k < i ==> (#[trigger] self@[k]).name != name@,
            decreases self.entries.len() - i,
        {
            assert(self@[i as int] == self.entries[i as int]@);
            if self.entries[i].name == *name {
                proof {
                    lemma_resolve_at(self@, i as int);
                }
                return Some(&self.entries[i]);
            }
            i += 1;
        }
        None
    }
}

} // verus!
