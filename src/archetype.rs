use std::collections::HashMap;

use vstd::prelude::*;

use crate::accessor::storage_matches;
use crate::entity::{EcsError, Entity};
use crate::storage::ArchetypeStorage;

verus! {

/// Identifies an archetype: an index into the registry's archetype list.
#[derive(Copy, Clone, Debug, PartialEq, Eq, Hash, Structural)]
pub struct ArchetypeId {
    pub index: usize,
}

/// Index of the archetype of entities without components.
pub const DEFAULT_ARCHETYPE_INDEX: usize = 0;

/// The archetype of entities without components.
pub open spec fn default_archetype() -> ArchetypeId {
    ArchetypeId { index: DEFAULT_ARCHETYPE_INDEX }
}

impl ArchetypeId {
    /// The archetype of entities without components.
    pub fn default_archetype() -> (r: ArchetypeId)
        ensures
            r == default_archetype(),
    {
        ArchetypeId { index: DEFAULT_ARCHETYPE_INDEX }
    }
}

/// A set of component types, in the order they were assigned, with the byte
/// size of each.
pub struct Archetype {
    pub component_types: Vec<u64>,
    pub component_sizes: Vec<usize>,
}

/// Sum of the first `k` sizes.
pub open spec fn prefix_size(sizes: Seq<usize>, k: int) -> nat
    decreases k,
{
    if k <= 0 || sizes.len() == 0 {
        0
    } else if k > sizes.len() {
        prefix_size(sizes, sizes.len() as int)
    } else {
        prefix_size(sizes, k - 1) + sizes[k - 1] as nat
    }
}

/// Sum of all sizes: the byte length of one row.
pub open spec fn total_size(sizes: Seq<usize>) -> nat {
    prefix_size(sizes, sizes.len() as int)
}

/// Every component is followed by the next one inside the row.
pub proof fn lemma_prefix_size_mono(sizes: Seq<usize>, j: int, k: int)
    requires
        0 <= j <= k <= sizes.len(),
    ensures
        prefix_size(sizes, j) <= prefix_size(sizes, k),
    decreases k - j,
{
    if j < k {
        lemma_prefix_size_mono(sizes, j, k - 1);
    }
}

impl Archetype {
    /// Types are distinct and each has a size.
    pub open spec fn wf(&self) -> bool {
        &&& self.component_types@.len() == self.component_sizes@.len()
        &&& self.component_types@.no_duplicates()
    }

    /// Same cardinality and same members, in any order.
    pub open spec fn same_types(&self, types: Seq<u64>) -> bool {
        &&& self.component_types@.len() == types.len()
        &&& forall|i: int| 0 <= i < types.len() ==> self.component_types@.contains(#[trigger] types[i])
    }

    pub fn contains_type(&self, type_tag: u64) -> (r: bool)
        ensures
            r == self.component_types@.contains(type_tag),
    {
        let mut i: usize = 0;
        while i < self.component_types.len()
            invariant
                i <= self.component_types@.len(),
                forall|j: int| 0 <= j < i ==> self.component_types@[j] != type_tag,
            decreases self.component_types@.len() - i,
        {
            if self.component_types[i] == type_tag {
                return true;
            }
            i = i + 1;
        }
        false
    }

    /// Position of a type in the archetype's list.
    pub fn position_of(&self, type_tag: u64) -> (r: Option<usize>)
        ensures
            match r {
                Some(i) => i < self.component_types@.len() && self.component_types@[i as int] == type_tag,
                None => !self.component_types@.contains(type_tag),
            },
    {
        let mut i: usize = 0;
        while i < self.component_types.len()
            invariant
                i <= self.component_types@.len(),
                forall|j: int| 0 <= j < i ==> self.component_types@[j] != type_tag,
            decreases self.component_types@.len() - i,
        {
            if self.component_types[i] == type_tag {
                return Some(i);
            }
            i = i + 1;
        }
        None
    }

    /// Whether this archetype holds exactly the given types.
    pub fn has_same_types(&self, types: &Vec<u64>) -> (r: bool)
        ensures
            r == self.same_types(types@),
    {
        if self.component_types.len() != types.len() {
            return false;
        }
        let mut i: usize = 0;
        while i < types.len()
            invariant
                i <= types@.len(),
                self.component_types@.len() == types@.len(),
                forall|j: int| 0 <= j < i ==> self.component_types@.contains(#[trigger] types@[j]),
            decreases types@.len() - i,
        {
            if !self.contains_type(types[i]) {
                return false;
            }
            i = i + 1;
        }
        true
    }

    /// Byte length of one row of this archetype, or `None` when it does not fit
    /// in `usize`.
    pub fn row_size(&self) -> (r: Option<usize>)
        ensures
            match r {
                Some(n) => n == total_size(self.component_sizes@),
                None => total_size(self.component_sizes@) > usize::MAX,
            },
    {
        let mut sum: usize = 0;
        let mut i: usize = 0;
        while i < self.component_sizes.len()
            invariant
                i <= self.component_sizes@.len(),
                sum == prefix_size(self.component_sizes@, i as int),
            decreases self.component_sizes@.len() - i,
        {
            let s = self.component_sizes[i];
            if s > usize::MAX - sum {
                proof {
                    lemma_prefix_size_mono(self.component_sizes@, i + 1, self.component_sizes@.len() as int);
                }
                return None;
            }
            sum = sum + s;
            i = i + 1;
        }
        Some(sum)
    }
}

} // verus!

verus! {

broadcast use vstd::std_specs::hash::group_hash_axioms;

/// Rows per archetype of a registry made by `default`.
pub const DEFAULT_ROW_CAPACITY: usize = 10000;

/// The catalog of archetypes, their storages, and the archetype of each entity.
///
/// `entity_archetypes` maps an entity id, then a version, to the archetype of
/// that handle: one record per handle; an entity without a record is in the
/// default archetype.
/// `storage[i]` holds the rows of `archetypes[i]`; index 0 is the default
/// archetype, which has no component and no row.
pub struct ArchetypeManager {
    pub entity_archetypes: HashMap<u64, HashMap<u64, ArchetypeId>>,
    pub archetypes: Vec<Archetype>,
    pub archetype_index_seq: usize,
    pub storage: Vec<ArchetypeStorage>,
    pub capacity: usize,
}

impl ArchetypeManager {
    pub open spec fn wf(&self) -> bool {
        &&& self.archetypes@.len() >= 1
        &&& self.archetypes@[0].component_types@.len() == 0
        &&& self.archetype_index_seq == self.archetypes@.len()
        &&& self.storage@.len() == self.archetypes@.len()
        &&& self.storage@[0].capacity == 0
        &&& forall|i: int| 0 <= i < self.archetypes@.len() ==> {
                &&& storage_matches(&#[trigger] self.archetypes@[i], &self.storage@[i])
                &&& self.storage@[i].archetype_id.index == i
            }
    }

    /// The archetype recorded for `entity`, or the default one.
    /// `entity` has an archetype record.
    pub open spec fn has_record(&self, entity: Entity) -> bool {
        &&& self.entity_archetypes@.contains_key(entity.id)
        &&& self.entity_archetypes@[entity.id]@.contains_key(entity.version)
    }

    /// The archetype recorded for `entity`.
    pub open spec fn record(&self, entity: Entity) -> ArchetypeId {
        self.entity_archetypes@[entity.id]@[entity.version]
    }

    pub open spec fn archetype_of(&self, entity: Entity) -> ArchetypeId {
        if self.has_record(entity) {
            self.record(entity)
        } else {
            default_archetype()
        }
    }

    /// Index of the first archetype holding exactly `types`, if any.
    pub open spec fn first_match(&self, types: Seq<u64>, i: int) -> bool {
        &&& 0 <= i < self.archetypes@.len()
        &&& self.archetypes@[i].same_types(types)
        &&& forall|j: int| 0 <= j < i ==> !(#[trigger] self.archetypes@[j]).same_types(types)
    }

    /// At most one archetype is the first to hold a given set of types.
    pub proof fn lemma_first_match_unique(&self, types: Seq<u64>, i: int, j: int)
        requires
            self.first_match(types, i),
            self.first_match(types, j),
        ensures
            i == j,
    {
        if i < j {
            assert(!self.archetypes@[i].same_types(types));
        } else if j < i {
            assert(!self.archetypes@[j].same_types(types));
        }
    }

    /// An empty registry whose archetypes get `capacity` rows each.
    pub fn with_capacity(capacity: usize) -> (r: ArchetypeManager)
        ensures
            r.wf(),
            r.capacity == capacity,
            r.archetypes@.len() == 1,
            r.entity_archetypes@ == Map::<u64, HashMap<u64, ArchetypeId>>::empty(),
    {
        let default_id = ArchetypeId::default_archetype();
        let empty = Archetype { component_types: Vec::new(), component_sizes: Vec::new() };
        let mut archetypes: Vec<Archetype> = Vec::new();
        archetypes.push(empty);
        let mut storage: Vec<ArchetypeStorage> = Vec::new();
        storage.push(ArchetypeStorage::create(default_id, 0, 0));
        let r = ArchetypeManager {
            entity_archetypes: HashMap::new(),
            archetypes,
            archetype_index_seq: 1,
            storage,
            capacity,
        };
        assert(total_size(r.archetypes@[0].component_sizes@) == 0);
        r
    }

    pub fn get_archetype_id(&self, entity: Entity) -> (r: ArchetypeId)
        ensures
            r == self.archetype_of(entity),
    {
        match self.entity_archetypes.get(&entity.id) {
            Some(versions) => match versions.get(&entity.version) {
                Some(archetype_id) => *archetype_id,
                None => ArchetypeId::default_archetype(),
            },
            None => ArchetypeId::default_archetype(),
        }
    }

    pub fn get_archetype(&self, archetype_id: ArchetypeId) -> (r: Option<&Archetype>)
        ensures
            match r {
                Some(a) => archetype_id.index < self.archetypes@.len()
                    && *a == self.archetypes@[archetype_id.index as int],
                None => archetype_id.index >= self.archetypes@.len(),
            },
    {
        if archetype_id.index < self.archetypes.len() {
            Some(&self.archetypes[archetype_id.index])
        } else {
            None
        }
    }

    pub fn get_archetype_for_entity(&self, entity: Entity) -> (r: Option<&Archetype>)
        ensures
            match r {
                Some(a) => self.archetype_of(entity).index < self.archetypes@.len()
                    && *a == self.archetypes@[self.archetype_of(entity).index as int],
                None => self.archetype_of(entity).index >= self.archetypes@.len(),
            },
    {
        let archetype_id = self.get_archetype_id(entity);
        self.get_archetype(archetype_id)
    }

    /// The id of the first archetype whose type set equals `components`, in
    /// any order.
    pub fn find_archetype_id(&self, components: &Vec<u64>) -> (r: Option<ArchetypeId>)
        ensures
            match r {
                Some(id) => self.first_match(components@, id.index as int),
                None => forall|i: int| 0 <= i < self.archetypes@.len()
                    ==> !(#[trigger] self.archetypes@[i]).same_types(components@),
            },
    {
        let mut i: usize = 0;
        while i < self.archetypes.len()
            invariant
                i <= self.archetypes@.len(),
                forall|j: int| 0 <= j < i ==> !(#[trigger] self.archetypes@[j]).same_types(components@),
            decreases self.archetypes@.len() - i,
        {
            if self.archetypes[i].has_same_types(components) {
                return Some(ArchetypeId { index: i });
            }
            i = i + 1;
        }
        None
    }

    /// The first archetype whose type set equals `components`, in any order.
    pub fn find_archetype(&self, components: Vec<u64>) -> (r: Option<&Archetype>)
        ensures
            match r {
                Some(a) => exists|i: int| self.first_match(components@, i) && *a == self.archetypes@[i],
                None => forall|i: int| 0 <= i < self.archetypes@.len()
                    ==> !(#[trigger] self.archetypes@[i]).same_types(components@),
            },
    {
        match self.find_archetype_id(&components) {
            Some(id) => Some(&self.archetypes[id.index]),
            None => None,
        }
    }

    /// Appends `archetype` with an empty, zero-filled storage and returns its
    /// id, the next in sequence; fails when a row of it, or its whole buffer,
    /// would not fit in memory.
    pub fn register_archetype(&mut self, archetype: Archetype) -> (r: Result<ArchetypeId, EcsError>)
        requires
            old(self).wf(),
            archetype.wf(),
        ensures
            final(self).wf(),
            final(self).capacity == old(self).capacity,
            final(self).entity_archetypes@ == old(self).entity_archetypes@,
            r is Err <==> total_size(archetype.component_sizes@) > usize::MAX
                || old(self).capacity * total_size(archetype.component_sizes@) > usize::MAX,
            r is Err ==> r == Err::<ArchetypeId, EcsError>(EcsError::CapacityExhausted)
                && *final(self) == *old(self),
            r is Ok ==> {
                let id = r->Ok_0;
                &&& id.index == old(self).archetypes@.len()
                &&& final(self).archetypes@ == old(self).archetypes@.push(archetype)
                &&& final(self).storage@.len() == old(self).storage@.len() + 1
                &&& final(self).storage@.take(id.index as int) == old(self).storage@
                &&& final(self).storage@[id.index as int].is_fresh(
                        id, total_size(archetype.component_sizes@) as usize, old(self).capacity)
            },
    {
        let row_size = match archetype.row_size() {
            Some(n) => n,
            None => {
                return Err(EcsError::CapacityExhausted);
            },
        };
        let buffer_len = self.capacity.checked_mul(row_size);
        if buffer_len.is_none() {
            return Err(EcsError::CapacityExhausted);
        }
        let archetype_id = ArchetypeId { index: self.archetype_index_seq };
        let archetype_storage = ArchetypeStorage::create(archetype_id, row_size, self.capacity);
        self.storage.push(archetype_storage);
        self.archetypes.push(archetype);
        self.archetype_index_seq = self.archetypes.len();
        proof {
            assert(self.storage@.take(archetype_id.index as int) =~= old(self).storage@);
            assert forall|i: int| 0 <= i < self.archetypes@.len() implies {
                &&& storage_matches(&#[trigger] self.archetypes@[i], &self.storage@[i])
                &&& self.storage@[i].archetype_id.index == i
            } by {
                assert(self.storage@[0] == old(self).storage@[0]);
                if i < old(self).archetypes@.len() {
                    assert(self.archetypes@[i] == old(self).archetypes@[i]);
                    assert(self.storage@[i] == old(self).storage@[i]);
                }
            }
        }
        Ok(archetype_id)
    }

    /// Records `archetype_id` as the archetype of `entity`.
    pub fn set_entity_archetype(&mut self, entity: Entity, archetype_id: ArchetypeId)
        requires
            old(self).wf(),
        ensures
            final(self).wf(),
            final(self).has_record(entity),
            final(self).record(entity) == archetype_id,
            forall|e2: Entity| e2 != entity ==> (#[trigger] final(self).has_record(e2) <==> old(self).has_record(e2)),
            forall|e2: Entity| e2 != entity && old(self).has_record(e2) ==> #[trigger] final(self).record(e2) == old(self).record(e2),
            final(self).archetypes@ == old(self).archetypes@,
            final(self).storage@ == old(self).storage@,
            final(self).capacity == old(self).capacity,
    {
        let mut versions = match self.entity_archetypes.remove(&entity.id) {
            Some(versions) => versions,
            None => HashMap::new(),
        };
        versions.insert(entity.version, archetype_id);
        self.entity_archetypes.insert(entity.id, versions);
    }

    /// Drops the archetype record of `entity`.
    pub fn clear_entity_archetype(&mut self, entity: Entity)
        requires
            old(self).wf(),
        ensures
            final(self).wf(),
            !final(self).has_record(entity),
            forall|e2: Entity| e2 != entity ==> (#[trigger] final(self).has_record(e2) <==> old(self).has_record(e2)),
            forall|e2: Entity| e2 != entity && old(self).has_record(e2) ==> #[trigger] final(self).record(e2) == old(self).record(e2),
            final(self).archetypes@ == old(self).archetypes@,
            final(self).storage@ == old(self).storage@,
            final(self).capacity == old(self).capacity,
    {
        match self.entity_archetypes.remove(&entity.id) {
            Some(versions) => {
                let mut versions = versions;
                versions.remove(&entity.version);
                self.entity_archetypes.insert(entity.id, versions);
            },
            None => {},
        }
    }
}

impl Default for ArchetypeManager {
    fn default() -> (r: ArchetypeManager)
        ensures
            r.wf(),
            r.capacity == DEFAULT_ROW_CAPACITY,
            r.archetypes@.len() == 1,
            r.entity_archetypes@ == Map::<u64, HashMap<u64, ArchetypeId>>::empty(),
    {
        ArchetypeManager::with_capacity(DEFAULT_ROW_CAPACITY)
    }
}

} // verus!
