use std::collections::HashMap;

use vstd::prelude::*;

use crate::archetype::ArchetypeId;
use crate::entity::{EcsError, Entity};

verus! {

broadcast use vstd::std_specs::hash::group_hash_axioms;

/// There are `n` values of `usize` below `n`.
proof fn lemma_usize_range_len(n: usize)
    ensures
        Set::new(|r: usize| r < n).finite(),
        Set::new(|r: usize| r < n).len() == n,
    decreases n,
{
    let s = Set::new(|r: usize| r < n);
    if n == 0 {
        assert(s =~= Set::empty());
    } else {
        lemma_usize_range_len((n - 1) as usize);
        let t = Set::new(|r: usize| r < (n - 1) as usize);
        assert(s =~= t.insert((n - 1) as usize));
    }
}

/// Fixed-capacity, row-major byte storage for the entities of one archetype.
///
/// `row_owners[r]` is the entity occupying row `r`, if any, and
/// `entity_indices` maps each occupying entity (by id, then version) back to
/// its row; `free_indices` is a stack of the unoccupied rows, the last one
/// handed out first; `data` holds `capacity` rows of `archetype_size` bytes
/// each.
pub struct ArchetypeStorage {
    pub archetype_id: ArchetypeId,
    pub archetype_size: usize,
    pub capacity: usize,
    pub free_indices: Vec<usize>,
    pub row_owners: Vec<Option<Entity>>,
    pub entity_indices: HashMap<u64, HashMap<u64, usize>>,
    pub data: Vec<u8>,
}

impl ArchetypeStorage {
    /// The free rows and the occupied rows partition `0..capacity`, and no
    /// entity occupies two rows.
    pub open spec fn wf(&self) -> bool {
        &&& self.row_owners@.len() == self.capacity
        &&& self.data@.len() == self.capacity * self.archetype_size
        &&& self.free_indices@.no_duplicates()
        &&& forall|i: int| 0 <= i < self.free_indices@.len() ==> #[trigger] self.free_indices@[i] < self.capacity
        &&& forall|r: int| 0 <= r < self.capacity ==>
                (#[trigger] self.row_owners@[r] is None <==> self.free_indices@.contains(r as usize))
        &&& forall|r1: int, r2: int| 0 <= r1 < self.capacity && 0 <= r2 < self.capacity && r1 != r2
                && #[trigger] self.row_owners@[r1] is Some ==> self.row_owners@[r1] != #[trigger] self.row_owners@[r2]
        &&& forall|e: Entity| #[trigger] self.indexed(e) ==> self.holds(e, self.index_of(e) as int)
        &&& forall|r: int| 0 <= r < self.capacity && (#[trigger] self.row_owners@[r]) is Some ==> {
                let e = self.row_owners@[r]->Some_0;
                self.indexed(e) && self.index_of(e) == r
            }
    }

    /// `entity` has an entry in the entity-to-row index.
    pub open spec fn indexed(&self, entity: Entity) -> bool {
        &&& self.entity_indices@.contains_key(entity.id)
        &&& self.entity_indices@[entity.id]@.contains_key(entity.version)
    }

    /// The row the index gives for `entity`.
    pub open spec fn index_of(&self, entity: Entity) -> usize {
        self.entity_indices@[entity.id]@[entity.version]
    }

    /// `entity` occupies row `row`.
    pub open spec fn holds(&self, entity: Entity, row: int) -> bool {
        0 <= row < self.row_owners@.len() && self.row_owners@[row] == Some(entity)
    }

    /// `entity` occupies some row.
    pub open spec fn contains(&self, entity: Entity) -> bool {
        exists|row: int| self.holds(entity, row)
    }

    /// A storage with no occupied row, whose rows are handed out from 0 upwards
    /// and whose buffer is zero-filled.
    pub open spec fn is_fresh(&self, archetype_id: ArchetypeId, archetype_size: usize, capacity: usize) -> bool {
        &&& self.wf()
        &&& self.archetype_id == archetype_id
        &&& self.archetype_size == archetype_size
        &&& self.capacity == capacity
        &&& self.free_indices@.len() == capacity
        &&& forall|i: int| 0 <= i < capacity ==> #[trigger] self.free_indices@[i] == capacity - 1 - i
        &&& forall|row: int| 0 <= row < capacity ==> #[trigger] self.row_owners@[row] is None
        &&& forall|i: int| 0 <= i < self.data@.len() ==> #[trigger] self.data@[i] == 0
    }

    /// The free rows are distinct rows of the storage, so there are at most
    /// `capacity` of them.
    pub proof fn lemma_free_len(&self)
        requires
            self.wf(),
        ensures
            self.free_indices@.len() <= self.capacity,
    {
        let free = self.free_indices@;
        let rows = Set::new(|r: usize| r < self.capacity);
        assert(free.to_set().subset_of(rows));
        vstd::set_lib::lemma_int_range(0, self.capacity as int);
        assert(rows =~= Set::new(|r: usize| (r as int) < self.capacity as int));
        free.unique_seq_to_set();
        lemma_usize_range_len(self.capacity);
        vstd::set_lib::lemma_len_subset(free.to_set(), rows);
    }

    /// Once every row is occupied no row is free, so the next `alloc_row` fails
    /// and leaves the storage as it was.
    pub proof fn lemma_full_storage_has_no_free_row(&self)
        requires
            self.wf(),
            forall|r: int| 0 <= r < self.capacity ==> (#[trigger] self.row_owners@[r]) is Some,
        ensures
            self.free_indices@.len() == 0,
    {
        if self.free_indices@.len() > 0 {
            let r = self.free_indices@[0];
            assert(self.free_indices@.contains(r));
            assert(self.row_owners@[r as int] is Some);
        }
    }

    /// Number of occupied rows.
    pub open spec fn len(&self) -> nat {
        (self.capacity - self.free_indices@.len()) as nat
    }

    /// Empty storage for `capacity` rows of `archetype_size` bytes, zero-filled;
    /// rows are handed out from 0 upwards.
    pub fn create(archetype_id: ArchetypeId, archetype_size: usize, capacity: usize) -> (r: ArchetypeStorage)
        requires
            capacity * archetype_size <= usize::MAX,
        ensures
            r.is_fresh(archetype_id, archetype_size, capacity),
    {
        let mut free_indices: Vec<usize> = Vec::new();
        let mut row_owners: Vec<Option<Entity>> = Vec::new();
        let mut i: usize = 0;
        while i < capacity
            invariant
                i <= capacity,
                free_indices@.len() == i,
                row_owners@.len() == i,
                forall|j: int| 0 <= j < i ==> #[trigger] free_indices@[j] == capacity - 1 - j,
                forall|j: int| 0 <= j < i ==> #[trigger] row_owners@[j] is None,
            decreases capacity - i,
        {
            free_indices.push(capacity - 1 - i);
            row_owners.push(None);
            i = i + 1;
        }
        let n: usize = capacity * archetype_size;
        let mut data: Vec<u8> = Vec::new();
        let mut k: usize = 0;
        while k < n
            invariant
                k <= n,
                data@.len() == k,
                forall|j: int| 0 <= j < k ==> #[trigger] data@[j] == 0,
            decreases n - k,
        {
            data.push(0u8);
            k = k + 1;
        }
        let r = ArchetypeStorage {
            archetype_id,
            archetype_size,
            capacity,
            free_indices,
            row_owners,
            entity_indices: HashMap::new(),
            data,
        };
        assert forall|r1: int| 0 <= r1 < capacity implies
            (#[trigger] r.row_owners@[r1] is None <==> r.free_indices@.contains(r1 as usize)) by {
            let j = capacity - 1 - r1;
            assert(r.free_indices@[j] == r1);
        }
        assert forall|a: int, b: int| 0 <= a < b < r.free_indices@.len() implies r.free_indices@[a] != r.free_indices@[b] by {}
        r
    }

    /// The row `entity` occupies, if any.
    pub fn find_row(&self, entity: Entity) -> (r: Option<usize>)
        requires
            self.wf(),
        ensures
            match r {
                Some(row) => self.holds(entity, row as int),
                None => !self.contains(entity),
            },
    {
        match self.entity_indices.get(&entity.id) {
            Some(versions) => match versions.get(&entity.version) {
                Some(row) => {
                    assert(self.indexed(entity));
                    Some(*row)
                },
                None => {
                    proof { self.lemma_unindexed_absent(entity); }
                    None
                },
            },
            None => {
                proof { self.lemma_unindexed_absent(entity); }
                None
            },
        }
    }

    proof fn lemma_unindexed_absent(&self, entity: Entity)
        requires
            self.wf(),
            !self.indexed(entity),
        ensures
            !self.contains(entity),
    {
        if self.contains(entity) {
            let r = choose|r: int| self.holds(entity, r);
            assert(self.row_owners@[r] is Some);
        }
    }

    /// Records `row` as the row of `entity` in the index.
    fn index_insert(&mut self, entity: Entity, row: usize)
        ensures
            final(self).indexed(entity),
            final(self).index_of(entity) == row,
            forall|e2: Entity| e2 != entity ==> (#[trigger] final(self).indexed(e2) <==> old(self).indexed(e2)),
            forall|e2: Entity| e2 != entity && old(self).indexed(e2) ==> #[trigger] final(self).index_of(e2) == old(self).index_of(e2),
            final(self).archetype_id == old(self).archetype_id,
            final(self).archetype_size == old(self).archetype_size,
            final(self).capacity == old(self).capacity,
            final(self).free_indices@ == old(self).free_indices@,
            final(self).row_owners@ == old(self).row_owners@,
            final(self).data@ == old(self).data@,
    {
        let mut versions = match self.entity_indices.remove(&entity.id) {
            Some(versions) => versions,
            None => HashMap::new(),
        };
        versions.insert(entity.version, row);
        self.entity_indices.insert(entity.id, versions);
    }

    /// Drops `entity` from the index.
    fn index_remove(&mut self, entity: Entity)
        ensures
            !final(self).indexed(entity),
            forall|e2: Entity| e2 != entity ==> (#[trigger] final(self).indexed(e2) <==> old(self).indexed(e2)),
            forall|e2: Entity| e2 != entity && old(self).indexed(e2) ==> #[trigger] final(self).index_of(e2) == old(self).index_of(e2),
            final(self).archetype_id == old(self).archetype_id,
            final(self).archetype_size == old(self).archetype_size,
            final(self).capacity == old(self).capacity,
            final(self).free_indices@ == old(self).free_indices@,
            final(self).row_owners@ == old(self).row_owners@,
            final(self).data@ == old(self).data@,
    {
        match self.entity_indices.remove(&entity.id) {
            Some(versions) => {
                let mut versions = versions;
                versions.remove(&entity.version);
                self.entity_indices.insert(entity.id, versions);
            },
            None => {},
        }
    }

    /// Hands the most recently freed row to `entity`; fails when every row is
    /// occupied, leaving the storage as it was.
    pub fn alloc_row(&mut self, entity: Entity) -> (r: Result<usize, EcsError>)
        requires
            old(self).wf(),
            !old(self).contains(entity),
        ensures
            final(self).wf(),
            final(self).archetype_id == old(self).archetype_id,
            final(self).archetype_size == old(self).archetype_size,
            final(self).capacity == old(self).capacity,
            final(self).data@ == old(self).data@,
            old(self).free_indices@.len() == 0 ==> r == Err::<usize, EcsError>(EcsError::CapacityExhausted)
                && *final(self) == *old(self),
            old(self).free_indices@.len() > 0 ==> {
                let row = old(self).free_indices@.last();
                &&& r == Ok::<usize, EcsError>(row)
                &&& final(self).free_indices@ == old(self).free_indices@.drop_last()
                &&& final(self).row_owners@ == old(self).row_owners@.update(row as int, Some(entity))
            },
    {
        if self.free_indices.len() == 0 {
            return Err(EcsError::CapacityExhausted);
        }
        match self.free_indices.pop() {
            None => Err(EcsError::CapacityExhausted),
            Some(row) => {
                let ghost old_free = old(self).free_indices@;
                proof {
                    assert(old_free[old_free.len() - 1] == row);
                    assert(old_free.contains(row));
                }
                self.row_owners.set(row, Some(entity));
                self.index_insert(entity, row);
                assert(self.free_indices@ =~= old_free.drop_last());
                assert forall|r1: int| 0 <= r1 < self.capacity implies
                    (#[trigger] self.row_owners@[r1] is None <==> self.free_indices@.contains(r1 as usize)) by {
                    if r1 == row {
                        if self.free_indices@.contains(row) {
                            let j = choose|j: int| 0 <= j < self.free_indices@.len() && self.free_indices@[j] == row;
                            assert(old_free[j] == old_free[old_free.len() - 1]);
                        }
                    } else {
                        if old_free.contains(r1 as usize) {
                            let j = choose|j: int| 0 <= j < old_free.len() && old_free[j] == r1 as usize;
                            assert(self.free_indices@[j] == r1);
                        }
                    }
                }
                assert forall|r1: int, r2: int| 0 <= r1 < self.capacity && 0 <= r2 < self.capacity && r1 != r2
                    && #[trigger] self.row_owners@[r1] is Some implies self.row_owners@[r1] != #[trigger] self.row_owners@[r2] by {
                    if r1 == row {
                        assert(!old(self).holds(entity, r2));
                    } else if r2 == row {
                        assert(!old(self).holds(entity, r1));
                    }
                }
                assert forall|e: Entity| #[trigger] self.indexed(e) implies self.holds(e, self.index_of(e) as int) by {
                    if e != entity {
                        assert(old(self).indexed(e));
                        assert(old(self).holds(e, old(self).index_of(e) as int));
                    }
                }
                assert forall|r: int| 0 <= r < self.capacity && (#[trigger] self.row_owners@[r]) is Some implies {
                    let e = self.row_owners@[r]->Some_0;
                    self.indexed(e) && self.index_of(e) == r
                } by {
                    if r != row {
                        let e = self.row_owners@[r]->Some_0;
                        assert(old(self).row_owners@[r] == Some(e));
                        assert(e != entity) by {
                            assert(old(self).holds(e, r));
                        }
                    }
                }
                Ok(row)
            },
        }
    }

    /// Releases the row `entity` occupies, if any, putting it on top of the free
    /// stack; returns that row.
    pub fn free_row(&mut self, entity: Entity) -> (r: Option<usize>)
        requires
            old(self).wf(),
        ensures
            final(self).wf(),
            final(self).archetype_id == old(self).archetype_id,
            final(self).archetype_size == old(self).archetype_size,
            final(self).capacity == old(self).capacity,
            final(self).data@ == old(self).data@,
            !final(self).contains(entity),
            match r {
                Some(row) => {
                    &&& old(self).holds(entity, row as int)
                    &&& final(self).free_indices@ == old(self).free_indices@.push(row)
                    &&& final(self).row_owners@ == old(self).row_owners@.update(row as int, None)
                },
                None => !old(self).contains(entity) && *final(self) == *old(self),
            },
    {
        match self.find_row(entity) {
            None => None,
            Some(row) => {
                let ghost old_free = old(self).free_indices@;
                self.row_owners.set(row, None);
                let ghost s1 = *self;
                assert(s1.entity_indices@ == old(self).entity_indices@);
                self.index_remove(entity);
                let ghost s2 = *self;
                self.free_indices.push(row);
                proof {
                    assert forall|e: Entity| #[trigger] self.indexed(e) implies self.holds(e, self.index_of(e) as int) by {
                        assert(s2.indexed(e));
                        assert(e != entity);
                        assert(s1.indexed(e));
                        assert(old(self).indexed(e));
                        assert(old(self).holds(e, old(self).index_of(e) as int));
                        assert(s2.index_of(e) == s1.index_of(e));
                    }
                    assert forall|r: int| 0 <= r < self.capacity && (#[trigger] self.row_owners@[r]) is Some implies {
                        let e = self.row_owners@[r]->Some_0;
                        self.indexed(e) && self.index_of(e) == r
                    } by {
                        let e = self.row_owners@[r]->Some_0;
                        assert(old(self).row_owners@[r] == Some(e));
                        assert(e != entity);
                        assert(s1.indexed(e));
                        assert(s2.indexed(e));
                        assert(s2.index_of(e) == s1.index_of(e));
                    }
                    assert(!old_free.contains(row));
                    assert forall|a: int, b: int| 0 <= a < b < self.free_indices@.len()
                        implies self.free_indices@[a] != self.free_indices@[b] by {
                        if b == old_free.len() {
                            assert(old_free[a] == self.free_indices@[a]);
                        }
                    }
                    assert forall|r1: int| 0 <= r1 < self.capacity implies
                        (#[trigger] self.row_owners@[r1] is None <==> self.free_indices@.contains(r1 as usize)) by {
                        if r1 != row {
                            if old_free.contains(r1 as usize) {
                                let j = choose|j: int| 0 <= j < old_free.len() && old_free[j] == r1 as usize;
                                assert(self.free_indices@[j] == r1);
                            }
                            if self.free_indices@.contains(r1 as usize) {
                                let j = choose|j: int| 0 <= j < self.free_indices@.len() && self.free_indices@[j] == r1 as usize;
                                assert(old_free[j] == r1);
                            }
                        } else {
                            assert(self.free_indices@[old_free.len() as int] == row);
                        }
                    }
                    assert forall|row2: int| !self.holds(entity, row2) by {
                        if self.holds(entity, row2) {
                            assert(row2 != row);
                            assert(old(self).row_owners@[row2] == Some(entity));
                        }
                    }
                }
                Some(row)
            },
        }
    }
}

} // verus!

verus! {

impl ArchetypeStorage {
    /// Overwrites `bytes.len()` bytes of the buffer from `offset` on.
    pub fn write_bytes(&mut self, offset: usize, bytes: &Vec<u8>)
        requires
            offset + bytes@.len() <= old(self).data@.len(),
        ensures
            final(self).archetype_id == old(self).archetype_id,
            final(self).archetype_size == old(self).archetype_size,
            final(self).capacity == old(self).capacity,
            final(self).free_indices@ == old(self).free_indices@,
            final(self).row_owners@ == old(self).row_owners@,
            final(self).entity_indices@ == old(self).entity_indices@,
            old(self).wf() ==> final(self).wf(),
            final(self).data@ == old(self).data@.take(offset as int) + bytes@
                + old(self).data@.skip(offset + bytes@.len()),
    {
        let data_len: usize = self.data.len();
        let mut i: usize = 0;
        while i < bytes.len()
            invariant
                i <= bytes@.len(),
                offset + bytes@.len() <= old(self).data@.len() == data_len,
                self.archetype_id == old(self).archetype_id,
                self.archetype_size == old(self).archetype_size,
                self.capacity == old(self).capacity,
                self.free_indices@ == old(self).free_indices@,
                self.row_owners@ == old(self).row_owners@,
                self.entity_indices@ == old(self).entity_indices@,
                self.data@.len() == old(self).data@.len(),
                forall|j: int| 0 <= j < offset ==> #[trigger] self.data@[j] == old(self).data@[j],
                forall|j: int| offset <= j < offset + i ==> #[trigger] self.data@[j] == bytes@[j - offset],
                forall|j: int| offset + i <= j < self.data@.len() ==> #[trigger] self.data@[j] == old(self).data@[j],
            decreases bytes@.len() - i,
        {
            self.data.set(offset + i, bytes[i]);
            i = i + 1;
        }
        assert(self.data@ =~= old(self).data@.take(offset as int) + bytes@
            + old(self).data@.skip(offset + bytes@.len()));
        proof {
        if old(self).wf() {
            assert forall|e: Entity| #[trigger] self.indexed(e) implies self.holds(e, self.index_of(e) as int) by {
                assert(old(self).indexed(e));
            }
            assert forall|r: int| 0 <= r < self.capacity && (#[trigger] self.row_owners@[r]) is Some implies {
                let e = self.row_owners@[r]->Some_0;
                self.indexed(e) && self.index_of(e) == r
            } by {
                assert(old(self).row_owners@[r] is Some);
            }
        }
        }
    }

    /// Copies `len` bytes of the buffer from `offset` on.
    pub fn read_bytes(&self, offset: usize, len: usize) -> (r: Vec<u8>)
        requires
            offset + len <= self.data@.len(),
        ensures
            r@ == self.data@.subrange(offset as int, offset + len),
    {
        let data_len: usize = self.data.len();
        let mut out: Vec<u8> = Vec::new();
        let mut i: usize = 0;
        while i < len
            invariant
                i <= len,
                offset + len <= self.data@.len() == data_len,
                out@ == self.data@.subrange(offset as int, offset + i),
            decreases len - i,
        {
            out.push(self.data[offset + i]);
            i = i + 1;
            assert(out@ =~= self.data@.subrange(offset as int, offset + i));
        }
        out
    }
}

} // verus!
