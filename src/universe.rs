use std::collections::HashMap;

use vstd::prelude::*;

use crate::accessor::{offset_of, storage_matches};
use crate::archetype::{default_archetype, prefix_size, total_size, Archetype, ArchetypeId, ArchetypeManager, DEFAULT_ROW_CAPACITY};
use crate::cmd::{run, step, Cmd, CmdChain, QueuedCmd};
use crate::component::Component;
use crate::entity::{EcsError, Entity, EntityAllocator};
use crate::query::{EntityData, EntityQuery};
use crate::storage::ArchetypeStorage;

verus! {

broadcast use vstd::std_specs::hash::group_hash_axioms;

/// Number of entity ids of a universe made by `new`.
pub const DEFAULT_ENTITY_CAPACITY: u64 = 9999;

/// Top-level unit of isolation: the entity pool, the archetypes and their
/// storages, owned together.
pub struct Universe {
    pub entities: EntityAllocator,
    pub archetype_manager: ArchetypeManager,
}

impl Universe {
    pub open spec fn is_valid_spec(&self, entity: Entity) -> bool {
        self.entities@.is_valid(entity)
    }

    /// `entity` is valid and its id is currently issued: it has been created
    /// and not destroyed since.
    pub open spec fn is_live(&self, entity: Entity) -> bool {
        self.is_valid_spec(entity) && self.entities@.live[entity.id as int]
    }

    pub open spec fn archetype_of(&self, entity: Entity) -> ArchetypeId {
        self.archetype_manager.archetype_of(entity)
    }

    pub open spec fn archetypes(&self) -> Seq<Archetype> {
        self.archetype_manager.archetypes@
    }

    pub open spec fn storages(&self) -> Seq<ArchetypeStorage> {
        self.archetype_manager.storage@
    }

    /// The record of `e` is for a live handle, of a non-default archetype
    /// with at least one component, whose storage holds a row for it.
    pub open spec fn record_ok(&self, e: Entity) -> bool {
        let a = self.archetype_manager.record(e).index as int;
        &&& self.is_live(e)
        &&& 1 <= a < self.archetypes().len()
        &&& self.archetypes()[a].component_types@.len() > 0
        &&& self.storages()[a].contains(e)
    }

    /// The entity in row `r` of storage `a` is live and belongs to archetype `a`.
    pub open spec fn owner_ok(&self, a: int, r: int) -> bool {
        let e = self.storages()[a].row_owners@[r]->Some_0;
        &&& self.is_live(e)
        &&& self.archetype_of(e).index == a
    }

    pub open spec fn wf(&self) -> bool {
        &&& self.entities.wf()
        &&& self.archetype_manager.wf()
        &&& forall|e: Entity| #[trigger] self.archetype_manager.has_record(e) ==> self.record_ok(e)
        &&& forall|a: int, r: int| 0 <= a < self.storages().len() && 0 <= r < self.storages()[a].capacity
                && (#[trigger] self.storages()[a].row_owners@[r]) is Some ==> self.owner_ok(a, r)
    }

    /// `entity` has a component of type `type_tag`.
    pub open spec fn has_component_spec(&self, entity: Entity, type_tag: u64) -> bool {
        let a = self.archetype_of(entity).index;
        &&& a != 0
        &&& a < self.archetypes().len()
        &&& self.archetypes()[a as int].component_types@.contains(type_tag)
    }

    /// Outcome of looking a component up: the handle must be valid and its
    /// archetype must hold the type.
    pub open spec fn access_check(&self, entity: Entity, type_tag: u64) -> Result<(), EcsError> {
        if !self.is_valid_spec(entity) {
            Err(EcsError::InvalidHandle)
        } else if !self.has_component_spec(entity, type_tag) {
            Err(EcsError::MissingComponent)
        } else {
            Ok(())
        }
    }

    /// The row `entity` occupies in its archetype's storage.
    pub open spec fn row_of(&self, entity: Entity) -> int {
        choose|r: int| self.storages()[self.archetype_of(entity).index as int].holds(entity, r)
    }

    /// Byte sizes of the components of `entity`'s archetype.
    pub open spec fn sizes_of(&self, entity: Entity) -> Seq<usize> {
        self.archetypes()[self.archetype_of(entity).index as int].component_sizes@
    }

    /// Position of `type_tag` in `entity`'s archetype.
    pub open spec fn component_index(&self, entity: Entity, type_tag: u64) -> int {
        self.archetypes()[self.archetype_of(entity).index as int].component_types@.index_of(type_tag)
    }

    /// Registered byte size of component `type_tag` of `entity`.
    pub open spec fn component_size(&self, entity: Entity, type_tag: u64) -> nat {
        self.sizes_of(entity)[self.component_index(entity, type_tag)] as nat
    }

    /// Offset of component `type_tag` of `entity` in its archetype's buffer.
    pub open spec fn component_offset(&self, entity: Entity, type_tag: u64) -> int {
        offset_of(self.sizes_of(entity), self.row_of(entity), self.component_index(entity, type_tag))
    }

    /// The stored bytes of component `type_tag` of `entity`.
    pub open spec fn component_bytes(&self, entity: Entity, type_tag: u64) -> Seq<u8> {
        let off = self.component_offset(entity, type_tag);
        self.storages()[self.archetype_of(entity).index as int].data@.subrange(
            off,
            off + self.component_size(entity, type_tag),
        )
    }

    /// Outcome of reading component `type_tag` of `entity`.
    pub open spec fn read_result(&self, entity: Entity, type_tag: u64) -> Result<Seq<u8>, EcsError> {
        match self.access_check(entity, type_tag) {
            Ok(()) => Ok(self.component_bytes(entity, type_tag)),
            Err(e) => Err(e),
        }
    }

    /// Outcome of writing `len` bytes as component `type_tag` of `entity`: the
    /// length must be the registered size.
    pub open spec fn write_check(&self, entity: Entity, type_tag: u64, len: nat) -> Result<(), EcsError> {
        match self.access_check(entity, type_tag) {
            Ok(()) => if len == self.component_size(entity, type_tag) {
                Ok(())
            } else {
                Err(EcsError::TypeMismatch)
            },
            Err(e) => Err(e),
        }
    }

    /// The two universes differ at most in the bytes of their buffers.
    pub open spec fn same_layout(&self, other: &Universe) -> bool {
        &&& self.entities@ == other.entities@
        &&& self.archetype_manager.entity_archetypes@ == other.archetype_manager.entity_archetypes@
        &&& self.archetypes() == other.archetypes()
        &&& self.archetype_manager.capacity == other.archetype_manager.capacity
        &&& self.storages().len() == other.storages().len()
        &&& forall|a: int| 0 <= a < self.storages().len() ==> {
                let s = #[trigger] self.storages()[a];
                let t = other.storages()[a];
                &&& s.archetype_id == t.archetype_id
                &&& s.archetype_size == t.archetype_size
                &&& s.capacity == t.capacity
                &&& s.free_indices@ == t.free_indices@
                &&& s.row_owners@ == t.row_owners@
            }
    }

    /// A universe with ids `1..=entity_capacity` and `row_capacity` rows per
    /// archetype, with no archetype but the default one.
    pub fn with_capacity(entity_capacity: u64, row_capacity: usize) -> (r: Universe)
        requires
            entity_capacity < u64::MAX,
        ensures
            r.wf(),
            r.entities@.free.len() == entity_capacity,
            forall|i: int| 0 <= i < entity_capacity ==> #[trigger] r.entities@.free[i] == entity_capacity - i,
            r.entities@.versions.len() == entity_capacity + 1,
            forall|i: int| 1 <= i <= entity_capacity ==> #[trigger] r.entities@.versions[i] == 1,
            forall|i: int| 0 <= i <= entity_capacity ==> !#[trigger] r.entities@.live[i],
            r.archetypes().len() == 1,
            r.archetype_manager.capacity == row_capacity,
            r.archetype_manager.entity_archetypes@ == Map::<u64, HashMap<u64, ArchetypeId>>::empty(),
    {
        let r = Universe {
            entities: EntityAllocator::with_capacity(entity_capacity),
            archetype_manager: ArchetypeManager::with_capacity(row_capacity),
        };
        assert(storage_matches(&r.archetypes()[0], &r.storages()[0]));
        r
    }

    /// A universe of `DEFAULT_ENTITY_CAPACITY` ids, issued from 1 upwards at
    /// version 1, and `DEFAULT_ROW_CAPACITY` rows per archetype.
    pub fn new() -> (r: Universe)
        ensures
            r.wf(),
            r.entities@.free.len() == DEFAULT_ENTITY_CAPACITY,
            forall|i: int| 0 <= i < DEFAULT_ENTITY_CAPACITY ==> #[trigger] r.entities@.free[i] == DEFAULT_ENTITY_CAPACITY - i,
            r.entities@.versions.len() == DEFAULT_ENTITY_CAPACITY + 1,
            forall|i: int| 1 <= i <= DEFAULT_ENTITY_CAPACITY ==> #[trigger] r.entities@.versions[i] == 1,
            forall|i: int| 0 <= i <= DEFAULT_ENTITY_CAPACITY ==> !#[trigger] r.entities@.live[i],
            r.archetypes().len() == 1,
            r.archetype_manager.capacity == DEFAULT_ROW_CAPACITY,
            r.archetype_manager.entity_archetypes@ == Map::<u64, HashMap<u64, ArchetypeId>>::empty(),
    {
        Universe::with_capacity(DEFAULT_ENTITY_CAPACITY, DEFAULT_ROW_CAPACITY)
    }

    pub fn is_valid(&self, entity: Entity) -> (r: bool)
        requires
            self.wf(),
        ensures
            r == self.is_valid_spec(entity),
    {
        self.entities.is_valid(entity)
    }

    /// Issues a fresh entity, in the default archetype; fails when the pool is
    /// exhausted.
    pub fn create_entity(&mut self) -> (r: Result<Entity, EcsError>)
        requires
            old(self).wf(),
        ensures
            final(self).wf(),
            final(self).archetype_manager == old(self).archetype_manager,
            final(self).entities@ == old(self).entities@.create().0,
            match old(self).entities@.create().1 {
                Some(e) => r == Ok::<Entity, EcsError>(e),
                None => r == Err::<Entity, EcsError>(EcsError::CapacityExhausted),
            },
            r is Ok ==> {
                let e = r->Ok_0;
                &&& final(self).is_live(e)
                &&& !final(self).archetype_manager.has_record(e)
                &&& final(self).archetype_of(e) == default_archetype()
                &&& forall|a: int| 0 <= a < final(self).storages().len() ==> !(#[trigger] final(self).storages()[a]).contains(e)
            },
    {
        let ghost u0 = *old(self);
        match self.entities.create() {
            Some(e) => {
                proof { self.lemma_wf_after_create(u0, e); }
                Ok(e)
            },
            None => Err(EcsError::CapacityExhausted),
        }
    }

    proof fn lemma_wf_after_create(&self, u0: Universe, e: Entity)
        requires
            u0.wf(),
            self.entities.wf(),
            self.archetype_manager == u0.archetype_manager,
            (self.entities@, Some(e)) == u0.entities@.create(),
        ensures
            self.wf(),
            !self.archetype_manager.has_record(e),
            forall|a: int| 0 <= a < self.storages().len() ==> !(#[trigger] self.storages()[a]).contains(e),
    {
        let m = u0.entities@;
        assert(m.free.contains(e.id)) by {
            assert(m.free[m.free.len() - 1] == e.id);
        }
        assert(!m.live[e.id as int]);
        assert forall|x: Entity| #[trigger] self.archetype_manager.has_record(x) implies self.record_ok(x) by {
            assert(u0.record_ok(x));
            assert(x.id != e.id);
        }
        assert forall|a: int, r: int| 0 <= a < self.storages().len() && 0 <= r < self.storages()[a].capacity
            && (#[trigger] self.storages()[a].row_owners@[r]) is Some implies self.owner_ok(a, r) by {
            assert(u0.owner_ok(a, r));
        }
        if self.archetype_manager.has_record(e) {
            assert(u0.record_ok(e));
        }
        assert forall|a: int| 0 <= a < self.storages().len() implies !(#[trigger] self.storages()[a]).contains(e) by {
            if self.storages()[a].contains(e) {
                let r = choose|r: int| self.storages()[a].holds(e, r);
                assert(u0.owner_ok(a, r));
            }
        }
    }

    pub fn has_component_by_tag(&self, entity: Entity, type_tag: u64) -> (r: Result<bool, EcsError>)
        requires
            self.wf(),
        ensures
            !self.is_valid_spec(entity) ==> r == Err::<bool, EcsError>(EcsError::InvalidHandle),
            self.is_valid_spec(entity) ==> r == Ok::<bool, EcsError>(self.has_component_spec(entity, type_tag)),
    {
        if !self.is_valid(entity) {
            return Err(EcsError::InvalidHandle);
        }
        let archetype_id = self.archetype_manager.get_archetype_id(entity);
        if archetype_id.index == 0 {
            return Ok(false);
        }
        match self.archetype_manager.get_archetype(archetype_id) {
            Some(archetype) => Ok(archetype.contains_type(type_tag)),
            None => Ok(false),
        }
    }

    /// `new` is `self` after destroying `entity`: its record is dropped and
    /// the row it occupied, if any, goes back on top of its storage's free
    /// stack; nothing else of the registry or the storages changes.
    pub open spec fn destroyed(&self, new: Universe, entity: Entity) -> bool {
        &&& !new.archetype_manager.has_record(entity)
        &&& forall|e2: Entity| e2 != entity ==> #[trigger] new.archetype_of(e2) == self.archetype_of(e2)
        &&& new.archetypes() == self.archetypes()
        &&& new.storages().len() == self.storages().len()
        &&& forall|a: int| 0 <= a < new.storages().len() && a != self.archetype_of(entity).index
            ==> #[trigger] new.storages()[a] == self.storages()[a]
        &&& forall|a: int| 0 <= a < new.storages().len()
            ==> !(#[trigger] new.storages()[a]).contains(entity)
        &&& self.archetype_of(entity).index != 0 ==> {
            let a = self.archetype_of(entity).index as int;
            let row = self.row_of(entity);
            &&& self.storages()[a].holds(entity, row)
            &&& new.storages()[a].free_indices@ == self.storages()[a].free_indices@.push(row as usize)
            &&& new.storages()[a].row_owners@ == self.storages()[a].row_owners@.update(row, None)
            &&& new.storages()[a].data@ == self.storages()[a].data@
        }
    }

    /// What queued command `cmd` does to the registry and the storages, given
    /// whether it succeeded: a creation changes neither, a destruction acts
    /// as `destroy_entity` does.
    pub open spec fn cmd_effect(&self, new: Universe, cmd: QueuedCmd, succeeded: bool) -> bool {
        match cmd {
            QueuedCmd::CreateEntity(_) => new.archetype_manager == self.archetype_manager,
            QueuedCmd::DestroyEntity(c) => if succeeded {
                self.destroyed(new, c.entity)
            } else {
                new.archetype_manager == self.archetype_manager
            },
        }
    }

    /// Invalidates a valid handle and reclaims the row it occupied, if any; its
    /// id is reused first. Fails on an invalid handle, and when the id's
    /// versions are used up.
    pub fn destroy_entity(&mut self, entity: Entity) -> (r: Result<(), EcsError>)
        requires
            old(self).wf(),
        ensures
            final(self).wf(),
            (final(self).entities@, r) == old(self).entities@.destroy(entity),
            r is Err ==> final(self).archetype_manager == old(self).archetype_manager,
            r is Ok ==> old(self).destroyed(*final(self), entity),
    {
        let ghost u0 = *old(self);
        let archetype_id = self.archetype_manager.get_archetype_id(entity);
        match self.entities.destroy(entity) {
            Err(e) => return Err(e),
            Ok(()) => {},
        }
        let ghost a = archetype_id.index as int;
        proof {
            if a != 0 {
                assert(u0.archetype_manager.has_record(entity));
                assert(u0.record_ok(entity));
                let row = u0.row_of(entity);
                assert(u0.storages()[a].holds(entity, row));
            }
        }
        if archetype_id.index != 0 {
            let freed = self.archetype_manager.storage[archetype_id.index].free_row(entity);
            proof {
                let m = self.archetype_manager;
                assert forall|i: int| 0 <= i < m.archetypes@.len() implies {
                    &&& storage_matches(&#[trigger] m.archetypes@[i], &m.storage@[i])
                    &&& m.storage@[i].archetype_id.index == i
                } by {
                    assert(u0.archetype_manager.storage@[i].archetype_id.index == i);
                }
                let row = u0.row_of(entity);
                assert(freed == Some(row as usize));
            }
        }
        self.archetype_manager.clear_entity_archetype(entity);
        proof { self.lemma_wf_after_destroy(u0, entity); }
        Ok(())
    }

    proof fn lemma_wf_after_destroy(&self, u0: Universe, entity: Entity)
        requires
            u0.wf(),
            u0.is_valid_spec(entity),
            self.entities.wf(),
            self.archetype_manager.wf(),
            (self.entities@, Ok::<(), EcsError>(())) == u0.entities@.destroy(entity),
            !self.archetype_manager.has_record(entity),
            forall|e2: Entity| e2 != entity ==> (#[trigger] self.archetype_manager.has_record(e2) <==> u0.archetype_manager.has_record(e2)),
            forall|e2: Entity| e2 != entity && u0.archetype_manager.has_record(e2)
                ==> #[trigger] self.archetype_manager.record(e2) == u0.archetype_manager.record(e2),
            self.archetypes() == u0.archetypes(),
            self.storages().len() == u0.storages().len(),
            forall|a: int| 0 <= a < self.storages().len() && a != u0.archetype_of(entity).index
                ==> #[trigger] self.storages()[a] == u0.storages()[a],
            u0.archetype_of(entity).index != 0 ==> {
                let a = u0.archetype_of(entity).index as int;
                let row = u0.row_of(entity);
                &&& self.storages()[a].free_indices@ == u0.storages()[a].free_indices@.push(row as usize)
                &&& self.storages()[a].row_owners@ == u0.storages()[a].row_owners@.update(row, None)
                &&& self.storages()[a].capacity == u0.storages()[a].capacity
                &&& !self.storages()[a].contains(entity)
            },
        ensures
            self.wf(),
            forall|a: int| 0 <= a < self.storages().len() ==> !(#[trigger] self.storages()[a]).contains(entity),
    {
        let ea = u0.archetype_of(entity).index as int;
        assert forall|x: Entity| #[trigger] self.archetype_manager.has_record(x) implies self.record_ok(x) by {
            assert(u0.archetype_manager.has_record(x));
            assert(u0.record_ok(x));
            let i = u0.archetype_manager.record(x).index as int;
            if i == ea {
                let row = choose|row: int| u0.storages()[ea].holds(x, row);
                assert(self.storages()[ea].holds(x, row));
            }
        }
        assert forall|a: int, r: int| 0 <= a < self.storages().len() && 0 <= r < self.storages()[a].capacity
            && (#[trigger] self.storages()[a].row_owners@[r]) is Some implies self.owner_ok(a, r) by {
            let o = self.storages()[a].row_owners@[r]->Some_0;
            assert(u0.storages()[a].row_owners@[r] == Some(o));
            assert(u0.owner_ok(a, r));
            if o.id == entity.id {
                assert(o == entity);
                assert(a == ea);
                assert(self.storages()[a].holds(entity, r));
            }
        }
        assert forall|a: int| 0 <= a < self.storages().len() implies !(#[trigger] self.storages()[a]).contains(entity) by {
            if a != ea {
                if self.storages()[a].contains(entity) {
                    let r = choose|r: int| self.storages()[a].holds(entity, r);
                    assert(u0.owner_ok(a, r));
                }
            }
        }
    }

    /// What attaching component `type_tag` of byte size `size` to `entity`
    /// does, going from `self` to `new` with outcome `r`.
    pub open spec fn add_outcome(&self, new: Universe, entity: Entity, type_tag: u64, size: usize, r: Result<(), EcsError>) -> bool {
        &&& new.entities@ == self.entities@
        &&& !self.is_live(entity) ==> r == Err::<(), EcsError>(EcsError::InvalidHandle)
            && new.archetype_manager == self.archetype_manager
        &&& self.is_live(entity) && self.archetype_of(entity).index != 0 ==> {
            &&& new.archetype_manager == self.archetype_manager
            &&& r == if self.has_component_spec(entity, type_tag) {
                    Ok::<(), EcsError>(())
                } else {
                    Err::<(), EcsError>(EcsError::MigrationUnsupported)
                }
        }
        &&& self.is_live(entity) && self.archetype_of(entity).index == 0 ==> {
            &&& r is Ok <==> self.add_fits(type_tag, size)
            &&& r is Err ==> r == Err::<(), EcsError>(EcsError::CapacityExhausted)
                && new.archetype_manager == self.archetype_manager
            &&& r is Ok ==> self.added(new, entity, type_tag, size)
        }
    }

    /// Room for an entity of the default archetype to get component
    /// `type_tag`: the first archetype holding exactly that type has a free
    /// row, or there is none and a new one of `size`-byte rows fits.
    pub open spec fn add_fits(&self, type_tag: u64, size: usize) -> bool {
        ||| exists|i: int| #[trigger] self.archetype_manager.first_match(seq![type_tag], i)
                && self.storages()[i].free_indices@.len() > 0
        ||| (forall|i: int| 0 <= i < self.archetypes().len()
                ==> !(#[trigger] self.archetypes()[i]).same_types(seq![type_tag]))
            && self.archetype_manager.capacity > 0
            && self.archetype_manager.capacity * size <= usize::MAX
    }

    /// `new` is `self` with `entity` moved from the default archetype into the
    /// first archetype holding exactly `type_tag`: into the last freed row of
    /// an existing one, or into row 0 of a new one of `size`-byte rows
    /// appended to the registry. Nothing else changes.
    pub open spec fn added(&self, new: Universe, entity: Entity, type_tag: u64, size: usize) -> bool {
        let a = new.archetype_of(entity).index as int;
        let n = self.archetypes().len() as int;
        &&& new.has_component_spec(entity, type_tag)
        &&& new.archetype_manager.first_match(seq![type_tag], a)
        &&& new.storages()[a].contains(entity)
        &&& n <= new.archetypes().len() <= n + 1
        &&& new.archetypes().take(n) == self.archetypes()
        &&& new.storages().len() == new.archetypes().len()
        &&& new.archetype_manager.capacity == self.archetype_manager.capacity
        &&& forall|e2: Entity| e2 != entity ==> #[trigger] new.archetype_of(e2) == self.archetype_of(e2)
        &&& forall|i: int| 0 <= i < n && i != a ==> #[trigger] new.storages()[i] == self.storages()[i]
        &&& a < n ==> {
            let row = self.storages()[a].free_indices@.last();
            &&& new.archetypes() == self.archetypes()
            &&& new.storages()[a].row_owners@ == self.storages()[a].row_owners@.update(row as int, Some(entity))
            &&& new.storages()[a].free_indices@ == self.storages()[a].free_indices@.drop_last()
            &&& new.storages()[a].data@ == self.storages()[a].data@
        }
        &&& a == n ==> {
            &&& new.archetypes()[a].component_types@ == seq![type_tag]
            &&& new.archetypes()[a].component_sizes@ == seq![size]
            &&& new.storages()[a].holds(entity, 0)
            &&& new.storages()[a].capacity == self.archetype_manager.capacity
            &&& new.storages()[a].free_indices@.len() == self.archetype_manager.capacity - 1
            &&& forall|j: int| 0 <= j < self.archetype_manager.capacity - 1
                ==> #[trigger] new.storages()[a].free_indices@[j] == self.archetype_manager.capacity - 1 - j
            &&& forall|j: int| 0 <= j < new.storages()[a].data@.len() ==> #[trigger] new.storages()[a].data@[j] == 0
        }
    }

    /// Attaches a component of type `type_tag` and byte size `size` to an
    /// entity that has none: the entity joins the first archetype holding
    /// exactly that type, which is registered first if there is none, and gets
    /// a row in its storage. On an entity that already has components it only
    /// reports whether the type is among them. A handle that is not live (not
    /// valid, or of an id not issued) is refused with `InvalidHandle`.
    pub fn add_component_by_tag(&mut self, entity: Entity, type_tag: u64, size: usize) -> (r: Result<(), EcsError>)
        requires
            old(self).wf(),
        ensures
            final(self).wf(),
            old(self).add_outcome(*final(self), entity, type_tag, size, r),
    {
        let ghost u0 = *old(self);
        if !self.entities.is_live(entity) {
            return Err(EcsError::InvalidHandle);
        }
        let current = self.archetype_manager.get_archetype_id(entity);
        if current.index != 0 {
            return match self.archetype_manager.get_archetype(current) {
                Some(archetype) => if archetype.contains_type(type_tag) {
                    Ok(())
                } else {
                    Err(EcsError::MigrationUnsupported)
                },
                None => Err(EcsError::MigrationUnsupported),
            };
        }
        let mut types: Vec<u64> = Vec::new();
        types.push(type_tag);
        let ghost single = seq![type_tag];
        assert(types@ =~= single);
        let archetype_id = match self.archetype_manager.find_archetype_id(&types) {
            Some(id) => {
                if self.archetype_manager.storage[id.index].free_indices.len() == 0 {
                    proof {
                        assert forall|i: int| #[trigger] u0.archetype_manager.first_match(single, i)
                            implies u0.storages()[i].free_indices@.len() == 0 by {
                            u0.archetype_manager.lemma_first_match_unique(single, i, id.index as int);
                        }
                    }
                    return Err(EcsError::CapacityExhausted);
                }
                proof {
                    assert(self.archetypes().take(u0.archetypes().len() as int) =~= u0.archetypes());
                    assert(self.storages().take(u0.storages().len() as int) =~= u0.storages());
                }
                id
            },
            None => {
                if self.archetype_manager.capacity == 0 {
                    return Err(EcsError::CapacityExhausted);
                }
                let mut sizes: Vec<usize> = Vec::new();
                sizes.push(size);
                let archetype = Archetype { component_types: types, component_sizes: sizes };
                proof {
                    assert(archetype.component_types@ =~= seq![type_tag]);
                    assert(total_size(archetype.component_sizes@) == size) by {
                        reveal_with_fuel(prefix_size, 2);
                    }
                    assert(archetype.component_types@.no_duplicates());
                }
                match self.archetype_manager.register_archetype(archetype) {
                    Ok(id) => {
                        proof {
                            assert forall|j: int| 0 <= j < id.index implies
                                !(#[trigger] self.archetypes()[j]).same_types(single) by {
                                assert(self.archetypes()[j] == u0.archetypes()[j]);
                            }
                            assert(self.archetypes()[id.index as int].component_types@ == single);
                            assert(self.archetype_manager.first_match(single, id.index as int));
                            assert(self.archetypes().take(u0.archetypes().len() as int) =~= u0.archetypes());
                        }
                        id
                    },
                    Err(e) => return Err(e),
                }
            },
        };
        let ghost u1 = *self;
        proof {
            assert(u1.archetype_manager.first_match(single, archetype_id.index as int));
            assert forall|i: int| 0 <= i < u0.storages().len() implies #[trigger] u1.storages()[i] == u0.storages()[i] by {
                assert(u1.storages().take(u0.storages().len() as int)[i] == u1.storages()[i]);
            }
            assert forall|i: int| 0 <= i < u0.archetypes().len() implies #[trigger] u1.archetypes()[i] == u0.archetypes()[i] by {
                assert(u1.archetypes().take(u0.archetypes().len() as int)[i] == u1.archetypes()[i]);
            }
            assert forall|i: int, r: int| u0.storages().len() <= i < u1.storages().len() && 0 <= r < u1.storages()[i].capacity
                implies (#[trigger] u1.storages()[i].row_owners@[r]) is None by {
                assert(i == u0.storages().len());
            }
            assert(u1.archetypes()[archetype_id.index as int].component_types@.len() == 1);
            assert(archetype_id.index != 0);
            if u1.storages()[archetype_id.index as int].contains(entity) {
                let row = choose|row: int| u1.storages()[archetype_id.index as int].holds(entity, row);
                if archetype_id.index < u0.archetypes().len() {
                    assert(u0.storages()[archetype_id.index as int] == u1.storages()[archetype_id.index as int]);
                    assert(u0.owner_ok(archetype_id.index as int, row));
                }
            }
        }
        let row = self.archetype_manager.storage[archetype_id.index].alloc_row(entity);
        proof {
            let m = self.archetype_manager;
            assert forall|i: int| 0 <= i < m.archetypes@.len() implies {
                &&& storage_matches(&#[trigger] m.archetypes@[i], &m.storage@[i])
                &&& m.storage@[i].archetype_id.index == i
            } by {
                assert(u1.archetype_manager.storage@[i].archetype_id.index == i);
            }
            assert(row is Ok);
            let st = u1.storages()[archetype_id.index as int];
            assert(st.free_indices@.contains(row->Ok_0)) by {
                assert(st.free_indices@[st.free_indices@.len() - 1] == row->Ok_0);
            }
        }
        self.archetype_manager.set_entity_archetype(entity, archetype_id);
        proof {
            self.lemma_wf_after_add(u0, u1, entity, archetype_id.index as int, row->Ok_0 as int);
            let a = archetype_id.index as int;
            assert(self.archetype_of(entity).index == a);
            assert(self.archetype_manager.first_match(single, a));
            assert(self.has_component_spec(entity, type_tag)) by {
                assert(self.archetypes()[a].component_types@.contains(type_tag)) by {
                    assert(self.archetypes()[a].same_types(single));
                    assert(single[0] == type_tag);
                }
            }
            assert(self.storages()[a].contains(entity));
            if a < u0.archetypes().len() {
                assert(u0.archetypes()[a] == u1.archetypes()[a]);
                assert forall|j: int| 0 <= j < a implies !(#[trigger] u0.archetypes()[j]).same_types(single) by {
                    assert(u0.archetypes()[j] == u1.archetypes()[j]);
                }
                assert(u0.archetype_manager.first_match(single, a));
                assert(u0.storages()[a].free_indices@.len() > 0);
            } else {
                assert(total_size(self.archetypes()[a].component_sizes@) == size);
            }
        }
        Ok(())
    }

    proof fn lemma_wf_after_add(&self, u0: Universe, u1: Universe, entity: Entity, a: int, row: int)
        requires
            u0.wf(),
            u0.is_live(entity),
            u0.archetype_of(entity).index == 0,
            self.entities == u0.entities,
            u1.entities == u0.entities,
            self.archetype_manager.wf(),
            u1.archetype_manager.wf(),
            u1.archetype_manager.entity_archetypes@ == u0.archetype_manager.entity_archetypes@,
            u1.archetypes().len() >= u0.archetypes().len(),
            u1.storages().len() >= u0.storages().len(),
            forall|i: int| 0 <= i < u0.storages().len() ==> #[trigger] u1.storages()[i] == u0.storages()[i],
            forall|i: int| 0 <= i < u0.archetypes().len() ==> #[trigger] u1.archetypes()[i] == u0.archetypes()[i],
            forall|i: int, r: int| u0.storages().len() <= i < u1.storages().len() && 0 <= r < u1.storages()[i].capacity
                ==> (#[trigger] u1.storages()[i].row_owners@[r]) is None,
            1 <= a < u1.archetypes().len(),
            self.archetypes() == u1.archetypes(),
            self.storages().len() == u1.storages().len(),
            forall|i: int| 0 <= i < self.storages().len() && i != a ==> #[trigger] self.storages()[i] == u1.storages()[i],
            !u1.storages()[a].contains(entity),
            0 <= row < u1.storages()[a].capacity,
            u1.storages()[a].row_owners@[row] is None,
            self.storages()[a].capacity == u1.storages()[a].capacity,
            self.storages()[a].row_owners@ == u1.storages()[a].row_owners@.update(row, Some(entity)),
            u1.archetypes()[a].component_types@.len() > 0,
            self.archetype_manager.has_record(entity),
            self.archetype_manager.record(entity) == (ArchetypeId { index: a as usize }),
            forall|e2: Entity| e2 != entity ==> (#[trigger] self.archetype_manager.has_record(e2) <==> u0.archetype_manager.has_record(e2)),
            forall|e2: Entity| e2 != entity && u0.archetype_manager.has_record(e2)
                ==> #[trigger] self.archetype_manager.record(e2) == u0.archetype_manager.record(e2),
        ensures
            self.wf(),
            forall|e2: Entity| e2 != entity ==> #[trigger] self.archetype_of(e2) == u0.archetype_of(e2),
            self.storages()[a].holds(entity, row),
    {
        assert forall|x: Entity| #[trigger] self.archetype_manager.has_record(x) implies self.record_ok(x) by {
            if x != entity {
                assert(u0.archetype_manager.has_record(x));
                assert(u0.record_ok(x));
                let i = u0.archetype_manager.record(x).index as int;
                let r = choose|r: int| u0.storages()[i].holds(x, r);
                assert(u1.storages()[i] == u0.storages()[i]);
                assert(u1.archetypes()[i] == u0.archetypes()[i]);
                assert(self.storages()[i].holds(x, r));
            } else {
                assert(self.storages()[a].holds(entity, row));
            }
        }
        assert forall|i: int, r: int| 0 <= i < self.storages().len() && 0 <= r < self.storages()[i].capacity
            && (#[trigger] self.storages()[i].row_owners@[r]) is Some implies self.owner_ok(i, r) by {
            if !(i == a && r == row) {
                let o = self.storages()[i].row_owners@[r]->Some_0;
                assert(u1.storages()[i].row_owners@[r] == Some(o));
                assert(i < u0.storages().len());
                assert(u0.storages()[i] == u1.storages()[i]);
                assert(u0.owner_ok(i, r));
                if o.id == entity.id {
                    assert(o == entity);
                }
            }
        }
        assert forall|e2: Entity| e2 != entity implies #[trigger] self.archetype_of(e2) == u0.archetype_of(e2) by {
            if u0.archetype_manager.has_record(e2) {
                assert(u0.record_ok(e2));
            }
        }
    }

    /// A position holding the type and a row holding the entity are the ones
    /// `component_index` and `row_of` pick, since both are unique.
    proof fn lemma_location(&self, entity: Entity, type_tag: u64, k: int, row: int)
        requires
            self.wf(),
            self.access_check(entity, type_tag) is Ok,
            0 <= k < self.archetypes()[self.archetype_of(entity).index as int].component_types@.len(),
            self.archetypes()[self.archetype_of(entity).index as int].component_types@[k] == type_tag,
            self.storages()[self.archetype_of(entity).index as int].holds(entity, row),
        ensures
            self.component_index(entity, type_tag) == k,
            self.row_of(entity) == row,
            storage_matches(
                &self.archetypes()[self.archetype_of(entity).index as int],
                &self.storages()[self.archetype_of(entity).index as int],
            ),
    {
        let a = self.archetype_of(entity).index as int;
        let types = self.archetypes()[a].component_types@;
        let i = types.index_of(type_tag);
        assert(types.contains(type_tag));
        assert(types[i] == type_tag);
        let r2 = self.row_of(entity);
        assert(self.storages()[a].holds(entity, r2));
    }

    /// Locates component `type_tag` of `entity`: its archetype's index, the
    /// component's position there, and its byte offset.
    fn locate(&self, entity: Entity, type_tag: u64) -> (r: Result<(usize, usize, usize), EcsError>)
        requires
            self.wf(),
        ensures
            match r {
                Ok((a, k, offset)) => {
                    &&& self.access_check(entity, type_tag) is Ok
                    &&& a == self.archetype_of(entity).index
                    &&& k == self.component_index(entity, type_tag)
                    &&& offset == self.component_offset(entity, type_tag)
                    &&& 0 <= k < self.sizes_of(entity).len()
                    &&& offset + self.component_size(entity, type_tag) <= self.storages()[a as int].data@.len()
                },
                Err(e) => self.access_check(entity, type_tag) == Err::<(), EcsError>(e),
            },
    {
        if !self.is_valid(entity) {
            return Err(EcsError::InvalidHandle);
        }
        let archetype_id = self.archetype_manager.get_archetype_id(entity);
        if archetype_id.index == 0 {
            return Err(EcsError::MissingComponent);
        }
        let archetype = match self.archetype_manager.get_archetype(archetype_id) {
            Some(archetype) => archetype,
            None => return Err(EcsError::MissingComponent),
        };
        let k = match archetype.position_of(type_tag) {
            Some(k) => k,
            None => return Err(EcsError::MissingComponent),
        };
        let a = archetype_id.index;
        proof {
            assert(self.archetype_manager.has_record(entity));
            assert(self.record_ok(entity));
        }
        let storage = &self.archetype_manager.storage[a];
        match crate::accessor::component_offset(entity, k, archetype, storage) {
            Ok(offset) => {
                proof {
                    let row = choose|row: int| #[trigger] storage.holds(entity, row)
                        && offset == offset_of(archetype.component_sizes@, row, k as int);
                    self.lemma_location(entity, type_tag, k as int, row);
                }
                Ok((a, k, offset))
            },
            Err(e) => Err(e),
        }
    }

    /// The bytes of component `type_tag` of `entity`.
    pub fn get_component_bytes(&self, entity: Entity, type_tag: u64) -> (r: Result<Vec<u8>, EcsError>)
        requires
            self.wf(),
        ensures
            match r {
                Ok(bytes) => self.read_result(entity, type_tag) == Ok::<Seq<u8>, EcsError>(bytes@),
                Err(e) => self.read_result(entity, type_tag) == Err::<Seq<u8>, EcsError>(e),
            },
    {
        match self.locate(entity, type_tag) {
            Ok((a, k, offset)) => {
                let len = self.archetype_manager.archetypes[a].component_sizes[k];
                Ok(self.archetype_manager.storage[a].read_bytes(offset, len))
            },
            Err(e) => Err(e),
        }
    }

    /// `new` is `self` with the bytes of component `type_tag` of `entity`
    /// replaced by `bytes`, and nothing else changed.
    pub open spec fn written(&self, new: Universe, entity: Entity, type_tag: u64, bytes: Seq<u8>) -> bool {
        let a = self.archetype_of(entity).index as int;
        let off = self.component_offset(entity, type_tag);
        &&& new.same_layout(self)
        &&& forall|i: int| 0 <= i < new.storages().len() && i != a
            ==> #[trigger] new.storages()[i].data@ == self.storages()[i].data@
        &&& new.storages()[a].data@ == self.storages()[a].data@.take(off) + bytes
            + self.storages()[a].data@.skip(off + bytes.len())
        &&& new.component_bytes(entity, type_tag) == bytes
    }

    /// Overwrites component `type_tag` of `entity` with `bytes`, which must be
    /// as long as the size registered for it; nothing else changes.
    pub fn set_component_bytes(&mut self, entity: Entity, type_tag: u64, bytes: &Vec<u8>) -> (r: Result<(), EcsError>)
        requires
            old(self).wf(),
        ensures
            final(self).wf(),
            r == old(self).write_check(entity, type_tag, bytes@.len()),
            r is Err ==> *final(self) == *old(self),
            r is Ok ==> old(self).written(*final(self), entity, type_tag, bytes@),
    {
        let ghost u0 = *old(self);
        match self.locate(entity, type_tag) {
            Ok((a, k, offset)) => {
                let len = self.archetype_manager.archetypes[a].component_sizes[k];
                if bytes.len() != len {
                    return Err(EcsError::TypeMismatch);
                }
                self.archetype_manager.storage[a].write_bytes(offset, bytes);
                proof {
                    let m = self.archetype_manager;
                    assert forall|i: int| 0 <= i < m.archetypes@.len() implies {
                        &&& storage_matches(&#[trigger] m.archetypes@[i], &m.storage@[i])
                        &&& m.storage@[i].archetype_id.index == i
                    } by {
                        assert(u0.archetype_manager.storage@[i].archetype_id.index == i);
                        assert(storage_matches(&u0.archetypes()[i], &u0.storages()[i]));
                    }
                    assert(self.same_layout(&u0));
                    assert forall|x: Entity| #[trigger] self.archetype_manager.has_record(x) implies self.record_ok(x) by {
                        assert(u0.archetype_manager.has_record(x));
                        assert(u0.record_ok(x));
                        let i = u0.archetype_manager.record(x).index as int;
                        let r = choose|r: int| u0.storages()[i].holds(x, r);
                        assert(self.storages()[i].holds(x, r));
                    }
                    assert forall|i: int, r: int| 0 <= i < self.storages().len() && 0 <= r < self.storages()[i].capacity
                        && (#[trigger] self.storages()[i].row_owners@[r]) is Some implies self.owner_ok(i, r) by {
                        assert(u0.storages()[i].row_owners@[r] == self.storages()[i].row_owners@[r]);
                        assert(u0.owner_ok(i, r));
                    }
                    let row = u0.row_of(entity);
                    assert(self.storages()[a as int].holds(entity, row));
                    assert(self.row_of(entity) == row);
                    let d = self.storages()[a as int].data@;
                    assert(d.subrange(offset as int, offset + bytes@.len()) =~= bytes@);
                }
                Ok(())
            },
            Err(e) => Err(e),
        }
    }

    /// Attaches a component of type `T`: `add_component_by_tag` with `T`'s tag
    /// and size.
    pub fn add_component<T: Component>(&mut self, entity: Entity) -> (r: Result<(), EcsError>)
        requires
            old(self).wf(),
        ensures
            final(self).wf(),
            old(self).add_outcome(*final(self), entity, T::tag(), T::byte_size(), r),
    {
        self.add_component_by_tag(entity, T::type_tag(), T::size())
    }

    /// Whether `entity` has a component of type `T`.
    pub fn has_component<T: Component>(&self, entity: Entity) -> (r: Result<bool, EcsError>)
        requires
            self.wf(),
        ensures
            !self.is_valid_spec(entity) ==> r == Err::<bool, EcsError>(EcsError::InvalidHandle),
            self.is_valid_spec(entity) ==> r == Ok::<bool, EcsError>(self.has_component_spec(entity, T::tag())),
    {
        self.has_component_by_tag(entity, T::type_tag())
    }

    /// Stores `component` as the `T` component of `entity`:
    /// `set_component_bytes` with `T`'s tag and the component's bytes.
    pub fn set_component<T: Component>(&mut self, entity: Entity, component: T) -> (r: Result<(), EcsError>)
        requires
            old(self).wf(),
        ensures
            final(self).wf(),
            r == old(self).write_check(entity, T::tag(), component.encode().len()),
            r is Err ==> *final(self) == *old(self),
            r is Ok ==> old(self).written(*final(self), entity, T::tag(), component.encode()),
    {
        let bytes = component.to_bytes();
        self.set_component_bytes(entity, T::type_tag(), &bytes)
    }

    /// Every archetype that `add_component` could put an entity into for
    /// `type_tag` has rows of `size` bytes.
    pub open spec fn single_size(&self, type_tag: u64, size: usize) -> bool {
        forall|i: int| #[trigger] self.archetype_manager.first_match(seq![type_tag], i)
            ==> self.archetypes()[i].component_sizes@ == seq![size]
    }

    /// Attaches a component of type `T` and stores `component` in it. It
    /// succeeds on a valid entity without components whenever there is room
    /// (`add_fits`), the archetype it joins has rows of `T`'s size, and the
    /// component encodes to that size.
    pub fn add_component_data<T: Component>(&mut self, entity: Entity, component: T) -> (r: Result<(), EcsError>)
        requires
            old(self).wf(),
        ensures
            final(self).wf(),
            final(self).entities@ == old(self).entities@,
            !old(self).is_live(entity) ==> r == Err::<(), EcsError>(EcsError::InvalidHandle)
                && final(self).archetype_manager == old(self).archetype_manager,
            r is Ok ==> final(self).has_component_spec(entity, T::tag())
                && final(self).component_bytes(entity, T::tag()) == component.encode(),
            old(self).is_live(entity) && old(self).archetype_of(entity).index == 0
                && old(self).add_fits(T::tag(), T::byte_size()) && old(self).single_size(T::tag(), T::byte_size())
                && component.encode().len() == T::byte_size() ==> r is Ok,
    {
        let ghost u0 = *self;
        match self.add_component::<T>(entity) {
            Ok(()) => {},
            Err(e) => return Err(e),
        }
        let ghost u1 = *self;
        proof {
            let tag = T::tag();
            if u0.is_live(entity) && u0.archetype_of(entity).index == 0 && u0.single_size(tag, T::byte_size()) {
                let a = u1.archetype_of(entity).index as int;
                let n = u0.archetypes().len() as int;
                if a < n {
                    assert(u0.archetypes()[a] == u1.archetypes()[a]);
                    assert forall|j: int| 0 <= j < a implies !(#[trigger] u0.archetypes()[j]).same_types(seq![tag]) by {
                        assert(u0.archetypes()[j] == u1.archetypes()[j]);
                    }
                    assert(u0.archetype_manager.first_match(seq![tag], a));
                }
                let types = u1.archetypes()[a].component_types@;
                assert(types.len() == 1);
                assert(types.contains(tag));
                assert(types[types.index_of(tag)] == tag);
                assert(u1.component_index(entity, tag) == 0);
            }
        }
        self.set_component(entity, component)
    }

    /// The `T` component of `entity`, rebuilt from its bytes; `TypeMismatch`
    /// when the stored component is not of `T`'s size.
    pub fn get_component<T: Component>(&self, entity: Entity) -> (r: Result<T, EcsError>)
        requires
            self.wf(),
        ensures
            r == match self.read_result(entity, T::tag()) {
                Ok(bytes) => if bytes.len() == T::byte_size() {
                    Ok::<T, EcsError>(T::decode(bytes))
                } else {
                    Err::<T, EcsError>(EcsError::TypeMismatch)
                },
                Err(e) => Err::<T, EcsError>(e),
            },
    {
        match self.get_component_bytes(entity, T::type_tag()) {
            Ok(bytes) => {
                if bytes.len() != T::size() {
                    return Err(EcsError::TypeMismatch);
                }
                Ok(T::from_bytes(&bytes))
            },
            Err(e) => Err(e),
        }
    }

    /// Number of entities in the first `n` archetypes that match `query`.
    pub open spec fn count_matching(&self, query: &EntityQuery, n: int) -> nat
        decreases n,
    {
        if n <= 0 {
            0
        } else {
            self.count_matching(query, n - 1) + if query.matches_spec(self.archetypes()[n - 1].component_types@) {
                self.storages()[n - 1].len()
            } else {
                0
            }
        }
    }

    /// Counts the entities of the archetypes that match `query`; the count
    /// stops at `usize::MAX`.
    pub fn get_entities(&self, query: EntityQuery) -> (r: EntityData)
        requires
            self.wf(),
        ensures
            r.num_entities == if self.count_matching(&query, self.archetypes().len() as int) > usize::MAX {
                usize::MAX as nat
            } else {
                self.count_matching(&query, self.archetypes().len() as int)
            },
    {
        let mut total: usize = 0;
        let mut i: usize = 0;
        let n = self.archetype_manager.archetypes.len();
        while i < n
            invariant
                self.wf(),
                n == self.archetypes().len(),
                i <= n,
                total == if self.count_matching(&query, i as int) > usize::MAX {
                    usize::MAX as nat
                } else {
                    self.count_matching(&query, i as int)
                },
            decreases n - i,
        {
            if query.matches(&self.archetype_manager.archetypes[i]) {
                let storage = &self.archetype_manager.storage[i];
                assert(storage.free_indices@.len() <= storage.capacity) by {
                    storage.lemma_free_len();
                }
                let occupied = storage.capacity - storage.free_indices.len();
                if occupied > usize::MAX - total {
                    total = usize::MAX;
                } else {
                    total = total + occupied;
                }
            }
            i = i + 1;
        }
        EntityData { num_entities: total }
    }

    /// Runs the chain's operations in order and empties it. Stops at the first
    /// failing operation and returns its error; the operations after it are
    /// dropped.
    pub fn exec(&mut self, cmd_chain: &mut CmdChain) -> (r: Result<(), EcsError>)
        requires
            old(self).wf(),
        ensures
            final(self).wf(),
            (final(self).entities@, final(cmd_chain).state.last_created_entity, r)
                == run(old(self).entities@, old(cmd_chain).state.last_created_entity, old(cmd_chain).cmds@),
            final(cmd_chain).cmds@.len() == 0,
            exists|trace: Seq<Universe>| 1 <= trace.len() && #[trigger] trace[0] == *old(self) && {
                &&& trace.len() <= old(cmd_chain).cmds@.len() + 1
                &&& r is Ok ==> trace.len() == old(cmd_chain).cmds@.len() + 1
                &&& trace.last() == *final(self)
                &&& forall|j: int| 0 <= j < trace.len() - 2
                    ==> #[trigger] trace[j].cmd_effect(trace[j + 1], old(cmd_chain).cmds@[j], true)
                &&& trace.len() >= 2 ==> trace[trace.len() - 2].cmd_effect(
                        trace.last(), old(cmd_chain).cmds@[trace.len() - 2], r is Ok)
            },
    {
        let ghost u0 = *self;
        let ghost mut trace: Seq<Universe> = seq![*self];
        let ghost goal = run(self.entities@, cmd_chain.state.last_created_entity, cmd_chain.cmds@);
        let ghost cmds = cmd_chain.cmds@;
        let n = cmd_chain.cmds.len();
        let mut i: usize = 0;
        let mut result: Result<(), EcsError> = Ok(());
        assert(cmds.skip(0) =~= cmds);
        while i < n
            invariant_except_break
                result is Ok,
                goal == run(self.entities@, cmd_chain.state.last_created_entity, cmds.skip(i as int)),
            invariant
                self.wf(),
                cmds == cmd_chain.cmds@,
                n == cmds.len(),
                i <= n,
                trace.len() == i + 1,
                trace[0] == u0,
                trace.last() == *self,
                forall|j: int| 0 <= j < i - 1 ==> #[trigger] trace[j].cmd_effect(trace[j + 1], cmds[j], true),
                i > 0 ==> trace[i - 1].cmd_effect(trace[i as int], cmds[i - 1], result is Ok),
            ensures
                result is Ok ==> i == n
                    && goal == run(self.entities@, cmd_chain.state.last_created_entity, cmds.skip(i as int)),
                result is Err ==> goal == (self.entities@, cmd_chain.state.last_created_entity, result),
            decreases n - i,
        {
            let ghost before = (self.entities@, cmd_chain.state.last_created_entity);
            let ghost prev = *self;
            assert(cmds.skip(i as int)[0] == cmds[i as int]);
            assert(cmds.skip(i as int).skip(1) =~= cmds.skip(i + 1));
            let step_result = match &cmd_chain.cmds[i] {
                QueuedCmd::CreateEntity(c) => c.exec(self, &mut cmd_chain.state),
                QueuedCmd::DestroyEntity(c) => c.exec(self, &mut cmd_chain.state),
            };
            assert((self.entities@, cmd_chain.state.last_created_entity, step_result)
                == step(before.0, before.1, cmds[i as int]));
            proof {
                trace = trace.push(*self);
            }
            i = i + 1;
            if step_result.is_err() {
                result = step_result;
                break;
            }
        }

        proof {
            if result is Ok {
                assert(cmds.skip(n as int) =~= Seq::<QueuedCmd>::empty());
            }
        }
        cmd_chain.cmds.clear();
        match result {
            Ok(()) => Ok(()),
            Err(e) => Err(e),
        }
    }
}

/// An entity has no component of any type exactly when it is in the default
/// archetype.
pub proof fn lemma_no_component_iff_default(u: Universe, entity: Entity)
    requires
        u.wf(),
    ensures
        (forall|type_tag: u64| !#[trigger] u.has_component_spec(entity, type_tag))
            <==> u.archetype_of(entity) == default_archetype(),
{
    if u.archetype_of(entity) != default_archetype() {
        assert(u.archetype_manager.has_record(entity));
        assert(u.record_ok(entity));
        let a = u.archetype_of(entity).index as int;
        let t = u.archetypes()[a].component_types@[0];
        assert(u.archetypes()[a].component_types@.contains(t));
        assert(u.has_component_spec(entity, t));
    }
}

/// Reading a component right after writing it gives back the written bytes.
pub proof fn lemma_write_then_read(u0: Universe, u1: Universe, entity: Entity, type_tag: u64, bytes: Seq<u8>)
    requires
        u0.wf(),
        u1.wf(),
        u0.write_check(entity, type_tag, bytes.len()) is Ok,
        u1.same_layout(&u0),
        u1.component_bytes(entity, type_tag) == bytes,
    ensures
        u1.read_result(entity, type_tag) == Ok::<Seq<u8>, EcsError>(bytes),
{
    assert(u1.is_valid_spec(entity) == u0.is_valid_spec(entity));
    assert(u1.archetype_of(entity) == u0.archetype_of(entity));
}

/// Storing a value of `T` and reading the `T` component back gives the same
/// value, whenever its bytes are of `T`'s size.
pub proof fn lemma_set_then_get<T: Component>(u0: Universe, u1: Universe, entity: Entity, value: T)
    requires
        u0.wf(),
        u1.wf(),
        u0.write_check(entity, T::tag(), value.encode().len()) is Ok,
        u0.written(u1, entity, T::tag(), value.encode()),
        value.encode().len() == T::byte_size(),
    ensures
        u1.read_result(entity, T::tag()) == Ok::<Seq<u8>, EcsError>(value.encode()),
        (match u1.read_result(entity, T::tag()) {
            Ok(bytes) => if bytes.len() == T::byte_size() {
                Ok::<T, EcsError>(T::decode(bytes))
            } else {
                Err::<T, EcsError>(EcsError::TypeMismatch)
            },
            Err(e) => Err::<T, EcsError>(e),
        }) == Ok::<T, EcsError>(value),
{
    lemma_write_then_read(u0, u1, entity, T::tag(), value.encode());
    T::lemma_decode_encode(value);
}

/// A component of `T` whose stored bytes are the encoding of `value` reads
/// back as `value`.
pub proof fn lemma_stored_value_reads_back<T: Component>(u: Universe, entity: Entity, value: T)
    requires
        u.wf(),
        u.is_valid_spec(entity),
        u.has_component_spec(entity, T::tag()),
        u.component_bytes(entity, T::tag()) == value.encode(),
        value.encode().len() == T::byte_size(),
    ensures
        u.read_result(entity, T::tag()) == Ok::<Seq<u8>, EcsError>(value.encode()),
        T::decode(u.component_bytes(entity, T::tag())) == value,
{
    T::lemma_decode_encode(value);
}

/// Two entities given the same single component type, the second after the
/// first, end up in the same archetype: the first archetype holding exactly
/// that type, which later registrations leave in place.
pub proof fn lemma_single_type_shares_archetype(u1: Universe, u2: Universe, e1: Entity, e2: Entity, type_tag: u64)
    requires
        u1.wf(),
        u1.archetype_manager.first_match(seq![type_tag], u1.archetype_of(e1).index as int),
        u1.archetypes().len() <= u2.archetypes().len(),
        u2.archetypes().take(u1.archetypes().len() as int) == u1.archetypes(),
        u2.archetype_of(e1) == u1.archetype_of(e1),
        u2.archetype_manager.first_match(seq![type_tag], u2.archetype_of(e2).index as int),
    ensures
        u2.archetype_of(e1) == u2.archetype_of(e2),
{
    let i = u1.archetype_of(e1).index as int;
    let n = u1.archetypes().len() as int;
    assert forall|j: int| 0 <= j <= i implies #[trigger] u2.archetypes()[j] == u1.archetypes()[j] by {
        assert(u2.archetypes().take(n)[j] == u2.archetypes()[j]);
    }
    assert(u2.archetype_manager.first_match(seq![type_tag], i));
    u2.archetype_manager.lemma_first_match_unique(seq![type_tag], i, u2.archetype_of(e2).index as int);
}

/// An entity in the default archetype has no component of any type; an
/// entity in the archetype holding exactly `type_tag`, where attaching that
/// type puts it, has that type.
pub proof fn lemma_component_presence(u: Universe, entity: Entity, type_tag: u64)
    requires
        u.wf(),
    ensures
        u.archetype_of(entity) == default_archetype() ==> !u.has_component_spec(entity, type_tag),
        u.archetype_of(entity).index != 0
            && u.archetype_manager.first_match(seq![type_tag], u.archetype_of(entity).index as int)
            ==> u.has_component_spec(entity, type_tag),
{
    let a = u.archetype_of(entity).index as int;
    if a != 0 && u.archetype_manager.first_match(seq![type_tag], a) {
        assert(seq![type_tag][0] == type_tag);
        assert(u.archetypes()[a].component_types@.contains(type_tag));
    }
}

} // verus!
