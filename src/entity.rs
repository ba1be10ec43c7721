use vstd::prelude::*;

verus! {

/// A versioned handle to an entity: `id` names a slot of the allocator,
/// `version` is the generation of that slot the handle was issued for.
#[derive(Copy, Clone, Debug, PartialEq, Eq, Hash, Structural)]
pub struct Entity {
    pub id: u64,
    pub version: u64,
}

/// Errors reported by the storage engine.
#[derive(Copy, Clone, Debug, PartialEq, Eq, Structural)]
pub enum EcsError {
    /// The handle's id/version pair does not match the live record.
    InvalidHandle,
    /// The entity pool or an archetype's row pool has no free slot.
    CapacityExhausted,
    /// The entity's archetype does not contain the requested component type.
    MissingComponent,
    /// The bytes handed over do not match the size registered for the component.
    TypeMismatch,
    /// The entity already has components of other types: moving it to a larger
    /// archetype is not supported.
    MigrationUnsupported,
}

/// Owns the pool of entity ids and their generation counters.
///
/// `versions[id]` is the current version of `id` (slot 0 is reserved and never
/// handed out); `free_ids` is a stack whose last element is the next id issued;
/// `live[id]` tells whether `id` is currently issued.
pub struct EntityAllocator {
    pub(crate) free_ids: Vec<u64>,
    pub(crate) versions: Vec<u64>,
    pub(crate) live: Vec<bool>,
}

/// Abstract state of an allocator.
pub ghost struct AllocatorModel {
    /// Free ids, the last one is issued first.
    pub free: Seq<u64>,
    /// Recorded version of each id (index 0 is reserved).
    pub versions: Seq<u64>,
    /// Whether each id is currently issued.
    pub live: Seq<bool>,
}

impl AllocatorModel {
    /// Every id of `1..versions.len()` is either issued or free, once.
    pub open spec fn wf(self) -> bool {
        &&& 1 <= self.versions.len() <= u64::MAX
        &&& self.live.len() == self.versions.len()
        &&& !self.live[0]
        &&& self.free.no_duplicates()
        &&& forall|i: int| 0 <= i < self.free.len() ==> 1 <= #[trigger] self.free[i] < self.versions.len()
        &&& forall|id: int| 1 <= id < self.versions.len() ==> (!#[trigger] self.live[id] <==> self.free.contains(id as u64))
    }

    /// A handle is valid iff its id is positive and its version equals the
    /// version recorded for that id.
    pub open spec fn is_valid(self, e: Entity) -> bool {
        &&& e.id > 0
        &&& e.id < self.versions.len()
        &&& e.version == self.versions[e.id as int]
    }

    /// Result of issuing an entity: the last free id with its current version.
    pub open spec fn create(self) -> (AllocatorModel, Option<Entity>) {
        if self.free.len() == 0 {
            (self, None)
        } else {
            let id = self.free.last();
            (
                AllocatorModel {
                    free: self.free.drop_last(),
                    versions: self.versions,
                    live: self.live.update(id as int, true),
                },
                Some(Entity { id, version: self.versions[id as int] }),
            )
        }
    }

    /// Result of destroying a handle: a valid handle has its version bumped,
    /// and its id, if issued, is put back on top of the free stack.
    pub open spec fn destroy(self, e: Entity) -> (AllocatorModel, Result<(), EcsError>) {
        if !self.is_valid(e) {
            (self, Err(EcsError::InvalidHandle))
        } else if e.version == u64::MAX {
            (self, Err(EcsError::CapacityExhausted))
        } else {
            (
                AllocatorModel {
                    free: if self.live[e.id as int] {
                        self.free.push(e.id)
                    } else {
                        self.free
                    },
                    versions: self.versions.update(e.id as int, (e.version + 1) as u64),
                    live: self.live.update(e.id as int, false),
                },
                Ok(()),
            )
        }
    }
}

impl View for EntityAllocator {
    type V = AllocatorModel;

    closed spec fn view(&self) -> AllocatorModel {
        AllocatorModel { free: self.free_ids@, versions: self.versions@, live: self.live@ }
    }
}

impl EntityAllocator {
    pub open spec fn wf(&self) -> bool {
        self@.wf()
    }

    /// An allocator whose ids `1..=capacity` are free, each at version 1,
    /// issued in increasing order.
    pub fn with_capacity(capacity: u64) -> (r: EntityAllocator)
        requires
            capacity < u64::MAX,
        ensures
            r.wf(),
            r@.free.len() == capacity,
            r@.versions.len() == capacity + 1,
            forall|i: int| 0 <= i < capacity ==> #[trigger] r@.free[i] == capacity - i,
            forall|i: int| 1 <= i <= capacity ==> #[trigger] r@.versions[i] == 1,
            forall|i: int| 0 <= i <= capacity ==> !#[trigger] r@.live[i],
    {
        let mut versions: Vec<u64> = Vec::new();
        let mut live: Vec<bool> = Vec::new();
        versions.push(0);
        live.push(false);
        let mut free_ids: Vec<u64> = Vec::new();
        let mut i: u64 = 0;
        while i < capacity
            invariant
                i <= capacity < u64::MAX,
                versions@.len() == i + 1,
                live@.len() == i + 1,
                forall|j: int| 1 <= j <= i ==> #[trigger] versions@[j] == 1,
                forall|j: int| 0 <= j <= i ==> !#[trigger] live@[j],
                free_ids@.len() == i,
                forall|j: int| 0 <= j < i ==> #[trigger] free_ids@[j] == capacity - j,
            decreases capacity - i,
        {
            versions.push(1);
            live.push(false);
            free_ids.push(capacity - i);
            i = i + 1;
        }
        let r = EntityAllocator { free_ids, versions, live };
        assert forall|j: int| 0 <= j < r@.free.len() implies 1 <= #[trigger] r@.free[j] < r@.versions.len() by {
            assert(r@.free[j] == capacity - j);
        }
        assert forall|id: int| 1 <= id < r@.versions.len() implies (!#[trigger] r@.live[id] <==> r@.free.contains(id as u64)) by {
            assert(r@.free[capacity - id] == id);
        }
        assert forall|a: int, b: int| 0 <= a < b < r@.free.len() implies r@.free[a] != r@.free[b] by {}
        r
    }

    pub fn is_valid(&self, entity: Entity) -> (r: bool)
        requires
            self.wf(),
        ensures
            r == self@.is_valid(entity),
    {
        let n: usize = self.versions.len();
        if entity.id == 0 || entity.id >= n as u64 {
            return false;
        }
        let idx = entity.id as usize;
        entity.version == self.versions[idx]
    }

    /// Whether `entity` is valid and its id is currently issued.
    pub fn is_live(&self, entity: Entity) -> (r: bool)
        requires
            self.wf(),
        ensures
            r == (self@.is_valid(entity) && self@.live[entity.id as int]),
    {
        let n: usize = self.versions.len();
        if entity.id == 0 || entity.id >= n as u64 {
            return false;
        }
        let idx = entity.id as usize;
        entity.version == self.versions[idx] && self.live[idx]
    }

    /// Issues the most recently freed id with its current version, or `None`
    /// when the pool is exhausted.
    pub fn create(&mut self) -> (r: Option<Entity>)
        requires
            old(self).wf(),
        ensures
            final(self).wf(),
            (final(self)@, r) == old(self)@.create(),
    {
        if self.free_ids.len() == 0 {
            return None;
        }
        let ghost old_free = old(self)@.free;
        let id = match self.free_ids.pop() {
            Some(id) => id,
            None => return None,
        };
        proof {
            assert(old_free[old_free.len() - 1] == id);
            assert(old_free.contains(id));
            assert(self@.free =~= old_free.drop_last());
        }
        let n: usize = self.versions.len();
        let idx = id as usize;
        let version = self.versions[idx];
        self.live.set(idx, true);
        proof {
            let m = self@;
            assert forall|j: int| 1 <= j < m.versions.len() implies (!#[trigger] m.live[j] <==> m.free.contains(j as u64)) by {
                if j == id {
                    if m.free.contains(id) {
                        let k = choose|k: int| 0 <= k < m.free.len() && m.free[k] == id;
                        assert(old_free[k] == old_free[old_free.len() - 1]);
                    }
                } else {
                    if old_free.contains(j as u64) {
                        let k = choose|k: int| 0 <= k < old_free.len() && old_free[k] == j as u64;
                        assert(m.free[k] == j);
                    }
                }
            }
        }
        Some(Entity { id, version })
    }

    /// Invalidates a valid handle: its version is bumped, so every copy of the
    /// old handle becomes invalid, and its id, if issued, is reused first.
    pub fn destroy(&mut self, entity: Entity) -> (r: Result<(), EcsError>)
        requires
            old(self).wf(),
        ensures
            final(self).wf(),
            (final(self)@, r) == old(self)@.destroy(entity),
    {
        if !self.is_valid(entity) {
            return Err(EcsError::InvalidHandle);
        }
        if entity.version == u64::MAX {
            return Err(EcsError::CapacityExhausted);
        }
        let ghost old_free = old(self)@.free;
        let n: usize = self.versions.len();
        let idx = entity.id as usize;
        self.versions.set(idx, entity.version + 1);
        if !self.live[idx] {
            assert(self@.live =~= old(self)@.live.update(entity.id as int, false));
            assert(self@.versions =~= old(self)@.versions.update(entity.id as int, (entity.version + 1) as u64));
            return Ok(());
        }
        self.live.set(idx, false);
        self.free_ids.push(entity.id);
        proof {
            let m = self@;
            assert(!old_free.contains(entity.id));
            assert forall|a: int, b: int| 0 <= a < b < m.free.len() implies m.free[a] != m.free[b] by {
                if b == old_free.len() {
                    assert(old_free[a] == m.free[a]);
                }
            }
            assert forall|j: int| 0 <= j < m.free.len() implies 1 <= #[trigger] m.free[j] < m.versions.len() by {
                if j < old_free.len() {
                    assert(m.free[j] == old_free[j]);
                }
            }
            assert forall|j: int| 1 <= j < m.versions.len() implies (!#[trigger] m.live[j] <==> m.free.contains(j as u64)) by {
                if j == entity.id {
                    assert(m.free[old_free.len() as int] == entity.id);
                } else {
                    if old_free.contains(j as u64) {
                        let k = choose|k: int| 0 <= k < old_free.len() && old_free[k] == j as u64;
                        assert(m.free[k] == j);
                    }
                    if m.free.contains(j as u64) {
                        let k = choose|k: int| 0 <= k < m.free.len() && m.free[k] == j as u64;
                        assert(old_free[k] == j);
                    }
                }
            }
            assert(m.versions =~= old(self)@.versions.update(entity.id as int, (entity.version + 1) as u64));
            assert(m.live =~= old(self)@.live.update(entity.id as int, false));
        }
        Ok(())
    }
}

/// Issuing keeps the allocator well formed.
pub proof fn lemma_create_wf(m: AllocatorModel)
    requires
        m.wf(),
    ensures
        m.create().0.wf(),
{
    if m.free.len() > 0 {
        let id = m.free.last();
        let m1 = m.create().0;
        assert(m.free[m.free.len() - 1] == id);
        assert forall|a: int, b: int| 0 <= a < b < m1.free.len() implies m1.free[a] != m1.free[b] by {
            assert(m1.free[a] == m.free[a] && m1.free[b] == m.free[b]);
        }
        assert forall|j: int| 0 <= j < m1.free.len() implies 1 <= #[trigger] m1.free[j] < m1.versions.len() by {
            assert(m1.free[j] == m.free[j]);
        }
        assert forall|j: int| 1 <= j < m1.versions.len() implies (!#[trigger] m1.live[j] <==> m1.free.contains(j as u64)) by {
            if j == id {
                if m1.free.contains(id) {
                    let k = choose|k: int| 0 <= k < m1.free.len() && m1.free[k] == id;
                    assert(m.free[k] == m.free[m.free.len() - 1]);
                }
            } else {
                if m.free.contains(j as u64) {
                    let k = choose|k: int| 0 <= k < m.free.len() && m.free[k] == j as u64;
                    assert(k != m.free.len() - 1);
                    assert(m1.free[k] == m.free[k]);
                    assert(m1.free.contains(j as u64));
                }
                if m1.free.contains(j as u64) {
                    let k = choose|k: int| 0 <= k < m1.free.len() && m1.free[k] == j as u64;
                    assert(m.free[k] == j);
                }
                assert(m1.live[j] == m.live[j]);
            }
        }
    }
}

/// A freshly issued handle is valid, and stops being valid once destroyed
/// (unless its id's versions are used up, in which case the destroy fails).
pub proof fn lemma_fresh_valid_until_destroyed(m: AllocatorModel)
    requires
        m.wf(),
        m.free.len() > 0,
    ensures
        ({
            let (m1, r) = m.create();
            let e = r->Some_0;
            &&& r is Some
            &&& m1.is_valid(e)
            &&& e.version < u64::MAX ==> m1.destroy(e).1 is Ok && !m1.destroy(e).0.is_valid(e)
        }),
{
    assert(m.free.contains(m.free.last())) by {
        assert(m.free[m.free.len() - 1] == m.free.last());
    }
}

/// Destroying a valid handle of an issued id and issuing again reuses the id
/// with the next version: the old handle is invalid, the new one valid.
pub proof fn lemma_destroy_then_create_reuses_id(m: AllocatorModel, e: Entity)
    requires
        m.wf(),
        m.is_valid(e),
        m.live[e.id as int],
        e.version < u64::MAX,
    ensures
        ({
            let (m1, r) = m.destroy(e);
            let (m2, e2) = m1.create();
            &&& r is Ok
            &&& e2 == Some(Entity { id: e.id, version: (e.version + 1) as u64 })
            &&& !m2.is_valid(e)
            &&& m2.is_valid(e2->Some_0)
        }),
{
}

/// Issues `n` entities in a row.
pub open spec fn create_n(m: AllocatorModel, n: nat) -> AllocatorModel
    decreases n,
{
    if n == 0 {
        m
    } else {
        create_n(m, (n - 1) as nat).create().0
    }
}

/// A pool of `n` free ids serves exactly `n` creations: each of them succeeds,
/// and the next one fails and changes nothing.
pub proof fn lemma_pool_exhausted(m: AllocatorModel, n: nat)
    requires
        m.wf(),
        m.free.len() == n,
    ensures
        forall|k: nat| k < n ==> (#[trigger] create_n(m, k)).create().1 is Some,
        create_n(m, n).create().1 is None,
        create_n(m, n).create().0 == create_n(m, n),
{
    lemma_create_n_len(m, n);
    assert forall|k: nat| k < n implies (#[trigger] create_n(m, k)).create().1 is Some by {
        lemma_create_n_len(m, k);
    }
}

proof fn lemma_create_n_len(m: AllocatorModel, k: nat)
    requires
        m.wf(),
        k <= m.free.len(),
    ensures
        create_n(m, k).wf(),
        create_n(m, k).free.len() == m.free.len() - k,
    decreases k,
{
    if k > 0 {
        lemma_create_n_len(m, (k - 1) as nat);
        lemma_create_wf(create_n(m, (k - 1) as nat));
    }
}

} // verus!
