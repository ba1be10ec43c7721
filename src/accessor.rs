use vstd::arithmetic::mul::lemma_mul_inequality;
use vstd::prelude::*;

use crate::archetype::{lemma_prefix_size_mono, prefix_size, total_size, Archetype};
use crate::entity::{EcsError, Entity};
use crate::storage::ArchetypeStorage;

verus! {

/// Byte offset of component `k` in row `row` of an archetype whose component
/// sizes are `sizes`: the rows are laid out one after the other, and in a row
/// the components follow each other in archetype order.
pub open spec fn offset_of(sizes: Seq<usize>, row: int, k: int) -> int {
    row * total_size(sizes) + prefix_size(sizes, k)
}

/// The storage holds rows of the archetype's size.
pub open spec fn storage_matches(archetype: &Archetype, storage: &ArchetypeStorage) -> bool {
    &&& archetype.wf()
    &&& storage.wf()
    &&& storage.archetype_size == total_size(archetype.component_sizes@)
}

/// Component `k` of a row lies inside the storage's buffer.
pub proof fn lemma_component_in_bounds(archetype: &Archetype, storage: &ArchetypeStorage, row: int, k: int)
    requires
        storage_matches(archetype, storage),
        0 <= row < storage.capacity,
        0 <= k < archetype.component_sizes@.len(),
    ensures
        0 <= offset_of(archetype.component_sizes@, row, k),
        offset_of(archetype.component_sizes@, row, k) + archetype.component_sizes@[k]
            <= storage.data@.len(),
{
    let sizes = archetype.component_sizes@;
    let rs = total_size(sizes) as int;
    lemma_prefix_size_mono(sizes, k + 1, sizes.len() as int);
    assert(prefix_size(sizes, k + 1) == prefix_size(sizes, k) + sizes[k]);
    lemma_mul_inequality(row + 1, storage.capacity as int, rs);
    assert((row + 1) * rs == row * rs + rs) by (nonlinear_arith);
    assert(0 <= row * rs) by (nonlinear_arith)
        requires 0 <= row, 0 <= rs;
}

/// Byte offset of component `component_index` of `entity` in `storage`, or
/// `MissingComponent` when the entity occupies no row there.
pub fn component_offset(
    entity: Entity,
    component_index: usize,
    archetype: &Archetype,
    storage: &ArchetypeStorage,
) -> (r: Result<usize, EcsError>)
    requires
        storage_matches(archetype, storage),
        component_index < archetype.component_sizes@.len(),
    ensures
        match r {
            Ok(offset) => exists|row: int|
                {
                    &&& #[trigger] storage.holds(entity, row)
                    &&& offset == offset_of(archetype.component_sizes@, row, component_index as int)
                },
            Err(e) => e == EcsError::MissingComponent && !storage.contains(entity),
        },
        r is Ok ==> r->Ok_0 + archetype.component_sizes@[component_index as int] <= storage.data@.len(),
{
    let row = match storage.find_row(entity) {
        Some(row) => row,
        None => return Err(EcsError::MissingComponent),
    };
    let ghost sizes = archetype.component_sizes@;
    let data_len: usize = storage.data.len();
    proof {
        lemma_component_in_bounds(archetype, storage, row as int, component_index as int);
        lemma_prefix_size_mono(sizes, component_index as int, sizes.len() as int);
        lemma_mul_inequality(row as int, storage.capacity as int, storage.archetype_size as int);
    }
    let base: usize = row * storage.archetype_size;
    let mut offset: usize = 0;
    let mut i: usize = 0;
    while i < component_index
        invariant
            i <= component_index < sizes.len(),
            sizes == archetype.component_sizes@,
            offset == prefix_size(sizes, i as int),
            prefix_size(sizes, component_index as int) <= storage.archetype_size,
        decreases component_index - i,
    {
        proof {
            lemma_prefix_size_mono(sizes, i + 1, component_index as int);
        }
        offset = offset + archetype.component_sizes[i];
        i = i + 1;
    }
    proof {
        assert(base + offset + sizes[component_index as int] <= data_len);
    }
    Ok(base + offset)
}

} // verus!
