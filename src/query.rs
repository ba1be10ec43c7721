use vstd::prelude::*;

use crate::archetype::Archetype;

verus! {

/// Selects archetypes by component type: an archetype matches when it holds
/// every type of `all`, no type of `none`, and, unless `any` is empty, some
/// type of `any`.
pub struct EntityQuery {
    pub all: Vec<u64>,
    pub none: Vec<u64>,
    pub any: Vec<u64>,
}

/// What a query found.
pub struct EntityData {
    pub num_entities: usize,
}

impl EntityQuery {
    pub open spec fn matches_spec(&self, types: Seq<u64>) -> bool {
        &&& forall|i: int| 0 <= i < self.all@.len() ==> types.contains(#[trigger] self.all@[i])
        &&& forall|i: int| 0 <= i < self.none@.len() ==> !types.contains(#[trigger] self.none@[i])
        &&& (self.any@.len() == 0 || exists|i: int| 0 <= i < self.any@.len() && types.contains(#[trigger] self.any@[i]))
    }

    /// Whether `archetype` matches the query.
    pub fn matches(&self, archetype: &Archetype) -> (r: bool)
        ensures
            r == self.matches_spec(archetype.component_types@),
    {
        let ghost types = archetype.component_types@;
        let mut i: usize = 0;
        while i < self.all.len()
            invariant
                types == archetype.component_types@,
                i <= self.all@.len(),
                forall|j: int| 0 <= j < i ==> types.contains(#[trigger] self.all@[j]),
            decreases self.all@.len() - i,
        {
            if !archetype.contains_type(self.all[i]) {
                return false;
            }
            i = i + 1;
        }
        let mut i: usize = 0;
        while i < self.none.len()
            invariant
                types == archetype.component_types@,
                i <= self.none@.len(),
                forall|j: int| 0 <= j < self.all@.len() ==> types.contains(#[trigger] self.all@[j]),
                forall|j: int| 0 <= j < i ==> !types.contains(#[trigger] self.none@[j]),
            decreases self.none@.len() - i,
        {
            if archetype.contains_type(self.none[i]) {
                return false;
            }
            i = i + 1;
        }
        if self.any.len() == 0 {
            return true;
        }
        let mut i: usize = 0;
        while i < self.any.len()
            invariant
                types == archetype.component_types@,
                i <= self.any@.len(),
                forall|j: int| 0 <= j < self.all@.len() ==> types.contains(#[trigger] self.all@[j]),
                forall|j: int| 0 <= j < self.none@.len() ==> !types.contains(#[trigger] self.none@[j]),
                forall|j: int| 0 <= j < i ==> !types.contains(#[trigger] self.any@[j]),
            decreases self.any@.len() - i,
        {
            if archetype.contains_type(self.any[i]) {
                assert(types.contains(self.any@[i as int]));
                return true;
            }
            i = i + 1;
        }
        false
    }
}

} // verus!
