use vstd::prelude::*;

use crate::universe::Universe;

verus! {

/// Logic run over a universe at its creation, at each update and at its end.
pub trait System {
    fn create(&mut self, universe: &mut Universe)
        requires
            old(universe).wf(),
        ensures
            final(universe).wf(),
    ;

    fn update(&mut self, universe: &mut Universe)
        requires
            old(universe).wf(),
        ensures
            final(universe).wf(),
    ;

    fn destroy(&mut self, universe: &mut Universe)
        requires
            old(universe).wf(),
        ensures
            final(universe).wf(),
    ;
}

} // verus!
