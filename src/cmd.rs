use vstd::prelude::*;

use crate::entity::{AllocatorModel, EcsError, Entity};
use crate::universe::Universe;

verus! {

/// Ordered buffer of entity operations, applied by `Universe::exec` one
/// after the other in the order they were queued.
pub struct CmdChain {
    pub state: CmdChainState,
    pub cmds: Vec<QueuedCmd>,
}

/// What running a chain reports back.
pub struct CmdChainState {
    pub last_created_entity: Option<Entity>,
}

/// A queued operation.
pub enum QueuedCmd {
    CreateEntity(CmdCreateEntity),
    DestroyEntity(CmdDestroyEntity),
}

/// An operation on a universe that reports into a chain's state.
pub trait Cmd {
    /// The queued form of this operation, whose `step` it performs.
    spec fn queued(&self) -> QueuedCmd;

    fn exec(&self, universe: &mut Universe, state: &mut CmdChainState) -> (r: Result<(), EcsError>)
        requires
            old(universe).wf(),
        ensures
            final(universe).wf(),
            (final(universe).entities@, final(state).last_created_entity, r)
                == step(old(universe).entities@, old(state).last_created_entity, self.queued()),
            old(universe).cmd_effect(*final(universe), self.queued(), r is Ok),
    ;
}

/// Creates an entity and records it as the last one created.
pub struct CmdCreateEntity {}

/// Destroys an entity.
pub struct CmdDestroyEntity {
    pub entity: Entity,
}

impl Cmd for CmdCreateEntity {
    open spec fn queued(&self) -> QueuedCmd {
        QueuedCmd::CreateEntity(CmdCreateEntity {})
    }

    fn exec(&self, universe: &mut Universe, state: &mut CmdChainState) -> (r: Result<(), EcsError>) {
        match universe.create_entity() {
            Ok(entity) => {
                state.last_created_entity = Some(entity);
                Ok(())
            },
            Err(e) => Err(e),
        }
    }
}

impl Cmd for CmdDestroyEntity {
    open spec fn queued(&self) -> QueuedCmd {
        QueuedCmd::DestroyEntity(CmdDestroyEntity { entity: self.entity })
    }

    fn exec(&self, universe: &mut Universe, state: &mut CmdChainState) -> (r: Result<(), EcsError>) {
        universe.destroy_entity(self.entity)
    }
}

/// Effect of one operation on the entity pool and on the last created entity.
pub open spec fn step(m: AllocatorModel, last: Option<Entity>, cmd: QueuedCmd) -> (AllocatorModel, Option<Entity>, Result<(), EcsError>) {
    match cmd {
        QueuedCmd::CreateEntity(_) => match m.create() {
            (m2, Some(e)) => (m2, Some(e), Ok(())),
            (m2, None) => (m2, last, Err(EcsError::CapacityExhausted)),
        },
        QueuedCmd::DestroyEntity(c) => {
            let (m2, r) = m.destroy(c.entity);
            (m2, last, r)
        },
    }
}

/// Effect of running `cmds` in order, stopping at the first failure.
pub open spec fn run(m: AllocatorModel, last: Option<Entity>, cmds: Seq<QueuedCmd>) -> (AllocatorModel, Option<Entity>, Result<(), EcsError>)
    decreases cmds.len(),
{
    if cmds.len() == 0 {
        (m, last, Ok(()))
    } else {
        let (m2, last2, r) = step(m, last, cmds[0]);
        if r is Err {
            (m2, last2, r)
        } else {
            run(m2, last2, cmds.skip(1))
        }
    }
}

impl CmdChain {
    /// An empty chain.
    pub fn new() -> (r: CmdChain)
        ensures
            r.cmds@.len() == 0,
            r.state.last_created_entity is None,
    {
        CmdChain { state: CmdChainState { last_created_entity: None }, cmds: Vec::new() }
    }

    /// Queues the creation of an entity.
    pub fn create_entity(&mut self)
        ensures
            final(self).cmds@ == old(self).cmds@.push(QueuedCmd::CreateEntity(CmdCreateEntity {})),
            final(self).state == old(self).state,
    {
        self.cmds.push(QueuedCmd::CreateEntity(CmdCreateEntity {}));
    }

    /// Queues the destruction of `entity`.
    pub fn destroy_entity(&mut self, entity: Entity)
        ensures
            final(self).cmds@ == old(self).cmds@.push(QueuedCmd::DestroyEntity(CmdDestroyEntity { entity })),
            final(self).state == old(self).state,
    {
        self.cmds.push(QueuedCmd::DestroyEntity(CmdDestroyEntity { entity }));
    }
}

} // verus!
