use ecs::cmd::CmdChain;
use ecs::entity::{EcsError, Entity};
use ecs::universe::Universe;

#[test]
fn chain_runs_in_order_and_reports_last_created() {
    let mut u = Universe::new();
    let mut chain = CmdChain::new();
    chain.create_entity();
    chain.create_entity();
    assert_eq!(u.exec(&mut chain), Ok(()));
    assert_eq!(chain.state.last_created_entity, Some(Entity { id: 2, version: 1 }));
    assert_eq!(chain.cmds.len(), 0);
    chain.destroy_entity(Entity { id: 1, version: 1 });
    chain.create_entity();
    assert_eq!(u.exec(&mut chain), Ok(()));
    assert_eq!(chain.state.last_created_entity, Some(Entity { id: 1, version: 2 }));
}

#[test]
fn chain_stops_at_first_failure() {
    let mut u = Universe::new();
    let mut chain = CmdChain::new();
    chain.destroy_entity(Entity { id: 1, version: 7 });
    chain.create_entity();
    assert_eq!(u.exec(&mut chain), Err(EcsError::InvalidHandle));
    assert_eq!(chain.state.last_created_entity, None);
    assert_eq!(chain.cmds.len(), 0);
    assert_eq!(u.create_entity(), Ok(Entity { id: 1, version: 1 }));
}
