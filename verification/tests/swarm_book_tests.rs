use dapp_lib::swap::SwarmState;
use dapp_lib::swarm::{GnomeId, SwarmID, SwarmName};
use dapp_lib::swarm_book::SwarmBook;

fn name(f: u64, n: &str) -> SwarmName {
    SwarmName { founder: GnomeId(f), name: n.to_string() }
}

#[test]
fn swarm_book_lists_swarms_by_name() {
    let mut b = SwarmBook::new();
    b.insert(name(1, "a"), SwarmState::new(SwarmID(3), None, false, true));
    b.insert(name(2, "b"), SwarmState::new(SwarmID(4), None, false, false));
    assert_eq!(b.len(), 2);
    assert_eq!(b.get_swarm_id(&name(2, "b")), Some(SwarmID(4)));
    assert!(b.get_swarm_id(&name(2, "c")).is_none());
    // the same name is listed once, with its new state
    b.insert(name(1, "a"), SwarmState::new(SwarmID(5), None, false, true));
    assert_eq!(b.len(), 2);
    assert_eq!(b.get_swarm_id(&name(1, "a")), Some(SwarmID(5)));
    assert!(b.has_swarm_id(SwarmID(4)));
    assert!(!b.has_swarm_id(SwarmID(3)));
    assert_eq!(b.get_name(SwarmID(4)).unwrap().name, "b");
    // synced, not busy, and not the active one: can be swapped out
    assert!(!b.set_synced(SwarmID(5), SwarmID(4)));
    assert!(b.set_busy(SwarmID(5), false, SwarmID(4)));
    let (n, id) = b.ready_to_be_swapped(SwarmID(4)).unwrap();
    assert_eq!((n.name.as_str(), id), ("a", SwarmID(5)));
    assert!(b.ready_to_be_swapped(SwarmID(5)).is_none());
    assert!(!b.set_synced(SwarmID(9), SwarmID(4)));
    let st = b.remove(&name(1, "a")).unwrap();
    assert_eq!(st.s_id, SwarmID(5));
    assert_eq!(b.len(), 1);
    assert!(b.remove(&name(1, "a")).is_none());
}
