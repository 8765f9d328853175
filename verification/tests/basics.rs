use dapp_lib::app_type::AppType;
use dapp_lib::data::Data;
use dapp_lib::registry::ChangeRegistry;
use dapp_lib::search::EngineState;
use dapp_lib::swarm::SwarmID;

fn sha(bytes: &[u8]) -> u64 {
    let mut h: u64 = 1469598103934665603;
    for b in bytes {
        h ^= *b as u64;
        h = h.wrapping_mul(1099511628211);
    }
    h
}

#[test]
fn it_works() {}

#[test]
fn app_type_bytes() {
    assert_eq!(AppType::Catalog.byte(), 255);
    assert_eq!(AppType::from(254), AppType::Forum);
    assert_eq!(AppType::from(7), AppType::Other(7));
}

#[test]
fn data_new_refuses_long_pages() {
    let d = Data::new(vec![1, 2, 3], &sha).unwrap();
    assert_eq!(d.len(), 3);
    assert_eq!(d.get_hash(), sha(&[1, 2, 3]));
    assert!(Data::new(vec![0; 1025], &sha).is_err());
}

#[test]
fn registry_lists_newest_first() {
    let mut r = ChangeRegistry::new();
    assert_eq!(r.read(), vec![0]);
    r.insert(3);
    r.insert(7);
    assert_eq!(r.read(), vec![7, 3, 0]);
    r.insert(3);
    assert_eq!(r.read(), vec![3, 7, 0]);
}

#[test]
fn search_engine_queue_and_progress() {
    use_engine();
}

fn use_engine() {
    let mut st = EngineState::Processing(SwarmID(1), vec![1, 2, 3], vec![]);
    st.enqueue_swarm(SwarmID(4));
    st.enqueue_swarm(SwarmID(4));
    assert!(!st.processing_done(SwarmID(2), vec![1]));
    assert!(!st.processing_done(SwarmID(1), vec![1, 3]));
    assert!(st.processing_done(SwarmID(1), vec![2]));
    match st {
        EngineState::Processing(s, p, q) => {
            assert_eq!(s, SwarmID(1));
            assert!(p.is_empty());
            assert_eq!(q, vec![SwarmID(4)]);
        }
        EngineState::Idling => panic!("processing expected"),
    }
    let mut idle = EngineState::Idling;
    idle.enqueue_swarm(SwarmID(3));
    assert!(idle.is_idling());
}
