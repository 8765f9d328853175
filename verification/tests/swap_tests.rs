use dapp_lib::app_type::AppType;
use dapp_lib::application::{ApplicationData, ChangePlan};
use dapp_lib::content::{CastID, Content, DataType, Description, SwarmNameBytes, TransformInfo};
use dapp_lib::data::Data;
use dapp_lib::message::SyncRequirements;
use dapp_lib::swap::{founder_determined, new_swarm_available, next_swap_step, FounderAction, SwapAction, SwapProcess, SwarmState};
use dapp_lib::swarm::{GnomeId, SwarmID, SwarmName};

fn sha(bytes: &[u8]) -> u64 {
    let mut h: u64 = 1469598103934665603;
    for b in bytes {
        h ^= *b as u64;
        h = h.wrapping_mul(1099511628211);
    }
    h
}

fn name(f: u64, n: &str) -> SwarmName {
    SwarmName { founder: GnomeId(f), name: n.to_string() }
}

#[test]
fn joining_ends_when_the_swarm_is_joined() {
    let p = SwapProcess::Joining(name(1, "a")).swarm_joined(&name(1, "a"), 3);
    assert!(p.is_idle());
    let p = SwapProcess::Joining(name(1, "a")).swarm_joined(&name(2, "b"), 3);
    assert!(matches!(p, SwapProcess::Joining(n) if n.name == "a"));
    // the only swarm known ends joining whatever it is
    let p = SwapProcess::Joining(name(1, "a")).swarm_joined(&name(2, "b"), 1);
    assert!(p.is_idle());
    assert!(SwapProcess::Cooldown.swarm_joined(&name(1, "a"), 1).cooldown_over().is_idle());
}

#[test]
fn leaving_ends_in_cooldown() {
    let (p, timer) = SwapProcess::Leaving(SwarmID(3)).swarm_disconnected(SwarmID(3), &name(1, "a"), true, true);
    assert!(matches!(p, SwapProcess::Cooldown) && timer);
    let (p, timer) = SwapProcess::Leaving(SwarmID(3)).swarm_disconnected(SwarmID(3), &name(1, "a"), false, true);
    assert!(p.is_idle() && !timer);
    let (p, timer) = SwapProcess::Leaving(SwarmID(3)).swarm_disconnected(SwarmID(4), &name(1, "a"), true, true);
    assert!(matches!(p, SwapProcess::Leaving(SwarmID(3))) && !timer);
    let p = SwapProcess::WaitingForGnomeMgr.selected_swarm(Some(name(5, "x")));
    assert!(matches!(p, SwapProcess::Joining(n) if n.founder == GnomeId(5)));
    assert!(SwapProcess::WaitingForGnomeMgr.selected_swarm(None).is_idle());
    assert!(SwapProcess::Cooldown.selected_swarm(None).is_waiting() == false);
}

#[test]
fn swap_step_joins_the_last_unknown_swarm() {
    let mut to_join = vec![name(1, "a"), name(2, "b"), name(3, "c")];
    let known = vec![name(3, "c")];
    let (p, act) = next_swap_step(SwapProcess::Idle, false, true, None, &mut to_join, &known, None);
    assert!(matches!(p, SwapProcess::Joining(ref n) if n.founder == GnomeId(2)));
    assert!(matches!(act, SwapAction::Join(ref n) if n.name == "b"));
    assert_eq!(to_join.len(), 1);
    let mut none_left = vec![name(3, "c")];
    let (p, act) = next_swap_step(SwapProcess::Idle, false, true, None, &mut none_left, &known, Some(name(9, "z")));
    assert!(p.is_waiting());
    assert!(matches!(act, SwapAction::JoinRandom(Some(ref n)) if n.founder == GnomeId(9)));
    // no free slot: a swappable swarm is left
    let (p, act) = next_swap_step(SwapProcess::Idle, false, false, Some(SwarmID(7)), &mut vec![], &known, None);
    assert!(matches!(p, SwapProcess::Leaving(SwarmID(7))) && matches!(act, SwapAction::Leave(SwarmID(7))));
    // a step under way stays
    let (p, act) = next_swap_step(SwapProcess::Cooldown, false, true, None, &mut vec![], &known, None);
    assert!(matches!(p, SwapProcess::Cooldown) && matches!(act, SwapAction::Nothing));
}

#[test]
fn swarm_can_be_swapped() {
    let s = SwarmState::new(SwarmID(2), Some(AppType::Catalog), true, false);
    assert!(s.swappable(SwarmID(1)));
    assert!(!s.swappable(SwarmID(2)));
    assert!(!SwarmState::new(SwarmID(2), None, true, true).swappable(SwarmID(1)));
}

#[test]
fn requirements_validated_against_contents() {
    let app = ApplicationData::new(AppType::Catalog, &sha);
    let (_t, h0) = app.content_root_hash(0, &sha).unwrap();
    let ok = SyncRequirements { pre: vec![(0, h0), (5, 0)], post: vec![(0, h0 ^ 1)] };
    assert!(ok.pre_validate(0, &app, &sha));
    assert!(!ok.post_validate(0, &app, &sha));
    let missing = SyncRequirements { pre: vec![(5, 3)], post: vec![] };
    assert!(!missing.pre_validate(0, &app, &sha));
    assert!(missing.post_validate(0, &app, &sha));
}

#[test]
fn change_content_plans() {
    let mut app = ApplicationData::new(AppType::Catalog, &sha);
    let a = Data::new(vec![1, 1], &sha).unwrap();
    let b = Data::new(vec![2, 2], &sha).unwrap();
    let c = Data::new(vec![3, 3], &sha).unwrap();
    let mut content = Content::from(DataType::Data(1), a.clone(), &sha).unwrap();
    content.push_data(b.clone(), &sha).unwrap();
    app.append(content, &sha).unwrap();
    // another type is refused
    assert!(matches!(app.plan_change_content(1, DataType::Data(2), &vec![a.clone()], &sha), ChangePlan::Refused));
    // one page differs: an update of it
    assert!(matches!(app.plan_change_content(1, DataType::Data(1), &vec![a.clone(), c.clone()], &sha), ChangePlan::UpdateOne(1)));
    // otherwise a change of the whole content
    match app.plan_change_content(1, DataType::Data(1), &vec![c.clone(), a.clone(), b.clone()], &sha) {
        ChangePlan::Change { pre_hash, post_hash: _, hashes_page, pages_to_send } => {
            assert_eq!(pre_hash, app.content_root_hash(1, &sha).unwrap().1);
            let mut expected = c.get_hash().to_be_bytes().to_vec();
            expected.extend(a.get_hash().to_be_bytes());
            expected.extend(b.get_hash().to_be_bytes());
            assert_eq!(hashes_page.bytes(), expected);
            assert_eq!(pages_to_send, vec![0]);
        },
        other => panic!("unexpected {:?}", other),
    }
    assert!(matches!(app.plan_change_content(1, DataType::Data(1), &vec![], &sha), ChangePlan::Unsupported));
}

#[test]
fn founder_decisions() {
    use_founder();
}

fn use_founder() {
    let me = GnomeId(1);
    assert_eq!(founder_determined(false, me, GnomeId(2)), (true, FounderAction::StartOwnSwarm));
    assert_eq!(founder_determined(true, me, GnomeId(2)), (true, FounderAction::ActivateOwnSwarm));
    assert_eq!(founder_determined(false, me, me), (true, FounderAction::Nothing));
    assert!(new_swarm_available(false, me, &name(1, "/")));
    assert!(!new_swarm_available(false, me, &name(2, "/")));
}

#[test]
fn transform_link_makes_data() {
    use_transform();
}

fn use_transform() {
    let a = Data::new(vec![1, 2], &sha).unwrap();
    let b = Data::new(vec![3, 4], &sha).unwrap();
    let mut hash_bytes = a.get_hash().to_be_bytes().to_vec();
    hash_bytes.extend(b.get_hash().to_be_bytes());
    let mut data = std::collections::HashMap::new();
    data.insert(0u16, a.clone());
    data.insert(1u16, b.clone());
    let ti = TransformInfo {
        d_type: DataType::Data(2),
        size: 2,
        root_hash: 77,
        broadcast_id: CastID(0),
        missing_hashes: std::collections::HashSet::new(),
        data_hashes: vec![Data::new(hash_bytes, &sha).unwrap()],
        data,
    };
    let link = Content::Link(SwarmNameBytes(vec![1, b'n']), 3, Description::new("l".to_string()).unwrap(), Data::empty(0), Some(ti));
    let mut app = ApplicationData::new(AppType::Catalog, &sha);
    app.append(link, &sha).unwrap();
    let old = app.transform_link(1, &sha).unwrap();
    assert!(matches!(old, Content::Link(_, 3, _, _, None)));
    assert_eq!(app.contents.type_and_len(1).unwrap(), (DataType::Data(2), 2));
    assert_eq!(app.contents.read_data((1, 1), &sha).unwrap().bytes(), vec![3, 4]);
    assert!(matches!(app.transform_link(0, &sha), Err(dapp_lib::error::AppError::DatatypeMismatch)));
}
