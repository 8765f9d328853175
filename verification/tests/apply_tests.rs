use dapp_lib::app_type::AppType;
use dapp_lib::application::ApplicationData;
use dapp_lib::apply::SyncOutcome;
use dapp_lib::content::{Content, DataType};
use dapp_lib::data::Data;
use dapp_lib::error::AppError;
use dapp_lib::message::{SyncMessageType, SyncRequirements};

fn sha(bytes: &[u8]) -> u64 {
    let mut h: u64 = 1469598103934665603;
    for b in bytes {
        h ^= *b as u64;
        h = h.wrapping_mul(1099511628211);
    }
    h
}

fn page(bytes: Vec<u8>) -> Data {
    Data::new(bytes, &sha).unwrap()
}

/// An application with a second content of two pages.
fn app_with_content() -> ApplicationData {
    let mut app = ApplicationData::new(AppType::Catalog, &sha);
    let mut c = Content::from(DataType::Data(1), page(vec![1, 2, 3]), &sha).unwrap();
    c.push_data(page(vec![4, 5]), &sha).unwrap();
    app.append(c, &sha).unwrap();
    app
}

fn hash_of(app: &ApplicationData, c_id: u16) -> u64 {
    app.content_root_hash(c_id, &sha).unwrap().1
}

fn reqs(pre: Vec<(u16, u64)>, post: Vec<(u16, u64)>) -> SyncRequirements {
    SyncRequirements { pre, post }
}

#[test]
fn append_data_applies_and_rolls_back() {
    let mut planner = app_with_content();
    let h0 = hash_of(&planner, 1);
    let msg = planner.plan_append_data(1, page(vec![9, 9, 9]), &sha);
    // planning leaves the content as it was
    assert_eq!(hash_of(&planner, 1), h0);
    assert!(matches!(msg.m_type, SyncMessageType::AppendData(1)));
    assert_eq!(msg.requirements.pre, vec![(1, h0)]);
    assert_eq!(msg.data.clone().bytes(), vec![9, 9, 9]);
    let h1 = msg.requirements.post[0].1;
    assert_ne!(h1, h0);

    let mut app = app_with_content();
    let r = app.apply_append_data(1, msg.data.clone(), &msg.requirements, &sha);
    assert_eq!(r, SyncOutcome::Applied);
    assert_eq!(hash_of(&app, 1), h1);
    assert_eq!(app.contents.read_data((1, 2), &sha).unwrap().bytes(), vec![9, 9, 9]);

    let mut app = app_with_content();
    let r = app.apply_append_data(1, page(vec![9, 9, 9]), &reqs(vec![(1, h0)], vec![(1, h1 ^ 1)]), &sha);
    assert_eq!(r, SyncOutcome::RolledBack);
    assert_eq!(hash_of(&app, 1), h0);

    let mut app = app_with_content();
    let r = app.apply_append_data(1, page(vec![9, 9, 9]), &reqs(vec![(1, h0 ^ 1)], vec![]), &sha);
    assert_eq!(r, SyncOutcome::Refused);
    assert_eq!(hash_of(&app, 1), h0);

    let mut app = app_with_content();
    let r = app.apply_append_data(7, page(vec![9]), &reqs(vec![], vec![]), &sha);
    assert_eq!(r, SyncOutcome::Failed(AppError::IndexingError));
}

#[test]
fn append_then_pop_gives_back_the_content() {
    let mut app = app_with_content();
    let h0 = hash_of(&app, 1);
    app.contents.append_data(1, page(vec![7, 7]), &sha).unwrap();
    assert_ne!(hash_of(&app, 1), h0);
    let popped = app.contents.pop_data(1, &sha).unwrap();
    assert_eq!(popped.bytes(), vec![7, 7]);
    assert_eq!(hash_of(&app, 1), h0);
    assert_eq!(app.contents.read_data((1, 1), &sha).unwrap().bytes(), vec![4, 5]);
}

#[test]
fn append_content_follows_its_plan() {
    let planner = app_with_content();
    let data = page(vec![5, 6, 7, 8]);
    let msg = planner.plan_append_content(DataType::Data(3), data.clone()).unwrap();
    assert!(matches!(msg.m_type, SyncMessageType::AppendContent(DataType::Data(3))));
    assert_eq!(msg.requirements.pre, vec![(2, 0)]);
    assert_eq!(msg.requirements.post, vec![(2, data.get_hash())]);

    let mut app = app_with_content();
    let r = app.apply_append_content(DataType::Data(3), msg.data.clone(), &msg.requirements, &sha);
    let (id, t, main) = r.unwrap();
    assert_eq!(id, 2);
    assert_eq!(t, DataType::Data(3));
    assert_eq!(main.bytes(), vec![5, 6, 7, 8]);
    assert_eq!(hash_of(&app, 2), data.get_hash());

    // a hash after the change that the content does not have
    let mut app = app_with_content();
    let r = app.apply_append_content(DataType::Data(3), data.clone(), &reqs(vec![(2, 0)], vec![(2, 1)]), &sha);
    assert_eq!(r.unwrap_err(), SyncOutcome::Mismatch);
    assert!(app.content_root_hash(2, &sha).is_err());
    // a content already at the next id
    let mut app = app_with_content();
    let r = app.apply_append_content(DataType::Data(3), data, &reqs(vec![(2, 5)], vec![]), &sha);
    assert_eq!(r.unwrap_err(), SyncOutcome::Refused);
}

#[test]
fn update_data_applies_and_rolls_back() {
    let mut probe = app_with_content();
    let h0 = hash_of(&probe, 1);
    probe.contents.update_data((1, 1), page(vec![8, 8]), &sha).unwrap();
    let h1 = hash_of(&probe, 1);

    let mut app = app_with_content();
    let r = app.apply_update_data(1, 1, page(vec![8, 8]), &reqs(vec![(1, h0)], vec![(1, h1)]), &sha);
    let (t, main) = r.unwrap();
    assert_eq!(t, DataType::Data(1));
    assert!(main.is_none());
    assert_eq!(hash_of(&app, 1), h1);

    let mut app = app_with_content();
    let r = app.apply_update_data(1, 0, page(vec![8, 8]), &reqs(vec![(1, h0)], vec![]), &sha);
    let (_t, main) = r.unwrap();
    assert_eq!(main.unwrap().bytes(), vec![8, 8]);

    let mut app = app_with_content();
    let r = app.apply_update_data(1, 1, page(vec![8, 8]), &reqs(vec![(1, h0)], vec![(1, h0)]), &sha);
    assert_eq!(r.unwrap_err(), SyncOutcome::RolledBack);
    assert_eq!(hash_of(&app, 1), h0);
    assert_eq!(app.contents.read_data((1, 1), &sha).unwrap().bytes(), vec![4, 5]);

    let mut app = app_with_content();
    let r = app.apply_update_data(1, 5, page(vec![8, 8]), &reqs(vec![], vec![]), &sha);
    assert_eq!(r.unwrap_err(), SyncOutcome::Failed(AppError::IndexingError));
}

#[test]
fn remove_data_applies_and_rolls_back() {
    let mut probe = app_with_content();
    let h0 = hash_of(&probe, 1);
    probe.contents.remove_data(1, 0, &sha).unwrap();
    let h1 = hash_of(&probe, 1);

    let mut app = app_with_content();
    let r = app.apply_remove_data(1, 0, &reqs(vec![(1, h0)], vec![(1, h1)]), &sha);
    assert_eq!(r, SyncOutcome::Applied);
    assert_eq!(hash_of(&app, 1), h1);
    assert_eq!(app.contents.read_data((1, 0), &sha).unwrap().bytes(), vec![4, 5]);

    let mut app = app_with_content();
    let r = app.apply_remove_data(1, 0, &reqs(vec![(1, h0)], vec![(1, h0)]), &sha);
    assert_eq!(r, SyncOutcome::RolledBack);
    assert_eq!(app.contents.read_data((1, 0), &sha).unwrap().bytes(), vec![1, 2, 3]);
    assert_eq!(app.contents.read_data((1, 1), &sha).unwrap().bytes(), vec![4, 5]);

    let mut app = app_with_content();
    let r = app.apply_remove_data(1, 9, &reqs(vec![], vec![]), &sha);
    assert_eq!(r, SyncOutcome::Failed(AppError::IndexingError));
}

#[test]
fn shelled_datas_apply_and_roll_back() {
    let mut bytes = 11u64.to_be_bytes().to_vec();
    bytes.extend_from_slice(&22u64.to_be_bytes());
    bytes.push(1);
    let shells = Data::new(bytes, &sha).unwrap();

    let mut probe = app_with_content();
    let h0 = hash_of(&probe, 1);
    probe.contents.append_data(1, Data::empty(11), &sha).unwrap();
    probe.contents.append_data(1, Data::empty(22), &sha).unwrap();
    let h1 = hash_of(&probe, 1);

    let mut app = app_with_content();
    let r = app.apply_append_shelled_datas(1, shells.clone(), &reqs(vec![(1, h0)], vec![(1, h1)]), &sha);
    assert_eq!(r, SyncOutcome::Applied);
    assert_eq!(hash_of(&app, 1), h1);
    assert_eq!(app.contents.read_data((1, 3), &sha).unwrap().get_hash(), 22);

    let mut app = app_with_content();
    let r = app.apply_append_shelled_datas(1, shells.clone(), &reqs(vec![(1, h0)], vec![(1, h0)]), &sha);
    assert_eq!(r, SyncOutcome::RolledBack);
    assert_eq!(hash_of(&app, 1), h0);

    let mut app = app_with_content();
    let r = app.apply_append_shelled_datas(4, shells, &reqs(vec![], vec![]), &sha);
    assert_eq!(r, SyncOutcome::Failed(AppError::IndexingError));
}

fn hashes_page(hs: &[u64]) -> Data {
    let mut bytes = vec![];
    for h in hs {
        bytes.extend_from_slice(&h.to_be_bytes());
    }
    Data::new(bytes, &sha).unwrap()
}

#[test]
fn change_content_takes_over_old_pages() {
    let a = page(vec![1, 2, 3]).get_hash();
    let b = page(vec![4, 5]).get_hash();
    let mut shell = Content::from(DataType::Data(1), Data::empty(b), &sha).unwrap();
    shell.push_data(Data::empty(a), &sha).unwrap();
    shell.push_data(Data::empty(99), &sha).unwrap();
    let shell_hash = shell.hash(&sha);

    let mut app = app_with_content();
    let h0 = hash_of(&app, 1);
    let r = app.apply_change_content(1, DataType::Data(1), hashes_page(&[b, a, 99]), &reqs(vec![(1, h0)], vec![(1, shell_hash)]), &sha);
    let main = r.unwrap().unwrap();
    assert_eq!(main.get_hash(), b);
    assert_eq!(main.len(), 0);
    assert_eq!(app.content_root_hash(1, &sha).unwrap().0, DataType::Data(1));
    assert_eq!(app.contents.read_data((1, 0), &sha).unwrap().bytes(), vec![4, 5]);
    assert_eq!(app.contents.read_data((1, 1), &sha).unwrap().bytes(), vec![1, 2, 3]);
    let last = app.contents.read_data((1, 2), &sha).unwrap();
    assert_eq!(last.get_hash(), 99);
    assert_eq!(last.len(), 0);

    // the same first page: no new page 0 is announced
    let mut app = app_with_content();
    let mut same = Content::from(DataType::Data(1), Data::empty(a), &sha).unwrap();
    same.push_data(Data::empty(b), &sha).unwrap();
    let r = app.apply_change_content(1, DataType::Data(1), hashes_page(&[a, b]), &reqs(vec![], vec![(1, same.hash(&sha))]), &sha);
    assert!(r.unwrap().is_none());

    // a hash after the change that the new content does not have
    let mut app = app_with_content();
    let r = app.apply_change_content(1, DataType::Data(1), hashes_page(&[b, a, 99]), &reqs(vec![(1, h0)], vec![(1, 5)]), &sha);
    assert_eq!(r.unwrap_err(), SyncOutcome::RolledBack);
    assert_eq!(hash_of(&app, 1), h0);
    assert_eq!(app.contents.read_data((1, 0), &sha).unwrap().bytes(), vec![1, 2, 3]);

    // data may not change its data type
    let mut app = app_with_content();
    let r = app.apply_change_content(1, DataType::Data(2), hashes_page(&[b, a]), &reqs(vec![(1, h0)], vec![]), &sha);
    assert_eq!(r.unwrap_err(), SyncOutcome::Failed(AppError::DatatypeMismatch));
    assert_eq!(hash_of(&app, 1), h0);

    let mut app = app_with_content();
    let r = app.apply_change_content(9, DataType::Data(1), hashes_page(&[b]), &reqs(vec![], vec![]), &sha);
    assert_eq!(r.unwrap_err(), SyncOutcome::Failed(AppError::IndexingError));
}

#[test]
fn remove_data_plan_names_the_hash_after_removal() {
    let planner = app_with_content();
    let h0 = hash_of(&planner, 1);
    let msg = planner.plan_remove_data(1, 0, &sha);
    assert!(matches!(msg.m_type, SyncMessageType::RemoveData(1, 0)));
    assert_eq!(msg.requirements.pre, vec![(1, h0)]);
    assert_eq!(msg.data.len(), 0);
    assert_eq!(msg.data.get_hash(), 0);
    // the swarm applying the message reaches the announced hash
    let mut app = app_with_content();
    let r = app.apply_remove_data(1, 0, &msg.requirements, &sha);
    assert_eq!(r, SyncOutcome::Applied);
    assert_eq!(hash_of(&app, 1), msg.requirements.post[0].1);
}

#[test]
fn update_data_plan_leaves_the_content_and_names_the_hash_after() {
    let mut planner = app_with_content();
    let h0 = hash_of(&planner, 1);
    let new_page = page(vec![6, 6, 6]);
    let msg = planner.plan_update_data(1, 1, new_page.clone(), &sha);
    assert_eq!(hash_of(&planner, 1), h0);
    assert_eq!(planner.contents.read_data((1, 1), &sha).unwrap().bytes(), vec![4, 5]);
    assert!(matches!(msg.m_type, SyncMessageType::UpdateData(1, 1)));
    assert_eq!(msg.requirements.pre, vec![(1, h0)]);
    assert_eq!(msg.data.clone().bytes(), vec![6, 6, 6]);
    let mut app = app_with_content();
    let r = app.apply_update_data(1, 1, msg.data.clone(), &msg.requirements, &sha);
    assert!(r.is_ok());
    assert_eq!(hash_of(&app, 1), msg.requirements.post[0].1);
}

#[test]
fn shelled_datas_plan_appends_shells_then_fills_them() {
    let planner = app_with_content();
    let h0 = hash_of(&planner, 1);
    let mut bytes = 31u64.to_be_bytes().to_vec();
    bytes.extend_from_slice(&32u64.to_be_bytes());
    let shells = Data::new(bytes, &sha).unwrap();
    let msgs = planner.plan_append_shelled_datas(1, shells.clone(), vec![page(vec![1]), page(vec![2])], &sha);
    assert_eq!(msgs.len(), 3);
    assert!(matches!(msgs[0].m_type, SyncMessageType::AppendShelledDatas(1)));
    assert_eq!(msgs[0].requirements.pre, vec![(1, h0)]);
    let h1 = msgs[0].requirements.post[0].1;
    assert!(matches!(msgs[1].m_type, SyncMessageType::UpdateData(1, 2)));
    assert!(matches!(msgs[2].m_type, SyncMessageType::UpdateData(1, 3)));
    assert_eq!(msgs[2].requirements.pre, vec![(1, h1)]);
    assert_eq!(msgs[2].data.clone().bytes(), vec![2]);
    // planning leaves the content as it was, and the swarm reaches the hash
    assert_eq!(hash_of(&planner, 1), h0);
    let mut app = app_with_content();
    let r = app.apply_append_shelled_datas(1, shells, &msgs[0].requirements, &sha);
    assert_eq!(r, SyncOutcome::Applied);
    assert_eq!(hash_of(&app, 1), h1);
    assert!(planner.plan_append_shelled_datas(8, page(vec![]), vec![], &sha).is_empty());
}

#[test]
fn update_keeps_the_data_type_of_data() {
    let mut app = app_with_content();
    let h0 = hash_of(&app, 1);
    let other = Content::from(DataType::Data(2), page(vec![7]), &sha).unwrap();
    let r = app.contents.update(1, other, &sha);
    assert_eq!(r.unwrap_err(), AppError::DatatypeMismatch);
    assert_eq!(hash_of(&app, 1), h0);
    let same = Content::from(DataType::Data(1), page(vec![7]), &sha).unwrap();
    let old = app.contents.update(1, same, &sha).unwrap();
    assert_eq!(old.data_type(), DataType::Data(1));
    assert_eq!(hash_of(&app, 1), page(vec![7]).get_hash());
}

#[test]
fn update_data_keeps_the_count_of_pages_with_bytes() {
    let mut c = Content::from(DataType::Data(1), page(vec![1, 2, 3]), &sha).unwrap();
    c.push_data(page(vec![4, 5]), &sha).unwrap();
    let count = |c: &Content| match c {
        Content::Data(_, mem, _) => *mem,
        _ => panic!("not data"),
    };
    assert_eq!(count(&c), 2);
    c.update_data(1, Data::empty(9), &sha).unwrap();
    assert_eq!(count(&c), 1);
    c.update_data(1, page(vec![6]), &sha).unwrap();
    assert_eq!(count(&c), 2);
    assert_eq!(c.read_data(1, &sha).unwrap().bytes(), vec![6]);
    assert_eq!(c.read_data(0, &sha).unwrap().bytes(), vec![1, 2, 3]);
    assert!(c.update_data(5, page(vec![6]), &sha).is_err());
    assert_eq!(count(&c), 2);
}
