use dapp_lib::app_type::AppType;
use dapp_lib::application::{get_root_hash, parse_cast, AppMessage, ApplicationData};
use dapp_lib::content::{CastID, Content, DataType, Description, SwarmNameBytes, TransformInfo};
use dapp_lib::content_tree::ContentTree;
use dapp_lib::data::Data;
use dapp_lib::datastore::Datastore;
use dapp_lib::error::AppError;
use dapp_lib::registry::ChangeRegistry;
use std::collections::{HashMap, HashSet};

fn sha(bytes: &[u8]) -> u64 {
    let mut h: u64 = 1469598103934665603;
    for b in bytes {
        h ^= *b as u64;
        h = h.wrapping_mul(1099511628211);
    }
    h
}

fn pair(a: u64, b: u64) -> u64 {
    let mut v = a.to_be_bytes().to_vec();
    v.extend_from_slice(&b.to_be_bytes());
    sha(&v)
}

fn data_content(b: u8) -> Content {
    Content::from(DataType::Data(1), Data::new(vec![b; 4], &sha).unwrap(), &sha).unwrap()
}

fn link_with_ti() -> Content {
    let t = TransformInfo {
        d_type: DataType::Data(2),
        size: 2,
        root_hash: 1,
        broadcast_id: CastID(0),
        missing_hashes: [0u16].iter().cloned().collect::<HashSet<u16>>(),
        data_hashes: vec![],
        data: HashMap::new(),
    };
    Content::Link(SwarmNameBytes(vec![1, b'n']), 0, Description::new("l".to_string()).unwrap(), Data::empty(0), Some(t))
}

#[test]
fn new_datastore_holds_app_type_page() {
    let ds = Datastore::new(AppType::Catalog, &sha);
    assert_eq!(ds.len(), 1);
    assert_eq!(ds.type_and_len(0).unwrap(), (DataType::Data(0), 1));
    assert_eq!(ds.read_data((0, 0), &sha).unwrap().bytes(), vec![255]);
    assert!(matches!(ds.type_and_len(1), Err(AppError::IndexingError)));
}

#[test]
fn append_numbers_contents_and_hashes_root() {
    let mut ds = Datastore::new(AppType::Forum, &sha);
    let h0 = ds.hash(&sha);
    let h = ds.append(data_content(7), &sha).unwrap();
    assert_eq!(h, pair(h0, sha(&[7; 4])));
    assert_eq!(ds.hash(&sha), h);
    ds.append(data_content(8), &sha).unwrap();
    assert_eq!(ds.len(), 3);
    assert_eq!(ds.read_data((2, 0), &sha).unwrap().bytes(), vec![8; 4]);
    let (t, hh) = ds.get_root_content_typed_hash(1, &sha).unwrap();
    assert_eq!(t, DataType::Data(1));
    assert_eq!(hh, sha(&[7; 4]));
}

#[test]
fn take_leaves_shell_and_update_puts_back() {
    let mut ds = Datastore::new(AppType::Forum, &sha);
    ds.append(data_content(7), &sha).unwrap();
    let c = ds.take(1).unwrap();
    assert!(ds.read_data((1, 0), &sha).unwrap().is_empty());
    let old = ds.update(1, c, &sha).unwrap();
    assert_eq!(old.hash(&sha), sha(&[7; 4]));
    assert_eq!(ds.read_data((1, 0), &sha).unwrap().bytes(), vec![7; 4]);
    assert!(matches!(ds.take(5), Err(AppError::IndexingError)));
}

#[test]
fn update_refuses_to_replace_transforming_link() {
    let mut ds = Datastore::new(AppType::Forum, &sha);
    ds.append(link_with_ti(), &sha).unwrap();
    assert!(matches!(ds.update(1, data_content(1), &sha), Err(AppError::Smthg)));
    assert_eq!(ds.type_and_len(1).unwrap(), (DataType::Link, 2));
}

#[test]
fn data_operations_through_datastore() {
    let mut ds = Datastore::new(AppType::Forum, &sha);
    ds.append(data_content(1), &sha).unwrap();
    ds.append_data(1, Data::new(vec![2; 4], &sha).unwrap(), &sha).unwrap();
    assert_eq!(ds.type_and_len(1).unwrap().1, 2);
    let old = ds.update_data((1, 1), Data::new(vec![3; 4], &sha).unwrap(), &sha).unwrap();
    assert_eq!(old.bytes(), vec![2; 4]);
    let popped = ds.pop_data(1, &sha).unwrap();
    assert_eq!(popped.bytes(), vec![3; 4]);
    assert_eq!(ds.type_and_len(1).unwrap().1, 1);
    assert!(matches!(ds.append_data(9, Data::empty(0), &sha), Err(AppError::IndexingError)));
}

#[test]
fn transformative_link_collects_hash_parts() {
    let mut ds = Datastore::new(AppType::Forum, &sha);
    ds.append(link_with_ti(), &sha).unwrap();
    let (t, mh, mp) = ds.update_transformative_link(true, 1, 0, 1, Data::new(vec![0; 16], &sha).unwrap()).unwrap();
    assert_eq!(t, DataType::Data(2));
    assert!(mh.is_empty());
    assert!(mp.is_empty());
    assert!(matches!(ds.update_transformative_link(true, 0, 0, 1, Data::empty(0)), Err(AppError::LinkNonTransformative)));
}

#[test]
fn all_typed_root_hashes_groups_of_128() {
    let mut ds = Datastore::new(AppType::Forum, &sha);
    for i in 0..130u16 {
        ds.append(data_content((i % 200) as u8), &sha).unwrap();
    }
    let groups = ds.all_typed_root_hashes(&sha);
    assert_eq!(groups.len(), 2);
    assert_eq!(groups[0].len(), 128);
    assert_eq!(groups[1].len(), 3);
    assert_eq!(groups[0][0].0, DataType::Data(0));
}

#[test]
fn registry_moves_changed_id_to_front() {
    let mut r = ChangeRegistry::new();
    r.insert(3);
    r.insert(7);
    r.insert(9);
    assert_eq!(r.read(), vec![9, 7, 3, 0]);
    r.insert(7);
    assert_eq!(r.read(), vec![7, 9, 3, 0]);
}

#[test]
fn application_data_appends_until_full() {
    let mut app = ApplicationData::new(AppType::Catalog, &sha);
    assert_eq!(app.next_c_id(), Some(1));
    app.append(data_content(1), &sha).unwrap();
    assert_eq!(app.next_c_id(), Some(2));
    assert_eq!(app.registry(), vec![0]);
    let all = app.get_all_data(1, &sha).unwrap();
    assert_eq!(all.len(), 1);
    let pages = app.get_all_page_hashes(1, &sha).unwrap();
    assert_eq!(pages.len(), 1);
    assert_eq!(pages[0].len(), 8);
}

#[test]
fn cast_message_reads_back() {
    let m = AppMessage::new(5, true, 2, 9, Data::new(vec![1, 2], &sha).unwrap());
    let bytes = m.to_cast();
    assert_eq!(bytes, vec![0, 255, 0, 5, 0, 2, 0, 9, 1, 2]);
    let back = parse_cast(bytes, &sha).unwrap();
    assert!(back.is_hash);
    assert_eq!(back.content_id, 5);
    assert_eq!(back.part_no, 2);
    assert_eq!(back.total_parts, 9);
    assert_eq!(back.data.bytes(), vec![1, 2]);
    let bare = parse_cast(vec![1, 7, 7], &sha).unwrap_err();
    assert_eq!(bare.bytes(), vec![7, 7]);
    let bad = parse_cast(vec![0, 3], &sha).unwrap_err();
    assert!(bad.is_empty());
}

#[test]
fn root_hash_of_hash_list() {
    assert_eq!(get_root_hash(&vec![5], &sha), 5);
    assert_eq!(get_root_hash(&vec![1, 2, 3], &sha), pair(pair(1, 2), 3));
}

#[test]
fn content_tree_in_datastore_shell() {
    let mut ds = Datastore::new(AppType::Forum, &sha);
    ds.append(Content::Data(DataType::Data(4), 0, ContentTree::empty(0)), &sha).unwrap();
    let s = ds.shell(1).unwrap();
    assert_eq!(s.data_type(), DataType::Data(4));
}

#[test]
fn registry_lists_recent_inserts_first() {
    let mut r = ChangeRegistry::new();
    r.insert(5);
    r.insert(7);
    r.insert(5);
    assert_eq!(r.read(), vec![5, 7, 0]);
    let mut r = ChangeRegistry::new();
    for id in 1..=120u16 {
        r.insert(id);
    }
    let listed = r.read();
    assert_eq!(listed.len(), 100);
    assert_eq!(listed[0], 120);
    assert_eq!(listed[99], 21);
}
