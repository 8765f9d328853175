use dapp_lib::content::{
    data_to_link, link_to_data, CastID, Content, DataType, Description, SwarmNameBytes, TransformInfo,
};
use dapp_lib::content_tree::ContentTree;
use dapp_lib::data::Data;
use dapp_lib::error::AppError;
use std::collections::{HashMap, HashSet};

fn sha(bytes: &[u8]) -> u64 {
    let mut h: u64 = 1469598103934665603;
    for b in bytes {
        h ^= *b as u64;
        h = h.wrapping_mul(1099511628211);
    }
    h
}

fn page(b: u8) -> Data {
    Data::new(vec![b, b], &sha).unwrap()
}

fn ti(missing: &[u16]) -> TransformInfo {
    TransformInfo {
        d_type: DataType::Data(3),
        size: 300,
        root_hash: 0x0102030405060708,
        broadcast_id: CastID(9),
        missing_hashes: missing.iter().cloned().collect::<HashSet<u16>>(),
        data_hashes: vec![],
        data: HashMap::new(),
    }
}

#[test]
fn data_type_bytes() {
    assert_eq!(DataType::from(255), DataType::Link);
    assert_eq!(DataType::from(4).byte(), 4);
    assert!(DataType::Link.is_link());
    assert!(!DataType::Data(0).is_link());
}

#[test]
fn description_limits_and_bytes() {
    let d = Description::new("hello".to_string()).unwrap();
    assert_eq!(d.text(), "hello");
    assert_eq!(d.as_bytes(), vec![5, b'h', b'e', b'l', b'l', b'o']);
    assert!(Description::new("x".repeat(129)).is_err());
    assert!(Description::new("x".repeat(128)).is_ok());
}

#[test]
fn transform_info_bytes_read_back() {
    let t = ti(&[3, 1, 2]);
    let bytes = t.bytes();
    assert_eq!(bytes.len(), 18 + 6);
    assert_eq!(&bytes[0..3], &[3, 1, 44]);
    assert_eq!(&bytes[12..14], &[0, 3]);
    let back = TransformInfo::from(bytes).unwrap();
    assert_eq!(back.d_type, DataType::Data(3));
    assert_eq!(back.size, 300);
    assert_eq!(back.root_hash, 0x0102030405060708);
    assert_eq!(back.broadcast_id, CastID(9));
    assert_eq!(back.what_hashes_are_missing(), vec![1, 2, 3]);
    assert!(TransformInfo::from(vec![]).is_none());
}

#[test]
fn transform_info_writes_at_most_61_missing_parts() {
    let missing: Vec<u16> = (0..100).collect();
    let t = ti(&missing);
    let bytes = t.bytes();
    assert_eq!(&bytes[12..14], &[0, 61]);
    assert_eq!(bytes.len(), 18 + 2 * 61);
}

#[test]
fn add_hash_fills_missing_part() {
    let mut t = ti(&[0]);
    t.add_hash(0, 1, page(1));
    assert!(t.what_hashes_are_missing().is_empty());
    assert_eq!(t.data_hashes.len(), 1);
}

#[test]
fn add_hash_beyond_marks_gap_missing() {
    let mut t = ti(&[]);
    t.add_hash(2, 3, page(1));
    assert_eq!(t.what_hashes_are_missing(), vec![0, 1]);
    assert_eq!(t.data_hashes.len(), 2);
    assert!(t.data_hashes[0].is_empty());
}

#[test]
fn add_data_checks_listed_hash() {
    let mut t = ti(&[]);
    let d = Data::new(vec![5, 6, 7], &sha).unwrap();
    let mut hash_page = vec![0u8; 16];
    hash_page[8..16].copy_from_slice(&d.get_hash().to_be_bytes());
    t.data_hashes.push(Data::new(hash_page, &sha).unwrap());
    t.add_data(1, 10, d);
    assert_eq!(t.size, 10);
    assert_eq!(t.what_data_is_missing(3), vec![0, 2]);
    t.add_data(0, 10, Data::new(vec![1], &sha).unwrap());
    assert_eq!(t.what_data_is_missing(3), vec![0, 2]);
}

#[test]
fn add_data_beyond_hash_parts_marks_them_missing() {
    let mut t = ti(&[]);
    t.add_data(300, 400, page(1));
    assert_eq!(t.what_hashes_are_missing(), vec![0, 1, 2]);
    assert_eq!(t.what_data_is_missing(2), vec![0, 1]);
}

#[test]
fn link_reads_back_from_its_page() {
    let name = SwarmNameBytes(vec![3, b'a', b'b', b'c']);
    let descr = Description::new("a description".to_string()).unwrap();
    let tags = Data::new(vec![1, 2, 3], &sha).unwrap();
    let page = link_to_data(name, 42, descr, tags, Some(ti(&[5])), &sha);
    let link = data_to_link(page, &sha).unwrap();
    match link {
        Content::Link(n, c, d, t, Some(ti2)) => {
            assert_eq!(n.as_bytes(), vec![3, b'a', b'b', b'c']);
            assert_eq!(c, 42);
            assert_eq!(d.text(), "a description");
            assert_eq!(t.bytes(), vec![1, 2, 3]);
            assert_eq!(ti2.size, 300);
            assert_eq!(ti2.what_hashes_are_missing(), vec![5]);
        }
        _ => panic!("not a link"),
    }
}

#[test]
fn short_page_is_no_link() {
    let d = Data::new(vec![0; 5], &sha).unwrap();
    assert!(matches!(data_to_link(d, &sha), Err(AppError::Smthg)));
}

#[test]
fn data_content_counts_pages_with_bytes() {
    let mut c = Content::from(DataType::Data(1), page(1), &sha).unwrap();
    assert_eq!(c.used_memory_pages(), 1);
    c.push_data(page(2), &sha).unwrap();
    c.push_data(Data::empty(5), &sha).unwrap();
    assert_eq!(c.used_memory_pages(), 2);
    assert_eq!(c.len(), 3);
    let popped = c.pop_data(&sha).unwrap();
    assert!(popped.is_empty());
    assert_eq!(c.used_memory_pages(), 2);
    let old = c.update_data(1, Data::empty(0), &sha).unwrap();
    assert_eq!(old.bytes(), vec![2, 2]);
    assert_eq!(c.used_memory_pages(), 1);
}

#[test]
fn link_refuses_page_operations() {
    let name = SwarmNameBytes(vec![1, b'x']);
    let descr = Description::new("d".to_string()).unwrap();
    let mut c = Content::Link(name, 1, descr, Data::empty(0), None);
    assert!(matches!(c.push_data(page(1), &sha), Err(AppError::DatatypeMismatch)));
    assert!(matches!(c.pop_data(&sha), Err(AppError::DatatypeMismatch)));
    assert!(matches!(c.read_link_data(DataType::Data(0), 0), Err(AppError::LinkNonTransformative)));
    assert_eq!(c.data_type(), DataType::Link);
    assert_eq!(c.description(), "d");
    assert_eq!(c.len(), 0);
}

#[test]
fn data_content_from_empty_page_holds_its_hash() {
    let c = Content::from(DataType::Data(2), Data::empty(99), &sha).unwrap();
    assert_eq!(c.hash(&sha), 99);
    assert_eq!(c.used_memory_pages(), 0);
    assert_eq!(c.data_hashes(&sha), vec![99]);
}

#[test]
fn tag_ids_skip_first_byte() {
    let name = SwarmNameBytes(vec![1, b'x']);
    let descr = Description::new("d".to_string()).unwrap();
    let c = Content::Link(name, 1, descr, Data::new(vec![2, 7, 8], &sha).unwrap(), None);
    assert_eq!(c.tag_ids(), vec![7, 8]);
}

#[test]
fn shell_of_data_content_drops_bytes() {
    let mut c = Content::Data(DataType::Data(0), 0, ContentTree::empty(0));
    c.push_data(page(1), &sha).unwrap();
    c.push_data(page(2), &sha).unwrap();
    let s = c.shell();
    assert_eq!(s.hash(&sha), c.hash(&sha));
    assert!(s.read_data(0, &sha).unwrap().is_empty());
}

fn ti_with_pages(pages: &[Data], given: &[usize], missing: &[u16]) -> TransformInfo {
    let mut hash_bytes = vec![];
    for p in pages {
        hash_bytes.extend(p.get_hash().to_be_bytes());
    }
    let mut data = HashMap::new();
    for i in given {
        data.insert(*i as u16, pages[*i].clone());
    }
    TransformInfo {
        d_type: DataType::Data(2),
        size: pages.len() as u16,
        root_hash: 77,
        broadcast_id: CastID(0),
        missing_hashes: missing.iter().cloned().collect(),
        data_hashes: vec![Data::new(hash_bytes, &sha).unwrap()],
        data,
    }
}

#[test]
fn transform_info_builds_its_tree() {
    let a = Data::new(vec![1, 2], &sha).unwrap();
    let b = Data::new(vec![3, 4], &sha).unwrap();
    let t = ti_with_pages(&[a.clone(), b.clone()], &[0, 1], &[]).into_tree(&sha).unwrap();
    assert_eq!(t.len(), 2);
    assert_eq!(t.read(1).unwrap().bytes(), vec![3, 4]);
    // a page not received is a page of its hash only
    let t = ti_with_pages(&[a.clone(), b.clone()], &[0], &[]).into_tree(&sha).unwrap();
    assert_eq!(t.read(1).unwrap().get_hash(), b.get_hash());
    assert!(t.read(1).unwrap().is_empty());
    // missing parts of page hashes: the root hash alone
    let t = ti_with_pages(&[a.clone()], &[0], &[1]).into_tree(&sha).unwrap();
    assert_eq!(t.hash(), 77);
    // a page with bytes after one without does not fit
    assert!(ti_with_pages(&[a.clone(), b.clone()], &[1], &[]).into_tree(&sha).is_none());
}
