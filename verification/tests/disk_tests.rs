use dapp_lib::app_type::AppType;
use dapp_lib::application::ApplicationData;
use dapp_lib::content::{Content, DataType};
use dapp_lib::data::Data;
use dapp_lib::disk::{
    content_from_header, datastore_changes, datastore_entries, first_pages_write, load_content,
    load_datastore, load_first_pages, page_record, parse_datastore_records, parse_page_records,
    plan_content_write, read_page, tree_of_pages, DatastoreRecord, PageRecord,
};
use dapp_lib::storage::{contents_to_store, should_store_content_on_disk, StoragePolicy};

fn sha(bytes: &[u8]) -> u64 {
    let mut h: u64 = 1469598103934665603;
    for b in bytes {
        h ^= *b as u64;
        h = h.wrapping_mul(1099511628211);
    }
    h
}

fn pair(a: u64, b: u64) -> u64 {
    let mut v = a.to_be_bytes().to_vec();
    v.extend_from_slice(&b.to_be_bytes());
    sha(&v)
}

fn page(b: u8, n: usize) -> Data {
    Data::new(vec![b; n], &sha).unwrap()
}

#[test]
fn storage_policy_decisions() {
    let sel = vec![3u16, 5];
    assert_eq!(should_store_content_on_disk(&(StoragePolicy::Forget, sel.clone()), 0), (false, 0));
    assert_eq!(should_store_content_on_disk(&(StoragePolicy::Datastore, sel.clone()), 0), (true, 64));
    assert_eq!(should_store_content_on_disk(&(StoragePolicy::Datastore, sel.clone()), 2), (false, 0));
    assert_eq!(should_store_content_on_disk(&(StoragePolicy::Manifest, sel.clone()), 0), (true, u16::MAX));
    assert_eq!(should_store_content_on_disk(&(StoragePolicy::Manifest, sel.clone()), 1), (false, 0));
    assert_eq!(should_store_content_on_disk(&(StoragePolicy::FirstPages, sel.clone()), 0), (true, 64));
    assert_eq!(should_store_content_on_disk(&(StoragePolicy::FirstPages, sel.clone()), 9), (true, 0));
    assert_eq!(should_store_content_on_disk(&(StoragePolicy::MatchOrFirstPages, sel.clone()), 3), (true, u16::MAX));
    assert_eq!(should_store_content_on_disk(&(StoragePolicy::MatchOrFirstPages, sel.clone()), 4), (true, 0));
    assert_eq!(should_store_content_on_disk(&(StoragePolicy::MatchOrForget, sel.clone()), 5), (true, u16::MAX));
    assert_eq!(should_store_content_on_disk(&(StoragePolicy::MatchOrForget, sel.clone()), 0), (false, 0));
    assert_eq!(
        should_store_content_on_disk(&(StoragePolicy::MatchAndManifestOrFirstPages, sel.clone()), 0),
        (true, u16::MAX)
    );
    assert_eq!(should_store_content_on_disk(&(StoragePolicy::MatchAndManifestOrForget, sel.clone()), 4), (false, 0));
    assert_eq!(should_store_content_on_disk(&(StoragePolicy::All, vec![]), 7), (true, u16::MAX));
}

#[test]
fn page_record_bytes_read_back() {
    let r = PageRecord { page_id: 0x0102, hash: 0x1122334455667788, offset: 0xa0b0c0d0, size: 0x0304 };
    let b = r.to_bytes();
    assert_eq!(
        b,
        vec![1, 2, 0x11, 0x22, 0x33, 0x44, 0x55, 0x66, 0x77, 0x88, 0xa0, 0xb0, 0xc0, 0xd0, 3, 4]
    );
    let mut two = b.clone();
    two.extend(PageRecord { page_id: 7, hash: 9, offset: 1, size: 2 }.to_bytes());
    two.extend(vec![5, 5, 5]);
    let (rs, end) = parse_page_records(&two);
    assert_eq!(rs, vec![r, PageRecord { page_id: 7, hash: 9, offset: 1, size: 2 }]);
    assert_eq!(end, 0xa0b0c0d0u64 + 0x0304);
}

#[test]
fn page_record_of_a_page() {
    let d = page(1, 10);
    let (rec, ptr) = page_record(4, &d, 100).unwrap();
    assert_eq!(rec, PageRecord { page_id: 4, hash: d.get_hash(), offset: 100, size: 10 });
    assert_eq!(ptr, 110);
    let (rec, ptr) = page_record(5, &Data::empty(77), 100).unwrap();
    assert_eq!(rec, PageRecord { page_id: 5, hash: 77, offset: 0, size: 0 });
    assert_eq!(ptr, 100);
    assert!(page_record(6, &d, u32::MAX - 3).is_none());
}

#[test]
fn datastore_records_listing_and_changes() {
    let r0 = DatastoreRecord { c_id: 0, d_type: 0, hash: 10, root: 1 };
    let r1 = DatastoreRecord { c_id: 1, d_type: 255, hash: 11, root: 2 };
    let r3 = DatastoreRecord { c_id: 3, d_type: 2, hash: 13, root: 3 };
    let r0b = DatastoreRecord { c_id: 0, d_type: 1, hash: 20, root: 4 };
    let mut bytes = vec![];
    for r in [r0, r1, r3, r0b] {
        bytes.extend(r.to_bytes());
    }
    assert_eq!(r0.to_bytes(), vec![0, 0, 0, 0, 0, 0, 0, 0, 0, 0, 10, 0, 0, 0, 0, 0, 0, 0, 1]);
    let rs = parse_datastore_records(&bytes);
    assert_eq!(rs, vec![r0, r1, r3, r0b]);
    // the last record of an id counts; the listing stops at the gap before 3
    assert_eq!(datastore_entries(&rs), vec![(DataType::Data(1), 20), (DataType::Link, 11)]);
    // unchanged root: nothing to write
    assert!(datastore_changes(&rs, &vec![], 4).is_none());
    let mem = vec![(DataType::Data(1), 20), (DataType::Link, 12), (DataType::Data(5), 14)];
    let out = datastore_changes(&rs, &mem, 99).unwrap();
    let mut expected = DatastoreRecord { c_id: 1, d_type: 255, hash: 12, root: 99 }.to_bytes();
    expected.extend(DatastoreRecord { c_id: 2, d_type: 5, hash: 14, root: 99 }.to_bytes());
    assert_eq!(out, expected);
}

#[test]
fn datastore_written_fresh_reads_back() {
    let mem = vec![(DataType::Data(0), 5), (DataType::Link, 6), (DataType::Data(3), 7)];
    let bytes = datastore_changes(&vec![], &mem, 42).unwrap();
    let rs = parse_datastore_records(&bytes);
    assert_eq!(datastore_entries(&rs), mem);
}

#[test]
fn load_datastore_replaces_and_appends() {
    let mut app = ApplicationData::new(AppType::Catalog, &sha);
    let entries = vec![(DataType::Data(0), 5), (DataType::Data(2), 6)];
    load_datastore(&mut app, &entries, &sha);
    assert_eq!(app.contents.len(), 2);
    assert_eq!(app.contents.type_and_len(0).unwrap(), (DataType::Data(0), 1));
    assert_eq!(app.content_root_hash(0, &sha).unwrap(), (DataType::Data(0), 5));
    assert_eq!(app.content_root_hash(1, &sha).unwrap(), (DataType::Data(2), 6));
}

#[test]
fn fresh_content_write_records_every_page() {
    let p0 = page(1, 3);
    let p1 = page(2, 4);
    let p2 = page(3, 5);
    let hashes = vec![p0.get_hash(), p1.get_hash(), p2.get_hash()];
    let pages = vec![p0.clone(), p1.clone(), p2.clone()];
    let w = plan_content_write(&hashes, &pages, &None, u16::MAX).unwrap();
    assert!(w.fresh);
    let (rs, end) = parse_page_records(&w.header);
    assert_eq!(
        rs,
        vec![
            PageRecord { page_id: 0, hash: p0.get_hash(), offset: 0, size: 0 },
            PageRecord { page_id: 1, hash: p1.get_hash(), offset: 0, size: 4 },
            PageRecord { page_id: 2, hash: p2.get_hash(), offset: 4, size: 5 },
        ]
    );
    assert_eq!(end, 9);
    assert_eq!(w.body, vec![2, 2, 2, 2, 3, 3, 3, 3, 3]);
    assert_eq!(w.first_page.unwrap().bytes(), vec![1, 1, 1]);
    // writing stops after page `brk`
    let w = plan_content_write(&hashes, &pages, &None, 1).unwrap();
    assert_eq!(w.body, vec![2, 2, 2, 2]);
}

#[test]
fn content_write_appends_changed_pages() {
    let p0 = page(1, 3);
    let p1 = page(2, 4);
    let p2 = page(3, 5);
    let disk = vec![
        PageRecord { page_id: 0, hash: p0.get_hash(), offset: 0, size: 0 },
        PageRecord { page_id: 1, hash: p1.get_hash(), offset: 0, size: 4 },
        PageRecord { page_id: 2, hash: 12345, offset: 4, size: 5 },
    ];
    let hashes = vec![p0.get_hash(), p1.get_hash(), p2.get_hash()];
    let pages = vec![p0.clone(), p1.clone(), p2.clone()];
    let w = plan_content_write(&hashes, &pages, &Some(disk), u16::MAX).unwrap();
    assert!(!w.fresh);
    let (rs, _) = parse_page_records(&w.header);
    // page 0 is recorded without bytes each time, page 1 is kept, page 2 changed
    assert_eq!(
        rs,
        vec![
            PageRecord { page_id: 0, hash: p0.get_hash(), offset: 0, size: 0 },
            PageRecord { page_id: 2, hash: p2.get_hash(), offset: 9, size: 5 },
        ]
    );
    assert_eq!(w.body, vec![3, 3, 3, 3, 3]);
    assert_eq!(w.first_page.unwrap().get_hash(), p0.get_hash());
}

#[test]
fn header_describes_a_shell() {
    let rs = vec![
        PageRecord { page_id: 1, hash: 22, offset: 0, size: 4 },
        PageRecord { page_id: 0, hash: 11, offset: 0, size: 0 },
        PageRecord { page_id: 3, hash: 44, offset: 4, size: 4 },
    ];
    let c = content_from_header(&rs, DataType::Data(4), &sha).unwrap();
    // pages 0 and 1 are listed: 3 is past the gap
    assert_eq!(c.len(), 2);
    assert_eq!(c.data_type(), DataType::Data(4));
    assert_eq!(c.data_hashes(&sha), vec![11, 22]);
    assert_eq!(c.hash(&sha), pair(11, 22));
    assert!(content_from_header(&rs[..1].to_vec(), DataType::Data(4), &sha).is_none());
}

#[test]
fn pages_build_a_tree() {
    let t = tree_of_pages(&vec![page(1, 2), page(2, 2), Data::empty(9)], &sha).unwrap();
    assert_eq!(t.len(), 3);
    // a page with bytes after one without does not fit
    assert!(tree_of_pages(&vec![Data::empty(9), page(1, 2)], &sha).is_none());
    assert!(tree_of_pages(&vec![page(1, 2), Data::empty(0)], &sha).is_none());
}

#[test]
fn pages_read_from_files() {
    let file = vec![9, 9, 1, 2, 3, 4];
    let d = read_page(PageRecord { page_id: 0, hash: sha(&[1, 2, 3]), offset: 2, size: 3 }, &file, &sha).unwrap();
    assert_eq!(d.bytes(), vec![1, 2, 3]);
    assert!(read_page(PageRecord { page_id: 0, hash: 1, offset: 2, size: 3 }, &file, &sha).is_none());
    assert!(read_page(PageRecord { page_id: 0, hash: sha(&[1, 2, 3]), offset: 4, size: 3 }, &file, &sha).is_none());
}

#[test]
fn first_pages_written_and_loaded() {
    let a = page(1, 2);
    let b = page(2, 3);
    let (header, body) = first_pages_write(&vec![], &vec![(0, a.clone()), (1, b.clone()), (2, Data::empty(5))]).unwrap();
    let (rs, _) = parse_page_records(&header);
    let loaded = load_first_pages(&rs, &body, &sha);
    assert_eq!(loaded.len(), 3);
    assert_eq!(loaded[0].0, 0);
    assert_eq!(loaded[1].1.clone().bytes(), vec![2, 2, 2]);
    assert_eq!(loaded[2].1.get_hash(), 5);
    // an unchanged page is not written again
    let (header2, body2) = first_pages_write(&rs, &vec![(1, b.clone())]).unwrap();
    assert!(header2.is_empty() && body2.is_empty());
}

#[test]
fn content_loaded_from_files() {
    let p0 = page(1, 3);
    let p1 = page(2, 4);
    let p2 = page(3, 5);
    let hashes = vec![p0.get_hash(), p1.get_hash(), p2.get_hash()];
    let pages = vec![p0.clone(), p1.clone(), p2.clone()];
    let w = plan_content_write(&hashes, &pages, &None, u16::MAX).unwrap();
    let (rs, _) = parse_page_records(&w.header);
    let root = pair(pair(p0.get_hash(), p1.get_hash()), p2.get_hash());
    let c = load_content(&rs, &w.body, DataType::Data(1), root, &Some(p0.clone()), &sha).unwrap();
    assert_eq!(c.hash(&sha), root);
    assert_eq!(c.read_data(2, &sha).unwrap().bytes(), vec![3, 3, 3, 3, 3]);
    match c {
        Content::Data(_, mem, _) => assert_eq!(mem, 2),
        _ => panic!("data expected"),
    }
    // another expected hash is refused
    assert!(load_content(&rs, &w.body, DataType::Data(1), root ^ 1, &Some(p0), &sha).is_none());
}

#[test]
fn contents_to_store_follow_the_policy() {
    assert_eq!(contents_to_store(&(StoragePolicy::Forget, vec![]), 5), vec![]);
    assert_eq!(contents_to_store(&(StoragePolicy::Datastore, vec![]), 5), vec![(0, 64)]);
    assert_eq!(contents_to_store(&(StoragePolicy::FirstPages, vec![]), 3), vec![(0, 64), (1, 0), (2, 0)]);
    assert_eq!(
        contents_to_store(&(StoragePolicy::MatchOrForget, vec![2]), 4),
        vec![(2, u16::MAX)]
    );
}
