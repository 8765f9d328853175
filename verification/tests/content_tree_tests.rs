use dapp_lib::content_tree::ContentTree;
use dapp_lib::data::Data;
use dapp_lib::error::AppError;
use dapp_lib::hashing::double_hash;

fn sha(bytes: &[u8]) -> u64 {
    let mut h: u64 = 1469598103934665603;
    for b in bytes {
        h ^= *b as u64;
        h = h.wrapping_mul(1099511628211);
    }
    h
}

fn page(b: u8) -> Data {
    Data::new(vec![b, b, b], &sha).unwrap()
}

fn pair(a: u64, b: u64) -> u64 {
    let mut v = a.to_be_bytes().to_vec();
    v.extend_from_slice(&b.to_be_bytes());
    sha(&v)
}

#[test]
fn appended_pages_read_back_in_order() {
    let mut t = ContentTree::empty(0);
    for i in 1..=5u8 {
        assert!(t.append(page(i), &sha).is_ok());
    }
    assert_eq!(t.len(), 5);
    for i in 0..5u16 {
        let d = t.read(i).unwrap();
        assert_eq!(d.bytes(), vec![(i + 1) as u8; 3]);
    }
    assert!(matches!(t.read(5), Err(AppError::IndexingError)));
}

#[test]
fn root_hash_of_two_pages_is_their_pair_hash() {
    let mut t = ContentTree::new(page(1));
    let h = t.append(page(2), &sha).unwrap();
    let expected = pair(sha(&[1, 1, 1]), sha(&[2, 2, 2]));
    assert_eq!(h, expected);
    assert_eq!(t.hash(), expected);
    assert_eq!(double_hash(sha(&[1, 1, 1]), sha(&[2, 2, 2]), &sha), expected);
}

#[test]
fn get_data_hash_gives_each_page_hash() {
    let mut t = ContentTree::empty(0);
    for i in 1..=3u8 {
        t.append(page(i), &sha).unwrap();
    }
    assert_eq!(t.get_data_hash(2).unwrap(), sha(&[3, 3, 3]));
    assert!(t.get_data_hash(3).is_err());
}

#[test]
fn replace_returns_old_page() {
    let mut t = ContentTree::empty(0);
    for i in 1..=3u8 {
        t.append(page(i), &sha).unwrap();
    }
    let old = t.replace(1, page(9), &sha).unwrap();
    assert_eq!(old.bytes(), vec![2, 2, 2]);
    assert_eq!(t.read(1).unwrap().bytes(), vec![9, 9, 9]);
    assert!(matches!(t.replace(7, page(1), &sha), Err(AppError::IndexingError)));
}

#[test]
fn replace_fills_a_placeholder_only_with_matching_page() {
    let mut t = ContentTree::empty(sha(&[4, 4, 4]));
    assert!(matches!(t.replace(0, page(5), &sha), Err(AppError::HashMismatch)));
    let r = t.replace(0, page(4), &sha).unwrap();
    assert!(r.is_empty());
    assert_eq!(t.read(0).unwrap().bytes(), vec![4, 4, 4]);
}

#[test]
fn remove_data_shifts_later_pages() {
    let mut t = ContentTree::empty(0);
    for i in 1..=4u8 {
        t.append(page(i), &sha).unwrap();
    }
    let removed = t.remove_data(1, &sha).unwrap();
    assert_eq!(removed.bytes(), vec![2, 2, 2]);
    assert_eq!(t.len(), 3);
    assert_eq!(t.read(1).unwrap().bytes(), vec![3, 3, 3]);
    assert_eq!(t.read(2).unwrap().bytes(), vec![4, 4, 4]);
}

#[test]
fn remove_from_empty_tree_is_content_empty() {
    let mut t = ContentTree::empty(0);
    assert!(matches!(t.remove_data(0, &sha), Err(AppError::ContentEmpty)));
}

#[test]
fn insert_rotates_left_side() {
    let mut t = ContentTree::empty(0);
    for i in 1..=3u8 {
        t.append(page(i), &sha).unwrap();
    }
    assert!(t.insert(0, page(7), &sha).is_ok());
    assert_eq!(t.len(), 4);
    let got: Vec<Vec<u8>> = (0..4).map(|i| t.read(i).unwrap().bytes()).collect();
    assert_eq!(got, vec![vec![2, 2, 2], vec![7, 7, 7], vec![3, 3, 3], vec![1, 1, 1]]);
}

#[test]
fn insert_before_single_page() {
    let mut t = ContentTree::new(page(1));
    assert!(t.insert(0, page(7), &sha).is_ok());
    assert_eq!(t.read(0).unwrap().bytes(), vec![7, 7, 7]);
    assert_eq!(t.read(1).unwrap().bytes(), vec![1, 1, 1]);
}

#[test]
fn insert_beyond_end_is_indexing_error() {
    let mut t = ContentTree::new(page(1));
    assert!(matches!(t.insert(3, page(2), &sha), Err(AppError::IndexingError)));
}

#[test]
fn shell_keeps_hashes_and_drops_bytes() {
    let mut t = ContentTree::empty(0);
    for i in 1..=3u8 {
        t.append(page(i), &sha).unwrap();
    }
    let s = t.shell();
    assert_eq!(s.hash(), t.hash());
    assert_eq!(s.len(), 3);
    assert!(s.read(2).unwrap().is_empty());
    assert_eq!(s.get_data_hash(2).unwrap(), sha(&[3, 3, 3]));
}

#[test]
fn from_builds_tree_of_pages() {
    let t = ContentTree::from(vec![page(1), page(2), page(3)], &sha);
    assert_eq!(t.len(), 3);
    assert_eq!(t.read(2).unwrap().bytes(), vec![3, 3, 3]);
}

#[test]
fn empty_tree_has_no_pages() {
    let t = ContentTree::empty(0);
    assert!(t.is_empty());
    assert_eq!(t.len(), 0);
    let one = ContentTree::empty(5);
    assert_eq!(one.len(), 1);
}
