use dapp_lib::app_type::AppType;
use dapp_lib::data::Data;
use dapp_lib::error::AppError;

fn sha(bytes: &[u8]) -> u64 {
    let mut h: u64 = 1469598103934665603;
    for b in bytes {
        h ^= *b as u64;
        h = h.wrapping_mul(1099511628211);
    }
    h
}

#[test]
fn data_bytes_and_accessors() {
    let d = Data::new(vec![10, 20, 30, 40], &sha).unwrap();
    assert_eq!(d.first_byte(), 10);
    assert_eq!(d.second_byte(), 20);
    assert_eq!(d.third_byte(), 30);
    assert_eq!(d.len(), 4);
    assert_eq!(d.ref_bytes(), &vec![10, 20, 30, 40]);
    assert_eq!(d.get_hash(), sha(&[10, 20, 30, 40]));
    assert_eq!(d.bytes(), vec![10, 20, 30, 40]);
}

#[test]
fn data_of_1024_bytes_fits_and_1025_does_not() {
    assert!(Data::new(vec![1; 1024], &sha).is_ok());
    let back = Data::new(vec![1; 1025], &sha).unwrap_err();
    assert_eq!(back.len(), 1025);
}

#[test]
fn empty_data_keeps_only_hash() {
    let d = Data::empty(77);
    assert!(d.is_empty());
    assert_eq!(d.get_hash(), 77);
    assert_eq!(d.len(), 0);
}

#[test]
fn rehash_recomputes_hash() {
    let mut d = Data::empty(5);
    let h = d.hash(&sha);
    assert_eq!(h, sha(&[]));
    assert_eq!(d.get_hash(), h);
}

#[test]
fn cast_payload_prefixes_bytes() {
    let d = Data::new(vec![3, 4], &sha).unwrap();
    assert_eq!(d.to_cast(vec![1, 2]), vec![1, 2, 3, 4]);
}

#[test]
fn app_type_roundtrip_and_names() {
    for b in 0..=255u8 {
        assert_eq!(AppType::from(b).byte(), b);
    }
    assert!(AppType::Catalog.is_catalog());
    assert!(AppType::Forum.is_forum());
    assert_eq!(AppType::list_of_types(), vec!["Link=>Catalog".to_string(), "Link=>Forum".to_string()]);
    assert_eq!(AppType::type_byte_from_string("Link=>Catalog"), Some(255));
    assert_eq!(AppType::type_byte_from_string("Link=>Forum"), Some(254));
    assert_eq!(AppType::type_byte_from_string("Other"), None);
}

#[test]
fn app_error_names() {
    assert_eq!(AppError::IndexingError.name(), "IndexingError");
    assert_eq!(AppError::DatastoreFull.name(), "DatastoreFull");
}
