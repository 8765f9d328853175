use dapp_lib::app_type::AppType;
use dapp_lib::application::ApplicationData;
use dapp_lib::content::{Content, DataType};
use dapp_lib::data::Data;
use dapp_lib::sync_message::{SyncRequest, SyncResponse};

fn sha(bytes: &[u8]) -> u64 {
    let mut h: u64 = 1469598103934665603;
    for b in bytes {
        h ^= *b as u64;
        h = h.wrapping_mul(1099511628211);
    }
    h
}

fn page(bytes: Vec<u8>) -> Data {
    Data::new(bytes, &sha).unwrap()
}

fn app_with_content() -> ApplicationData {
    let mut app = ApplicationData::new(AppType::Catalog, &sha);
    let mut c = Content::from(DataType::Data(1), page(vec![1, 2, 3]), &sha).unwrap();
    c.push_data(page(vec![4, 5]), &sha).unwrap();
    app.append(c, &sha).unwrap();
    app
}

fn page_of(r: &SyncResponse) -> (u16, DataType, u16, u16, Vec<u8>) {
    match r {
        SyncResponse::Page(c, t, p, total, d) => (*c, *t, *p, *total, d.clone().bytes()),
        other => panic!("not a page: {:?}", other),
    }
}

#[test]
fn datastore_request_lists_typed_root_hashes() {
    let app = app_with_content();
    let r = app.answer_datastore(&sha);
    assert_eq!(r.len(), 1);
    match &r[0] {
        SyncResponse::Datastore(part, last, group) => {
            assert_eq!((*part, *last), (0, 0));
            assert_eq!(group.len(), 2);
            assert_eq!(group[1], (DataType::Data(1), app.content_root_hash(1, &sha).unwrap().1));
        },
        other => panic!("unexpected {:?}", other),
    }
}

#[test]
fn first_pages_skip_the_first_content() {
    let app = app_with_content();
    let r = app.answer_first_pages(&sha);
    assert_eq!(r.len(), 1);
    assert_eq!(page_of(&r[0]), (1, DataType::Data(1), 0, 2, vec![1, 2, 3]));
}

#[test]
fn pages_request_reads_chosen_pages() {
    let app = app_with_content();
    let r = app.answer_pages(1, DataType::Data(1), &vec![1, 7, 0], &sha);
    assert_eq!(r.len(), 2);
    assert_eq!(page_of(&r[0]), (1, DataType::Data(1), 1, 1, vec![4, 5]));
    assert_eq!(page_of(&r[1]), (1, DataType::Data(1), 0, 1, vec![1, 2, 3]));
    // another type is not answered for a data content
    assert!(app.answer_pages(1, DataType::Data(2), &vec![0], &sha).is_empty());
    assert!(app.answer_pages(9, DataType::Data(1), &vec![0], &sha).is_empty());
}

#[test]
fn all_pages_request_sends_every_page() {
    let app = app_with_content();
    let r = app.answer_all_pages(&vec![1, 4, 1], &sha);
    assert_eq!(r.len(), 4);
    assert_eq!(page_of(&r[0]), (1, DataType::Data(1), 0, 1, vec![1, 2, 3]));
    assert_eq!(page_of(&r[1]), (1, DataType::Data(1), 1, 1, vec![4, 5]));
    assert_eq!(page_of(&r[3]), (1, DataType::Data(1), 1, 1, vec![4, 5]));
}

#[test]
fn hashes_request_sends_a_part_once() {
    let app = app_with_content();
    let all = app.answer_hashes(1, &vec![], &sha);
    assert_eq!(all.len(), 1);
    let expected = {
        let mut b = page(vec![1, 2, 3]).get_hash().to_be_bytes().to_vec();
        b.extend_from_slice(&page(vec![4, 5]).get_hash().to_be_bytes());
        b
    };
    match &all[0] {
        SyncResponse::Hashes(c, p, last, d) => {
            assert_eq!((*c, *p, *last), (1, 0, 0));
            assert_eq!(d.clone().bytes(), expected);
        },
        other => panic!("unexpected {:?}", other),
    }
    let picked = app.answer_hashes(1, &vec![0, 3, 0], &sha);
    assert_eq!(picked.len(), 2);
    match &picked[1] {
        SyncResponse::Hashes(_, p, _, d) => {
            assert_eq!(*p, 0);
            assert_eq!(d.len(), 0);
        },
        other => panic!("unexpected {:?}", other),
    }
    assert!(app.answer_hashes(5, &vec![], &sha).is_empty());
}

#[test]
fn requests_are_answered_in_order() {
    let app = app_with_content();
    let reqs = vec![SyncRequest::AllFirstPages, SyncRequest::Datastore, SyncRequest::AllPages(vec![1])];
    let r = app.answer_requests(&reqs, &sha);
    assert_eq!(r.len(), 3);
    assert_eq!(r[0].len(), 1);
    assert!(matches!(r[1][0], SyncResponse::Datastore(0, 0, _)));
    assert_eq!(r[2].len(), 2);
}
