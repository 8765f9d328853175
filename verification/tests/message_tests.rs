use dapp_lib::app_type::AppType;
use dapp_lib::application::ApplicationData;
use dapp_lib::content::DataType;
use dapp_lib::data::Data;
use dapp_lib::message::{ChangeContentOperation, SyncMessage, SyncMessageType, SyncRequirements};
use dapp_lib::sync_message::{deserialize_requests, serialize_requests, SyncRequest, SyncResponse};

fn sha(bytes: &[u8]) -> u64 {
    let mut h: u64 = 1469598103934665603;
    for b in bytes {
        h ^= *b as u64;
        h = h.wrapping_mul(1099511628211);
    }
    h
}

#[test]
fn change_content_operation_bytes() {
    assert_eq!(ChangeContentOperation::DirectCTreeRebuild.bytes(), vec![1]);
    assert_eq!(ChangeContentOperation::DropAndAppend(258).bytes(), vec![2, 1, 2]);
    assert_eq!(ChangeContentOperation::PopAndAppendConverted(3).bytes(), vec![4, 0, 3]);
    assert_eq!(ChangeContentOperation::PopAndCTreeRebuild(4).bytes(), vec![8, 0, 4]);
}

#[test]
fn change_content_operation_reads_back() {
    let mut v = ChangeContentOperation::DropAndAppend(300).bytes();
    v.push(42);
    let op = ChangeContentOperation::from(&mut v).unwrap();
    assert_eq!(op, ChangeContentOperation::DropAndAppend(300));
    assert_eq!(v, vec![42]);
    let mut bad = vec![3, 1];
    assert!(ChangeContentOperation::from(&mut bad).is_err());
    assert_eq!(bad, vec![3, 1]);
    let mut empty: Vec<u8> = vec![];
    assert!(ChangeContentOperation::from(&mut empty).is_err());
}

#[test]
fn message_types_read_back() {
    let types = vec![
        SyncMessageType::AppendContent(DataType::Data(3)),
        SyncMessageType::ChangeContent(7, DataType::Link, ChangeContentOperation::PopAndCTreeRebuild(2)),
        SyncMessageType::AppendData(9),
        SyncMessageType::AppendShelledDatas(10),
        SyncMessageType::RemoveData(1, 2),
        SyncMessageType::UpdateData(3, 4),
        SyncMessageType::InsertData(5, 6),
        SyncMessageType::ExtendData(7, 8),
        SyncMessageType::UserDefined(12, 300, 400),
    ];
    for t in types {
        let mut b = t.as_bytes();
        b.push(99);
        let back = SyncMessageType::new(&mut b);
        assert_eq!(back, t);
        assert_eq!(b, vec![99]);
    }
}

#[test]
fn requirements_bytes() {
    let r = SyncRequirements { pre: vec![(1, 2)], post: vec![] };
    assert_eq!(r.bytes(), vec![1, 0, 1, 0, 0, 0, 0, 0, 0, 0, 2, 0]);
}

#[test]
fn small_message_is_one_part() {
    let m = SyncMessage::new(
        SyncMessageType::AppendData(1),
        SyncRequirements { pre: vec![], post: vec![] },
        Data::new(vec![5; 10], &sha).unwrap(),
    );
    let parts = m.into_parts(&sha);
    assert_eq!(parts.len(), 1);
    assert_eq!(&parts[0][0..5], &[252, 0, 1, 0, 0]);
    assert_eq!(parts[0].len(), 3 + 2 + 2 + 10);
}

#[test]
fn large_message_is_split_with_hashes() {
    let m = SyncMessage::new(
        SyncMessageType::AppendData(1),
        SyncRequirements { pre: vec![], post: vec![] },
        Data::new(vec![5; 1000], &sha).unwrap(),
    );
    let parts = m.into_parts(&sha);
    assert_eq!(parts.len(), 2);
    assert_eq!(&parts[0][3..5], &[0, 1]);
    assert_eq!(&parts[1][3..5], &[1, 1]);
    let h = u64::from_be_bytes(parts[0][5..13].try_into().unwrap());
    assert_eq!(h, sha(&parts[1]));
    assert_eq!(parts[0].len(), 5 + 8 + 885);
    assert_eq!(parts[1].len(), 5 + 1002 - 885);
}

#[test]
fn requests_read_back() {
    let reqs = vec![
        SyncRequest::Datastore,
        SyncRequest::AllFirstPages,
        SyncRequest::Hashes(3, DataType::Data(2), vec![1, 2]),
        SyncRequest::Pages(4, DataType::Link, vec![]),
        SyncRequest::AllPages(vec![5, 6, 7]),
    ];
    let bytes = serialize_requests(reqs);
    let back = deserialize_requests(bytes);
    assert_eq!(back.len(), 5);
    match &back[2] {
        SyncRequest::Hashes(c, d, ids) => {
            assert_eq!(*c, 3);
            assert_eq!(*d, DataType::Data(2));
            assert_eq!(ids, &vec![1, 2]);
        }
        _ => panic!("wrong request"),
    }
    match &back[4] {
        SyncRequest::AllPages(ids) => assert_eq!(ids, &vec![5, 6, 7]),
        _ => panic!("wrong request"),
    }
}

#[test]
fn page_response_reads_back() {
    let r = SyncResponse::Page(3, DataType::Data(1), 4, 5, Data::new(vec![9, 9], &sha).unwrap());
    let bytes = r.serialize();
    match SyncResponse::deserialize(bytes, &sha).unwrap() {
        SyncResponse::Page(c, d, p, t, data) => {
            assert_eq!((c, d, p, t), (3, DataType::Data(1), 4, 5));
            assert_eq!(data.bytes(), vec![9, 9]);
        }
        _ => panic!("wrong response"),
    }
}

fn sample_message(pairs: u16, page_len: usize) -> SyncMessage {
    let pre: Vec<(u16, u64)> = (0..pairs).map(|i| (i, i as u64 * 7)).collect();
    let post = vec![(1u16, 99u64)];
    let data = Data::new((0..page_len).map(|i| (i % 251) as u8).collect(), &sha).unwrap();
    SyncMessage::new(SyncMessageType::UpdateData(3, 4), SyncRequirements { pre, post }, data)
}

#[test]
fn single_part_message_reads_back() {
    let parts = sample_message(2, 100).into_parts(&sha);
    assert_eq!(parts.len(), 1);
    let m = SyncMessage::from_data(&parts, &sha).unwrap();
    assert_eq!(m.m_type, SyncMessageType::UpdateData(3, 4));
    assert_eq!(m.requirements.pre, vec![(0, 0), (1, 7)]);
    assert_eq!(m.requirements.post, vec![(1, 99)]);
    assert_eq!(m.data.clone().bytes(), sample_message(2, 100).data.bytes());
    assert_eq!(m.data.get_hash(), sha(&m.data.clone().bytes()));
}

#[test]
fn many_part_message_reads_back() {
    let parts = sample_message(60, 1000).into_parts(&sha);
    assert!(parts.len() > 1);
    let m = SyncMessage::from_data(&parts, &sha).unwrap();
    assert_eq!(m.requirements.pre.len(), 60);
    assert_eq!(m.requirements.pre[59], (59, 59 * 7));
    assert_eq!(m.data.bytes(), sample_message(60, 1000).data.bytes());
}

#[test]
fn cut_parts_are_refused() {
    assert!(SyncMessage::from_data(&vec![], &sha).is_err());
    assert!(SyncMessage::from_data(&vec![vec![250, 0]], &sha).is_err());
}

#[test]
fn last_bytes_beyond_the_part_chunks_are_dropped() {
    // 88 requirement pairs and a full page: the one later part would need
    // 1021 bytes of body but carries 1017
    let m = sample_message(87, 1024);
    let parts = m.into_parts(&sha);
    assert_eq!(parts.len(), 2);
    let back = SyncMessage::from_data(&parts, &sha).unwrap();
    assert_eq!(back.data.len(), 1020);
}

#[test]
fn parts_processed_in_any_order_give_the_message() {
    let pre: Vec<(u16, u64)> = (0..200u16).map(|i| (i, i as u64)).collect();
    let post: Vec<(u16, u64)> = (0..50u16).map(|i| (i, 1000 + i as u64)).collect();
    let data = Data::new(vec![7; 1000], &sha).unwrap();
    let m = SyncMessage::new(SyncMessageType::AppendData(9), SyncRequirements { pre, post }, data);
    let parts = m.into_parts(&sha);
    assert_eq!(parts.len(), 4);
    let mut app = ApplicationData::new(AppType::Catalog, &sha);
    assert!(app.process(parts[0].clone(), &sha).is_none());
    assert!(app.process(parts[3].clone(), &sha).is_none());
    assert_eq!(app.get_partial_hashes(), vec![parts[0].clone()]);
    assert_eq!(app.get_partial_data(), vec![parts[3].clone()]);
    assert!(app.process(parts[1].clone(), &sha).is_none());
    let back = app.process(parts[2].clone(), &sha).unwrap();
    assert_eq!(back.m_type, SyncMessageType::AppendData(9));
    assert_eq!(back.requirements.pre.len(), 200);
    assert_eq!(back.requirements.post[49], (49, 1049));
    assert_eq!(back.data.bytes(), vec![7; 1000]);
    assert!(app.partial.pending.is_empty());
    // a part nobody waits for is dropped
    assert!(app.process(parts[2].clone(), &sha).is_none());
    // a single-part message is read at once
    let small = SyncMessage::new(
        SyncMessageType::RemoveData(1, 2),
        SyncRequirements { pre: vec![(1, 5)], post: vec![] },
        Data::empty(0),
    );
    let p = small.into_parts(&sha);
    let got = app.process(p[0].clone(), &sha).unwrap();
    assert_eq!(got.m_type, SyncMessageType::RemoveData(1, 2));
    assert_eq!(got.requirements.pre, vec![(1, 5)]);
}
