//! Requests and responses exchanged with a neighbour while synchronising a
//! swarm's datastore, and their byte encodings.

use vstd::prelude::*;
use crate::content::{ContentID, DataType};
use crate::data::Data;
use crate::hashing::{
    be_u16, be_u64, hasher_total, hashes_to, push_u16_be, push_u64_be, read_u64_be, u16_from_be,
    u16_of, u64_of, lemma_u16_of_be, lemma_u64_of_be,
};

verus! {

/// A request sent to a neighbour.
pub enum SyncRequest {
    Datastore,
    AllFirstPages,
    Hashes(ContentID, DataType, Vec<u16>),
    Pages(ContentID, DataType, Vec<u16>),
    AllPages(Vec<ContentID>),
}

/// The value a request stands for.
pub enum ReqView {
    Datastore,
    AllFirstPages,
    Hashes(u16, DataType, Seq<u16>),
    Pages(u16, DataType, Seq<u16>),
    AllPages(Seq<u16>),
}

impl View for SyncRequest {
    type V = ReqView;

    open spec fn view(&self) -> ReqView {
        match self {
            SyncRequest::Datastore => ReqView::Datastore,
            SyncRequest::AllFirstPages => ReqView::AllFirstPages,
            SyncRequest::Hashes(c, d, ids) => ReqView::Hashes(*c, *d, ids@),
            SyncRequest::Pages(c, d, ids) => ReqView::Pages(*c, *d, ids@),
            SyncRequest::AllPages(cs) => ReqView::AllPages(cs@),
        }
    }
}

/// Big-endian bytes of each value, one after the other.
pub open spec fn enc_u16s(ids: Seq<u16>) -> Seq<u8> {
    Seq::new(2 * ids.len(), |j: int| be_u16(ids[j / 2])[j % 2])
}

/// The `n` values whose big-endian bytes start `s`.
pub open spec fn decode_u16s(s: Seq<u8>, n: nat) -> Seq<u16> {
    Seq::new(n, |i: int| u16_of(s[2 * i], s[2 * i + 1]))
}

/// Bytes of one request: a tag byte, then its fields, lists preceded by
/// their length as a `u16`.
pub open spec fn encode_request(r: ReqView) -> Seq<u8> {
    match r {
        ReqView::Datastore => seq![0u8],
        ReqView::AllFirstPages => seq![1u8],
        ReqView::Hashes(c, d, ids) => seq![2u8] + be_u16(c) + seq![d.spec_byte()] + be_u16(
            ids.len() as u16,
        ) + enc_u16s(ids),
        ReqView::Pages(c, d, ids) => seq![3u8] + be_u16(c) + seq![d.spec_byte()] + be_u16(
            ids.len() as u16,
        ) + enc_u16s(ids),
        ReqView::AllPages(cs) => seq![4u8] + be_u16(cs.len() as u16) + enc_u16s(cs),
    }
}

/// Bytes of a list of requests: their encodings one after the other.
pub open spec fn encode_requests(rs: Seq<ReqView>) -> Seq<u8>
    decreases rs.len(),
{
    if rs.len() == 0 {
        seq![]
    } else {
        encode_requests(rs.drop_last()) + encode_request(rs.last())
    }
}

/// The requests that a byte string encodes; bytes that start no known
/// request are skipped; `None` when a request is cut short.
pub open spec fn parse_requests(s: Seq<u8>) -> Option<Seq<ReqView>>
    decreases s.len(),
{
    if s.len() == 0 {
        Some(seq![])
    } else {
        let t = s[0];
        if t == 0 || t == 1 {
            match parse_requests(s.drop_first()) {
                Some(rest) => Some(
                    seq![if t == 0 { ReqView::Datastore } else { ReqView::AllFirstPages }] + rest,
                ),
                None => None,
            }
        } else if t == 2 || t == 3 {
            if s.len() < 6 {
                None
            } else {
                let n = u16_of(s[4], s[5]) as nat;
                if s.len() < 6 + 2 * n {
                    None
                } else {
                    let c = u16_of(s[1], s[2]);
                    let d = DataType::spec_from(s[3]);
                    let ids = decode_u16s(s.skip(6), n);
                    let r = if t == 2 {
                        ReqView::Hashes(c, d, ids)
                    } else {
                        ReqView::Pages(c, d, ids)
                    };
                    match parse_requests(s.skip(6 + 2 * n as int)) {
                        Some(rest) => Some(seq![r] + rest),
                        None => None,
                    }
                }
            }
        } else if t == 4 {
            if s.len() < 3 {
                None
            } else {
                let n = u16_of(s[1], s[2]) as nat;
                if s.len() < 3 + 2 * n {
                    None
                } else {
                    let r = ReqView::AllPages(decode_u16s(s.skip(3), n));
                    match parse_requests(s.skip(3 + 2 * n as int)) {
                        Some(rest) => Some(seq![r] + rest),
                        None => None,
                    }
                }
            }
        } else {
            parse_requests(s.drop_first())
        }
    }
}

/// A request can be encoded without loss: its lists hold at most
/// `u16::MAX` values and its data type is one that its byte names back.
pub open spec fn request_encodable(r: ReqView) -> bool {
    match r {
        ReqView::Hashes(_, d, ids) => ids.len() <= u16::MAX && d.canonical(),
        ReqView::Pages(_, d, ids) => ids.len() <= u16::MAX && d.canonical(),
        ReqView::AllPages(cs) => cs.len() <= u16::MAX,
        _ => true,
    }
}

pub(crate) proof fn lemma_decode_enc_u16s(ids: Seq<u16>, rest: Seq<u8>)
    ensures
        decode_u16s(enc_u16s(ids) + rest, ids.len()) == ids,
        (enc_u16s(ids) + rest).skip(2 * ids.len() as int) == rest,
        enc_u16s(ids).len() == 2 * ids.len(),
{
    let s = enc_u16s(ids) + rest;
    assert forall|i: int| 0 <= i < ids.len() implies #[trigger] decode_u16s(s, ids.len())[i]
        == ids[i] by {
        assert((2 * i) / 2 == i);
        assert((2 * i + 1) / 2 == i);
        assert((2 * i) % 2 == 0);
        assert((2 * i + 1) % 2 == 1);
        lemma_u16_of_be(ids[i]);
    }
    assert(decode_u16s(s, ids.len()) =~= ids);
    assert(s.skip(2 * ids.len() as int) =~= rest);
}

proof fn lemma_parse_one(r: ReqView, rest: Seq<u8>)
    requires
        request_encodable(r),
    ensures
        parse_requests(encode_request(r) + rest) == match parse_requests(rest) {
            Some(p) => Some(seq![r] + p),
            None => None,
        },
{
    let s = encode_request(r) + rest;
    match r {
        ReqView::Datastore => {
            assert(s.drop_first() =~= rest);
        },
        ReqView::AllFirstPages => {
            assert(s.drop_first() =~= rest);
        },
        ReqView::Hashes(c, d, ids) => {
            lemma_u16_of_be(c);
            lemma_u16_of_be(ids.len() as u16);
            assert(s.skip(6) =~= enc_u16s(ids) + rest);
            lemma_decode_enc_u16s(ids, rest);
            assert(s.skip(6 + 2 * ids.len() as int) =~= rest);
        },
        ReqView::Pages(c, d, ids) => {
            lemma_u16_of_be(c);
            lemma_u16_of_be(ids.len() as u16);
            assert(s.skip(6) =~= enc_u16s(ids) + rest);
            lemma_decode_enc_u16s(ids, rest);
            assert(s.skip(6 + 2 * ids.len() as int) =~= rest);
        },
        ReqView::AllPages(cs) => {
            lemma_u16_of_be(cs.len() as u16);
            assert(s.skip(3) =~= enc_u16s(cs) + rest);
            lemma_decode_enc_u16s(cs, rest);
            assert(s.skip(3 + 2 * cs.len() as int) =~= rest);
        },
    }
}

proof fn lemma_encode_requests_head(rs: Seq<ReqView>)
    requires
        rs.len() > 0,
    ensures
        encode_requests(rs) == encode_request(rs[0]) + encode_requests(rs.drop_first()),
    decreases rs.len(),
{
    if rs.len() == 1 {
        assert(rs.drop_last() =~= Seq::<ReqView>::empty());
        assert(rs.drop_first() =~= Seq::<ReqView>::empty());
        assert(encode_requests(rs.drop_last()) =~= Seq::<u8>::empty());
        assert(encode_requests(rs.drop_first()) =~= Seq::<u8>::empty());
        assert(encode_requests(rs) =~= encode_request(rs[0]) + encode_requests(rs.drop_first()));
    } else {
        lemma_encode_requests_head(rs.drop_last());
        assert(rs.drop_last().drop_first() =~= rs.drop_first().drop_last());
        assert(rs.drop_first().last() == rs.last());
        assert(encode_requests(rs) =~= encode_request(rs[0]) + encode_requests(rs.drop_first()));
    }
}

/// Decoding the encoding of encodable requests gives back the requests.
pub proof fn lemma_requests_roundtrip(rs: Seq<ReqView>)
    requires
        forall|i: int| 0 <= i < rs.len() ==> request_encodable(#[trigger] rs[i]),
    ensures
        parse_requests(encode_requests(rs)) == Some(rs),
    decreases rs.len(),
{
    if rs.len() == 0 {
    } else {
        lemma_encode_requests_head(rs);
        lemma_requests_roundtrip(rs.drop_first());
        lemma_parse_one(rs[0], encode_requests(rs.drop_first()));
        assert(seq![rs[0]] + rs.drop_first() =~= rs);
    }
}

pub(crate) fn push_u16s(bytes: &mut Vec<u8>, ids: &Vec<u16>)
    ensures
        final(bytes)@ == old(bytes)@ + enc_u16s(ids@),
{
    let n = ids.len();
    let ghost start = bytes@;
    let mut i: usize = 0;
    while i < n
        invariant
            n == ids@.len(),
            i <= n,
            bytes@ == start + enc_u16s(ids@.take(i as int)),
        decreases n - i,
    {
        let ghost before = bytes@;
        push_u16_be(bytes, ids[i]);
        assert(enc_u16s(ids@.take(i + 1)) =~= enc_u16s(ids@.take(i as int)) + be_u16(ids@[i as int]));
        i += 1;
    }
    assert(ids@.take(n as int) =~= ids@);
}

/// The bytes of one request.
pub fn serialize_request(req: &SyncRequest, bytes: &mut Vec<u8>)
    requires
        request_encodable(req@),
    ensures
        final(bytes)@ == old(bytes)@ + encode_request(req@),
{
    match req {
        SyncRequest::Datastore => {
            bytes.push(0);
        },
        SyncRequest::AllFirstPages => {
            bytes.push(1);
        },
        SyncRequest::Hashes(c_id, d_type, hash_ids) => {
            bytes.push(2);
            push_u16_be(bytes, *c_id);
            bytes.push(d_type.byte());
            push_u16_be(bytes, hash_ids.len() as u16);
            push_u16s(bytes, hash_ids);
        },
        SyncRequest::Pages(c_id, d_type, page_ids) => {
            bytes.push(3);
            push_u16_be(bytes, *c_id);
            bytes.push(d_type.byte());
            push_u16_be(bytes, page_ids.len() as u16);
            push_u16s(bytes, page_ids);
        },
        SyncRequest::AllPages(c_ids) => {
            bytes.push(4);
            push_u16_be(bytes, c_ids.len() as u16);
            push_u16s(bytes, c_ids);
        },
    }
    assert(bytes@ =~= old(bytes)@ + encode_request(req@));
}

/// The bytes of a list of requests, each one encoded in turn.
pub fn serialize_requests(requests: Vec<SyncRequest>) -> (r: Vec<u8>)
    requires
        forall|i: int| 0 <= i < requests@.len() ==> request_encodable(#[trigger] requests@[i]@),
    ensures
        r@ == encode_requests(requests@.map_values(|q: SyncRequest| q@)),
{
    let mut bytes: Vec<u8> = Vec::new();
    let n = requests.len();
    let ghost views = requests@.map_values(|q: SyncRequest| q@);
    let mut i: usize = 0;
    while i < n
        invariant
            n == requests@.len(),
            i <= n,
            views == requests@.map_values(|q: SyncRequest| q@),
            forall|k: int| 0 <= k < requests@.len() ==> request_encodable(#[trigger] requests@[k]@),
            bytes@ == encode_requests(views.take(i as int)),
        decreases n - i,
    {
        serialize_request(&requests[i], &mut bytes);
        assert(views.take(i + 1).drop_last() =~= views.take(i as int));
        i += 1;
    }
    assert(views.take(n as int) =~= views);
    bytes
}

fn read_u16s(bytes: &Vec<u8>, pos: usize, n: u16) -> (r: Vec<u16>)
    requires
        pos + 2 * n <= bytes@.len(),
    ensures
        r@ == decode_u16s(bytes@.skip(pos as int), n as nat),
{
    let mut ids: Vec<u16> = Vec::new();
    let mut i: u16 = 0;
    let ghost s = bytes@.skip(pos as int);
    let blen = bytes.len();
    while i < n
        invariant
            i <= n,
            blen == bytes@.len(),
            pos + 2 * n <= bytes@.len(),
            s == bytes@.skip(pos as int),
            ids@ == decode_u16s(s, i as nat),
        decreases n - i,
    {
        let p = pos + 2 * (i as usize);
        let v = u16_from_be(bytes[p], bytes[p + 1]);
        ids.push(v);
        assert(ids@ =~= decode_u16s(s, (i + 1) as nat));
        i += 1;
    }
    ids
}

/// The requests that `bytes` encodes (see `parse_requests`): bytes that
/// start no known request are skipped.
pub fn deserialize_requests(bytes: Vec<u8>) -> (r: Vec<SyncRequest>)
    requires
        parse_requests(bytes@) is Some,
    ensures
        r@.map_values(|q: SyncRequest| q@) == parse_requests(bytes@).unwrap(),
{
    let mut requests: Vec<SyncRequest> = Vec::new();
    let len = bytes.len();
    let mut pos: usize = 0;
    assert(bytes@.skip(0) =~= bytes@);
    assert(requests@.map_values(|q: SyncRequest| q@) =~= Seq::<ReqView>::empty());
    while pos < len
        invariant
            len == bytes@.len(),
            pos <= len,
            parse_requests(bytes@.skip(pos as int)) is Some,
            parse_requests(bytes@) == Some(
                requests@.map_values(|q: SyncRequest| q@) + parse_requests(
                    bytes@.skip(pos as int),
                ).unwrap(),
            ),
        decreases len - pos,
    {
        let ghost s = bytes@.skip(pos as int);
        let ghost before = requests@.map_values(|q: SyncRequest| q@);
        let req_type = bytes[pos];
        assert(s[0] == req_type);
        if req_type == 0 || req_type == 1 {
            assert(s.drop_first() =~= bytes@.skip(pos + 1));
            if req_type == 0 {
                requests.push(SyncRequest::Datastore);
            } else {
                requests.push(SyncRequest::AllFirstPages);
            }
            pos += 1;
        } else if req_type == 2 || req_type == 3 {
            let c_id = u16_from_be(bytes[pos + 1], bytes[pos + 2]);
            let d_type = DataType::from(bytes[pos + 3]);
            let count = u16_from_be(bytes[pos + 4], bytes[pos + 5]);
            let ids = read_u16s(&bytes, pos + 6, count);
            assert(s.skip(6) =~= bytes@.skip(pos + 6));
            assert(s.skip(6 + 2 * count) =~= bytes@.skip(pos + 6 + 2 * count));
            if req_type == 2 {
                requests.push(SyncRequest::Hashes(c_id, d_type, ids));
            } else {
                requests.push(SyncRequest::Pages(c_id, d_type, ids));
            }
            pos = pos + 6 + 2 * (count as usize);
        } else if req_type == 4 {
            let count = u16_from_be(bytes[pos + 1], bytes[pos + 2]);
            let ids = read_u16s(&bytes, pos + 3, count);
            assert(s.skip(3) =~= bytes@.skip(pos + 3));
            assert(s.skip(3 + 2 * count) =~= bytes@.skip(pos + 3 + 2 * count));
            requests.push(SyncRequest::AllPages(ids));
            pos = pos + 3 + 2 * (count as usize);
        } else {
            assert(s.drop_first() =~= bytes@.skip(pos + 1));
            pos += 1;
        }
        if req_type <= 4 {
            assert(requests@.map_values(|q: SyncRequest| q@) =~= before + seq![requests@.last()@]);
        } else {
            assert(requests@.map_values(|q: SyncRequest| q@) =~= before);
        }
    }
    assert(bytes@.skip(len as int) =~= Seq::<u8>::empty());
    assert(requests@.map_values(|q: SyncRequest| q@) =~= parse_requests(bytes@).unwrap());
    requests
}


/// A neighbour's answer to a request.
#[derive(Debug)]
pub enum SyncResponse {
    Datastore(u16, u16, Vec<(DataType, u64)>),
    Hashes(ContentID, u16, u16, Data),
    Page(ContentID, DataType, u16, u16, Data),
}

/// The value a response stands for (pages by their bytes).
pub enum RespView {
    Datastore(u16, u16, Seq<(DataType, u64)>),
    Hashes(u16, u16, u16, Seq<u8>),
    Page(u16, DataType, u16, u16, Seq<u8>),
}

impl View for SyncResponse {
    type V = RespView;

    open spec fn view(&self) -> RespView {
        match self {
            SyncResponse::Datastore(p, t, g) => RespView::Datastore(*p, *t, g@),
            SyncResponse::Hashes(c, p, t, d) => RespView::Hashes(*c, *p, *t, d.1@),
            SyncResponse::Page(c, dt, p, t, d) => RespView::Page(*c, *dt, *p, *t, d.1@),
        }
    }
}

/// Nine bytes per typed hash: the type byte, then the hash's big-endian bytes.
pub open spec fn enc_typed_hashes(g: Seq<(DataType, u64)>) -> Seq<u8> {
    Seq::new(
        9 * g.len(),
        |j: int|
            if j % 9 == 0 {
                g[j / 9].0.spec_byte()
            } else {
                be_u64(g[j / 9].1)[j % 9 - 1]
            },
    )
}

/// The `n` typed hashes that start `s`, nine bytes each.
pub open spec fn decode_typed_hashes(s: Seq<u8>, n: nat) -> Seq<(DataType, u64)> {
    Seq::new(
        n,
        |i: int| (DataType::spec_from(s[9 * i]), u64_of(s.subrange(9 * i + 1, 9 * i + 9))),
    )
}

/// Bytes of a response: a tag byte, then its fields; a page's bytes last.
pub open spec fn encode_response(v: RespView) -> Seq<u8> {
    match v {
        RespView::Datastore(p, t, g) => seq![0u8] + be_u16(p) + be_u16(t) + enc_typed_hashes(g),
        RespView::Hashes(c, p, t, b) => seq![1u8] + be_u16(c) + be_u16(p) + be_u16(t) + b,
        RespView::Page(c, dt, p, t, b) => seq![2u8] + be_u16(c) + seq![dt.spec_byte()] + be_u16(p)
            + be_u16(t) + b,
    }
}

/// What `SyncResponse::deserialize` makes of a byte string: `None` where the
/// bytes are cut short, hold a partial typed hash or a page over 1024 bytes;
/// an unknown tag byte gives back the bytes as the error.
pub open spec fn parse_response(s: Seq<u8>) -> Option<Result<RespView, Seq<u8>>> {
    if s.len() == 0 {
        None
    } else if s[0] == 0 {
        if s.len() < 5 || (s.len() - 5) % 9 != 0 {
            None
        } else {
            Some(
                Ok(
                    RespView::Datastore(
                        u16_of(s[1], s[2]),
                        u16_of(s[3], s[4]),
                        decode_typed_hashes(s.skip(5), ((s.len() - 5) / 9) as nat),
                    ),
                ),
            )
        }
    } else if s[0] == 1 {
        if s.len() < 7 || s.len() - 7 > 1024 {
            None
        } else {
            Some(Ok(RespView::Hashes(u16_of(s[1], s[2]), u16_of(s[3], s[4]), u16_of(s[5], s[6]), s.skip(7))))
        }
    } else if s[0] == 2 {
        if s.len() < 8 || s.len() - 8 > 1024 {
            None
        } else {
            Some(
                Ok(
                    RespView::Page(
                        u16_of(s[1], s[2]),
                        DataType::spec_from(s[3]),
                        u16_of(s[4], s[5]),
                        u16_of(s[6], s[7]),
                        s.skip(8),
                    ),
                ),
            )
        }
    } else {
        Some(Err(s))
    }
}

/// A response that decodes back to itself: canonical data types and pages
/// of at most 1024 bytes.
pub open spec fn response_encodable(v: RespView) -> bool {
    match v {
        RespView::Datastore(_, _, g) => forall|i: int| 0 <= i < g.len() ==> (#[trigger] g[i]).0.canonical(),
        RespView::Hashes(_, _, _, b) => b.len() <= 1024,
        RespView::Page(_, dt, _, _, b) => dt.canonical() && b.len() <= 1024,
    }
}

fn append_bytes(bytes: &mut Vec<u8>, tail: Vec<u8>)
    ensures
        final(bytes)@ == old(bytes)@ + tail@,
{
    let mut tail = tail;
    bytes.append(&mut tail);
}

fn take_tail(bytes: &Vec<u8>, from: usize) -> (r: Vec<u8>)
    requires
        from <= bytes@.len(),
    ensures
        r@ == bytes@.skip(from as int),
{
    let mut out: Vec<u8> = Vec::new();
    let n = bytes.len();
    let mut i = from;
    while i < n
        invariant
            n == bytes@.len(),
            from <= i <= n,
            out@ == bytes@.subrange(from as int, i as int),
        decreases n - i,
    {
        out.push(bytes[i]);
        assert(out@ =~= bytes@.subrange(from as int, i + 1));
        i += 1;
    }
    assert(bytes@.subrange(from as int, n as int) =~= bytes@.skip(from as int));
    out
}

impl SyncResponse {
    /// The bytes of this response (see `encode_response`).
    pub fn serialize(self) -> (r: Vec<u8>)
        ensures
            r@ == encode_response(self@),
    {
        let ghost v = self@;
        match self {
            SyncResponse::Datastore(part_no, total, group) => {
                let mut bytes: Vec<u8> = Vec::new();
                bytes.push(0);
                push_u16_be(&mut bytes, part_no);
                push_u16_be(&mut bytes, total);
                let ghost head = bytes@;
                let n = group.len();
                let mut i: usize = 0;
                while i < n
                    invariant
                        n == group@.len(),
                        i <= n,
                        bytes@ == head + enc_typed_hashes(group@.take(i as int)),
                    decreases n - i,
                {
                    let (d_type, hash) = group[i];
                    bytes.push(d_type.byte());
                    push_u64_be(&mut bytes, hash);
                    assert forall|j: int| 0 <= j < 9 * (i + 1) implies #[trigger] enc_typed_hashes(group@.take(i + 1))[j]
                        == (enc_typed_hashes(group@.take(i as int)) + seq![d_type.spec_byte()] + be_u64(hash))[j] by {
                        if j < 9 * i {
                            assert(j / 9 < i);
                        } else {
                            assert(j / 9 == i);
                        }
                    }
                    assert(enc_typed_hashes(group@.take(i + 1)) =~= enc_typed_hashes(group@.take(i as int)) + seq![d_type.spec_byte()] + be_u64(hash));
                    i += 1;
                }
                assert(group@.take(n as int) =~= group@);
                assert(bytes@ =~= encode_response(v));
                bytes
            },
            SyncResponse::Hashes(c_id, page_no, total, data) => {
                let mut bytes: Vec<u8> = Vec::with_capacity(1450);
                bytes.push(1);
                push_u16_be(&mut bytes, c_id);
                push_u16_be(&mut bytes, page_no);
                push_u16_be(&mut bytes, total);
                append_bytes(&mut bytes, data.bytes());
                assert(bytes@ =~= encode_response(v));
                bytes
            },
            SyncResponse::Page(c_id, data_type, page_no, total, data) => {
                let mut bytes: Vec<u8> = Vec::with_capacity(1450);
                bytes.push(2);
                push_u16_be(&mut bytes, c_id);
                bytes.push(data_type.byte());
                push_u16_be(&mut bytes, page_no);
                push_u16_be(&mut bytes, total);
                append_bytes(&mut bytes, data.bytes());
                assert(bytes@ =~= encode_response(v));
                bytes
            },
        }
    }

    /// The response that `bytes` encodes (see `parse_response`); pages are
    /// hashed by `sha`. An unknown tag byte gives back `bytes` as the error.
    pub fn deserialize<H: Fn(&[u8]) -> u64>(bytes: Vec<u8>, sha: &H) -> (r: Result<Self, Vec<u8>>)
        requires
            hasher_total(*sha),
            parse_response(bytes@) is Some,
        ensures
            match r {
                Ok(resp) => parse_response(bytes@) == Some(Ok::<RespView, Seq<u8>>(resp@)) && match resp {
                    SyncResponse::Hashes(_, _, _, d) => hashes_to(*sha, d.1@, d.0),
                    SyncResponse::Page(_, _, _, _, d) => hashes_to(*sha, d.1@, d.0),
                    _ => true,
                },
                Err(b) => parse_response(bytes@) == Some(Err::<RespView, Seq<u8>>(bytes@)) && b@ == bytes@,
            },
    {
        let len = bytes.len();
        let resp_type = bytes[0];
        if resp_type == 0 {
            let part_no = u16_from_be(bytes[1], bytes[2]);
            let total = u16_from_be(bytes[3], bytes[4]);
            let mut typed_hashes: Vec<(DataType, u64)> = Vec::with_capacity(128);
            let count = (len - 5) / 9;
            let ghost s = bytes@.skip(5);
            let mut i: usize = 0;
            while i < count
                invariant
                    len == bytes@.len(),
                    len >= 5,
                    count == (len - 5) / 9,
                    (len - 5) % 9 == 0,
                    i <= count,
                    s == bytes@.skip(5),
                    typed_hashes@ == decode_typed_hashes(s, i as nat),
                decreases count - i,
            {
                let p = 5 + 9 * i;
                assert(p + 9 <= len) by (nonlinear_arith)
                    requires
                        i < count,
                        count == (len - 5) / 9,
                        (len - 5) % 9 == 0,
                        len >= 5,
                        p == 5 + 9 * i,
                ;
                let d_type = DataType::from(bytes[p]);
                let hash = read_u64_be(&bytes, p + 1);
                typed_hashes.push((d_type, hash));
                assert(s.subrange(9 * i + 1, 9 * i + 9) =~= bytes@.subrange(p + 1, p + 9));
                assert(typed_hashes@ =~= decode_typed_hashes(s, (i + 1) as nat));
                i += 1;
            }
            Ok(SyncResponse::Datastore(part_no, total, typed_hashes))
        } else if resp_type == 1 {
            let c_id = u16_from_be(bytes[1], bytes[2]);
            let page_no = u16_from_be(bytes[3], bytes[4]);
            let total = u16_from_be(bytes[5], bytes[6]);
            let rest = take_tail(&bytes, 7);
            let data = Data::new(rest, sha);
            match data {
                Ok(data) => Ok(SyncResponse::Hashes(c_id, page_no, total, data)),
                Err(_) => Err(bytes),
            }
        } else if resp_type == 2 {
            let c_id = u16_from_be(bytes[1], bytes[2]);
            let data_type = DataType::from(bytes[3]);
            let page_no = u16_from_be(bytes[4], bytes[5]);
            let total = u16_from_be(bytes[6], bytes[7]);
            let rest = take_tail(&bytes, 8);
            let data = Data::new(rest, sha);
            match data {
                Ok(data) => Ok(SyncResponse::Page(c_id, data_type, page_no, total, data)),
                Err(_) => Err(bytes),
            }
        } else {
            Err(bytes)
        }
    }
}

/// Decoding the encoding of an encodable response gives back the response.
pub proof fn lemma_response_roundtrip(v: RespView)
    requires
        response_encodable(v),
    ensures
        parse_response(encode_response(v)) == Some(Ok::<RespView, Seq<u8>>(v)),
{
    let s = encode_response(v);
    match v {
        RespView::Datastore(p, t, g) => {
            lemma_u16_of_be(p);
            lemma_u16_of_be(t);
            assert(s.len() == 5 + 9 * g.len());
            assert((s.len() - 5) / 9 == g.len()) by (nonlinear_arith)
                requires
                    s.len() == 5 + 9 * g.len(),
            ;
            let d = decode_typed_hashes(s.skip(5), g.len());
            assert forall|i: int| 0 <= i < g.len() implies #[trigger] d[i] == g[i] by {
                assert((9 * i) / 9 == i && (9 * i) % 9 == 0);
                assert forall|k: int| 0 <= k < 8 implies #[trigger] s.skip(5).subrange(9 * i + 1, 9 * i + 9)[k]
                    == be_u64(g[i].1)[k] by {
                    assert((9 * i + 1 + k) / 9 == i);
                    assert((9 * i + 1 + k) % 9 == k + 1);
                }
                assert(s.skip(5).subrange(9 * i + 1, 9 * i + 9) =~= be_u64(g[i].1));
                lemma_u64_of_be(g[i].1);
            }
            assert(d =~= g);
        },
        RespView::Hashes(c, p, t, b) => {
            lemma_u16_of_be(c);
            lemma_u16_of_be(p);
            lemma_u16_of_be(t);
            assert(s.skip(7) =~= b);
        },
        RespView::Page(c, dt, p, t, b) => {
            lemma_u16_of_be(c);
            lemma_u16_of_be(p);
            lemma_u16_of_be(t);
            assert(s.skip(8) =~= b);
        },
    }
}

} // verus!
