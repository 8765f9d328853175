//! Sync messages: the operations that change a datastore, framed into parts
//! small enough for the swarm's sync channel.

use vstd::prelude::*;
use crate::content::{ContentID, DataType};
use crate::data::Data;
use crate::hashing::{
    append_range, be_u16, be_u64, hasher_total, hashes_to, push_u16_be, push_u64_be, read_u64_be, u16_from_be, u16_of,
    u64_of,
};

verus! {

/// Removes and returns the first byte of `bytes`.
fn pop_front(bytes: &mut Vec<u8>) -> (r: u8)
    requires
        old(bytes)@.len() > 0,
    ensures
        r == old(bytes)@[0],
        final(bytes)@ == old(bytes)@.skip(1),
{
    let r = bytes.remove(0);
    assert(bytes@ =~= old(bytes)@.skip(1));
    r
}

/// Removes the first two bytes of `bytes` and returns the `u16` they spell.
fn pop_u16(bytes: &mut Vec<u8>) -> (r: u16)
    requires
        old(bytes)@.len() >= 2,
    ensures
        r == u16_of(old(bytes)@[0], old(bytes)@[1]),
        final(bytes)@ == old(bytes)@.skip(2),
{
    let b1 = pop_front(bytes);
    let b2 = pop_front(bytes);
    assert(bytes@ =~= old(bytes)@.skip(2));
    u16_from_be(b1, b2)
}

/// How a content is changed in place: rebuilt directly, or after dropping
/// or popping the given number of pages.
#[derive(Clone, Copy, Debug, PartialEq, Eq, Structural)]
pub enum ChangeContentOperation {
    DirectCTreeRebuild,
    DropAndAppend(u16),
    PopAndAppendConverted(u16),
    PopAndCTreeRebuild(u16),
}

/// Bytes of an operation: a header byte (1, 2, 4 or 8), then the count
/// where the operation carries one.
pub open spec fn op_bytes(op: ChangeContentOperation) -> Seq<u8> {
    match op {
        ChangeContentOperation::DirectCTreeRebuild => seq![1u8],
        ChangeContentOperation::DropAndAppend(n) => seq![2u8] + be_u16(n),
        ChangeContentOperation::PopAndAppendConverted(n) => seq![4u8] + be_u16(n),
        ChangeContentOperation::PopAndCTreeRebuild(n) => seq![8u8] + be_u16(n),
    }
}

/// The operation at the front of `s` and how many bytes it takes; `None`
/// when `s` is empty, its header is unknown or its count is cut short.
pub open spec fn parse_op(s: Seq<u8>) -> Option<(ChangeContentOperation, nat)> {
    if s.len() == 0 {
        None
    } else if s[0] == 1 {
        Some((ChangeContentOperation::DirectCTreeRebuild, 1))
    } else if (s[0] == 2 || s[0] == 4 || s[0] == 8) && s.len() >= 3 {
        let n = u16_of(s[1], s[2]);
        if s[0] == 2 {
            Some((ChangeContentOperation::DropAndAppend(n), 3))
        } else if s[0] == 4 {
            Some((ChangeContentOperation::PopAndAppendConverted(n), 3))
        } else {
            Some((ChangeContentOperation::PopAndCTreeRebuild(n), 3))
        }
    } else {
        None
    }
}

/// The header byte of `s` names an operation with a count, but the count
/// is cut short.
pub open spec fn op_cut_short(s: Seq<u8>) -> bool {
    s.len() > 0 && (s[0] == 2 || s[0] == 4 || s[0] == 8) && s.len() < 3
}

impl ChangeContentOperation {
    /// Reads an operation from the front of `bytes`, removing what it read;
    /// on an empty vector or an unknown header nothing is removed.
    pub fn from(bytes: &mut Vec<u8>) -> (r: Result<Self, ()>)
        requires
            !op_cut_short(old(bytes)@),
        ensures
            match parse_op(old(bytes)@) {
                Some((op, n)) => r == Ok::<Self, ()>(op) && final(bytes)@ == old(bytes)@.skip(n as int),
                None => r is Err && final(bytes)@ == old(bytes)@,
            },
    {
        if bytes.len() == 0 {
            return Err(());
        }
        let ghost s = bytes@;
        let header = pop_front(bytes);
        match header {
            1 => Ok(ChangeContentOperation::DirectCTreeRebuild),
            2 => {
                let n = pop_u16(bytes);
                assert(bytes@ =~= s.skip(3));
                Ok(ChangeContentOperation::DropAndAppend(n))
            },
            4 => {
                let n = pop_u16(bytes);
                assert(bytes@ =~= s.skip(3));
                Ok(ChangeContentOperation::PopAndAppendConverted(n))
            },
            8 => {
                let n = pop_u16(bytes);
                assert(bytes@ =~= s.skip(3));
                Ok(ChangeContentOperation::PopAndCTreeRebuild(n))
            },
            other => {
                bytes.insert(0, other);
                assert(bytes@ =~= s);
                Err(())
            },
        }
    }

    pub fn bytes(&self) -> (r: Vec<u8>)
        ensures
            r@ == op_bytes(*self),
    {
        let mut v: Vec<u8> = Vec::new();
        match self {
            ChangeContentOperation::DirectCTreeRebuild => {
                v.push(1);
            },
            ChangeContentOperation::DropAndAppend(n) => {
                v.push(2);
                push_u16_be(&mut v, *n);
            },
            ChangeContentOperation::PopAndAppendConverted(n) => {
                v.push(4);
                push_u16_be(&mut v, *n);
            },
            ChangeContentOperation::PopAndCTreeRebuild(n) => {
                v.push(8);
                push_u16_be(&mut v, *n);
            },
        }
        assert(v@ =~= op_bytes(*self));
        v
    }
}

/// Reading back the bytes of an operation, whatever follows them, gives
/// the operation and the number of its bytes.
pub proof fn lemma_op_roundtrip(op: ChangeContentOperation, rest: Seq<u8>)
    ensures
        parse_op(op_bytes(op) + rest) == Some((op, op_bytes(op).len())),
{
    let s = op_bytes(op) + rest;
    match op {
        ChangeContentOperation::DirectCTreeRebuild => {},
        ChangeContentOperation::DropAndAppend(n) => {
            crate::hashing::lemma_u16_of_be(n);
        },
        ChangeContentOperation::PopAndAppendConverted(n) => {
            crate::hashing::lemma_u16_of_be(n);
        },
        ChangeContentOperation::PopAndCTreeRebuild(n) => {
            crate::hashing::lemma_u16_of_be(n);
        },
    }
}

/// The kind of a sync message, with the content and page it concerns.
#[derive(Clone, Copy, Debug, PartialEq, Eq, Structural)]
pub enum SyncMessageType {
    AppendContent(DataType),
    ChangeContent(ContentID, DataType, ChangeContentOperation),
    AppendData(ContentID),
    AppendShelledDatas(ContentID),
    RemoveData(ContentID, u16),
    UpdateData(ContentID, u16),
    InsertData(ContentID, u16),
    ExtendData(ContentID, u16),
    UserDefined(u8, u16, u16),
}

/// Bytes of a message type: a header byte, then its fields big-endian.
pub open spec fn mt_bytes(t: SyncMessageType) -> Seq<u8> {
    match t {
        SyncMessageType::AppendShelledDatas(c) => seq![255u8] + be_u16(c),
        SyncMessageType::AppendContent(d) => seq![254u8, d.spec_byte()],
        SyncMessageType::ChangeContent(c, d, op) => seq![253u8] + be_u16(c) + seq![d.spec_byte()]
            + op_bytes(op),
        SyncMessageType::AppendData(c) => seq![252u8] + be_u16(c),
        SyncMessageType::RemoveData(c, d) => seq![251u8] + be_u16(c) + be_u16(d),
        SyncMessageType::UpdateData(c, d) => seq![250u8] + be_u16(c) + be_u16(d),
        SyncMessageType::InsertData(c, d) => seq![249u8] + be_u16(c) + be_u16(d),
        SyncMessageType::ExtendData(c, d) => seq![248u8] + be_u16(c) + be_u16(d),
        SyncMessageType::UserDefined(o, c, d) => seq![o] + be_u16(c) + be_u16(d),
    }
}

/// The message type at the front of `s` and how many bytes it takes; `None`
/// when the bytes are cut short or a change holds no valid operation.
pub open spec fn parse_mt(s: Seq<u8>) -> Option<(SyncMessageType, nat)> {
    if s.len() == 0 {
        None
    } else {
        let h = s[0];
        if h == 255 {
            if s.len() >= 3 {
                Some((SyncMessageType::AppendShelledDatas(u16_of(s[1], s[2])), 3))
            } else {
                None
            }
        } else if h == 254 {
            if s.len() >= 2 {
                Some((SyncMessageType::AppendContent(DataType::spec_from(s[1])), 2))
            } else {
                None
            }
        } else if h == 253 {
            if s.len() >= 4 && !op_cut_short(s.skip(4)) {
                match parse_op(s.skip(4)) {
                    Some((op, n)) => Some(
                        (
                            SyncMessageType::ChangeContent(
                                u16_of(s[1], s[2]),
                                DataType::spec_from(s[3]),
                                op,
                            ),
                            4 + n,
                        ),
                    ),
                    None => None,
                }
            } else {
                None
            }
        } else if h == 252 {
            if s.len() >= 3 {
                Some((SyncMessageType::AppendData(u16_of(s[1], s[2])), 3))
            } else {
                None
            }
        } else if s.len() >= 5 {
            let c = u16_of(s[1], s[2]);
            let d = u16_of(s[3], s[4]);
            if h == 251 {
                Some((SyncMessageType::RemoveData(c, d), 5))
            } else if h == 250 {
                Some((SyncMessageType::UpdateData(c, d), 5))
            } else if h == 249 {
                Some((SyncMessageType::InsertData(c, d), 5))
            } else if h == 248 {
                Some((SyncMessageType::ExtendData(c, d), 5))
            } else {
                Some((SyncMessageType::UserDefined(h, c, d), 5))
            }
        } else {
            None
        }
    }
}

impl SyncMessageType {
    /// The message type is one that its bytes read back as: its data type
    /// is one its byte names, and a user-defined header is below 248.
    pub open spec fn canonical(self) -> bool {
        match self {
            SyncMessageType::AppendContent(d) => d.canonical(),
            SyncMessageType::ChangeContent(_, d, _) => d.canonical(),
            SyncMessageType::UserDefined(o, _, _) => o < 248,
            _ => true,
        }
    }

    /// Reads a message type from the front of `bytes`, removing what it read.
    pub fn new(bytes: &mut Vec<u8>) -> (r: Self)
        requires
            parse_mt(old(bytes)@) is Some,
        ensures
            parse_mt(old(bytes)@) == Some((r, (old(bytes)@.len() - final(bytes)@.len()) as nat)),
            final(bytes)@ == old(bytes)@.skip((parse_mt(old(bytes)@)->0).1 as int),
    {
        let ghost s = bytes@;
        let value = pop_front(bytes);
        if value == 255 {
            let c_id = pop_u16(bytes);
            assert(bytes@ =~= s.skip(3));
            SyncMessageType::AppendShelledDatas(c_id)
        } else if value == 254 {
            let dt = DataType::from(pop_front(bytes));
            assert(bytes@ =~= s.skip(2));
            SyncMessageType::AppendContent(dt)
        } else if value == 253 {
            let c_id = pop_u16(bytes);
            let d_type = DataType::from(pop_front(bytes));
            assert(bytes@ =~= s.skip(4));
            let operation = ChangeContentOperation::from(bytes);
            let ghost n = (parse_op(s.skip(4))->0).1;
            assert(bytes@ =~= s.skip(4 + n as int));
            match operation {
                Ok(op) => SyncMessageType::ChangeContent(c_id, d_type, op),
                Err(()) => {
                    assert(false);
                    SyncMessageType::AppendData(0)
                },
            }
        } else if value == 252 {
            let c_id = pop_u16(bytes);
            assert(bytes@ =~= s.skip(3));
            SyncMessageType::AppendData(c_id)
        } else {
            let c_id = pop_u16(bytes);
            let d_id = pop_u16(bytes);
            assert(bytes@ =~= s.skip(5));
            if value == 251 {
                SyncMessageType::RemoveData(c_id, d_id)
            } else if value == 250 {
                SyncMessageType::UpdateData(c_id, d_id)
            } else if value == 249 {
                SyncMessageType::InsertData(c_id, d_id)
            } else if value == 248 {
                SyncMessageType::ExtendData(c_id, d_id)
            } else {
                SyncMessageType::UserDefined(value, c_id, d_id)
            }
        }
    }

    pub fn as_bytes(&self) -> (r: Vec<u8>)
        ensures
            r@ == mt_bytes(*self),
    {
        let mut v: Vec<u8> = Vec::new();
        match self {
            SyncMessageType::AppendShelledDatas(c_id) => {
                v.push(255);
                push_u16_be(&mut v, *c_id);
            },
            SyncMessageType::AppendContent(d_type) => {
                v.push(254);
                v.push(d_type.byte());
            },
            SyncMessageType::ChangeContent(c_id, d_type, operation) => {
                v.push(253);
                push_u16_be(&mut v, *c_id);
                v.push(d_type.byte());
                let mut ob = operation.bytes();
                v.append(&mut ob);
            },
            SyncMessageType::AppendData(c_id) => {
                v.push(252);
                push_u16_be(&mut v, *c_id);
            },
            SyncMessageType::RemoveData(c_id, d_id) => {
                v.push(251);
                push_u16_be(&mut v, *c_id);
                push_u16_be(&mut v, *d_id);
            },
            SyncMessageType::UpdateData(c_id, d_id) => {
                v.push(250);
                push_u16_be(&mut v, *c_id);
                push_u16_be(&mut v, *d_id);
            },
            SyncMessageType::InsertData(c_id, d_id) => {
                v.push(249);
                push_u16_be(&mut v, *c_id);
                push_u16_be(&mut v, *d_id);
            },
            SyncMessageType::ExtendData(c_id, d_id) => {
                v.push(248);
                push_u16_be(&mut v, *c_id);
                push_u16_be(&mut v, *d_id);
            },
            SyncMessageType::UserDefined(other, c_id, d_id) => {
                v.push(*other);
                push_u16_be(&mut v, *c_id);
                push_u16_be(&mut v, *d_id);
            },
        }
        assert(v@ =~= mt_bytes(*self));
        v
    }
}

/// Reading back the bytes of a message type, whatever follows them, gives
/// the type and the number of its bytes, for every type that its bytes name
/// (see `canonical`).
pub proof fn lemma_message_type_roundtrip(t: SyncMessageType, rest: Seq<u8>)
    requires
        t.canonical(),
    ensures
        parse_mt(mt_bytes(t) + rest) == Some((t, mt_bytes(t).len())),
{
    let s = mt_bytes(t) + rest;
    match t {
        SyncMessageType::AppendShelledDatas(c) => {
            crate::hashing::lemma_u16_of_be(c);
        },
        SyncMessageType::AppendContent(d) => {},
        SyncMessageType::ChangeContent(c, d, op) => {
            crate::hashing::lemma_u16_of_be(c);
            lemma_op_roundtrip(op, rest);
            assert(s.skip(4) =~= op_bytes(op) + rest);
        },
        SyncMessageType::AppendData(c) => {
            crate::hashing::lemma_u16_of_be(c);
        },
        SyncMessageType::RemoveData(c, d) => {
            crate::hashing::lemma_u16_of_be(c);
            crate::hashing::lemma_u16_of_be(d);
        },
        SyncMessageType::UpdateData(c, d) => {
            crate::hashing::lemma_u16_of_be(c);
            crate::hashing::lemma_u16_of_be(d);
        },
        SyncMessageType::InsertData(c, d) => {
            crate::hashing::lemma_u16_of_be(c);
            crate::hashing::lemma_u16_of_be(d);
        },
        SyncMessageType::ExtendData(c, d) => {
            crate::hashing::lemma_u16_of_be(c);
            crate::hashing::lemma_u16_of_be(d);
        },
        SyncMessageType::UserDefined(o, c, d) => {
            crate::hashing::lemma_u16_of_be(c);
            crate::hashing::lemma_u16_of_be(d);
        },
    }
}

/// Root hashes that contents must have before a message applies (`pre`)
/// and after it has applied (`post`).
#[derive(Debug)]
pub struct SyncRequirements {
    pub pre: Vec<(ContentID, u64)>,
    pub post: Vec<(ContentID, u64)>,
}

/// Each pair written as the content id and the hash, big-endian.
pub open spec fn enc_pairs(s: Seq<(u16, u64)>) -> Seq<u8>
    decreases s.len(),
{
    if s.len() == 0 {
        Seq::empty()
    } else {
        enc_pairs(s.drop_last()) + be_u16(s.last().0) + be_u64(s.last().1)
    }
}

/// Bytes of requirements: the count of `pre` pairs (its low byte), the
/// pairs, then the same for `post`.
pub open spec fn req_bytes(pre: Seq<(u16, u64)>, post: Seq<(u16, u64)>) -> Seq<u8> {
    seq![pre.len() as u8] + enc_pairs(pre) + seq![post.len() as u8] + enc_pairs(post)
}

proof fn lemma_enc_pairs_len(s: Seq<(u16, u64)>)
    ensures
        enc_pairs(s).len() == 10 * s.len(),
    decreases s.len(),
{
    if s.len() > 0 {
        lemma_enc_pairs_len(s.drop_last());
    }
}

/// Appends the encoding of `pairs` to `bytes`.
fn push_pairs(bytes: &mut Vec<u8>, pairs: &Vec<(ContentID, u64)>)
    ensures
        final(bytes)@ == old(bytes)@ + enc_pairs(pairs@),
{
    let mut i: usize = 0;
    while i < pairs.len()
        invariant
            i <= pairs@.len(),
            bytes@ == old(bytes)@ + enc_pairs(pairs@.take(i as int)),
        decreases pairs@.len() - i,
    {
        let (c_id, hash) = pairs[i];
        push_u16_be(bytes, c_id);
        push_u64_be(bytes, hash);
        assert(pairs@.take(i + 1).drop_last() =~= pairs@.take(i as int));
        i += 1;
    }
    assert(pairs@.take(pairs@.len() as int) =~= pairs@);
}

impl SyncRequirements {
    pub fn bytes(self) -> (r: Vec<u8>)
        ensures
            r@ == req_bytes(self.pre@, self.post@),
            r@.len() == 2 + 10 * (self.pre@.len() + self.post@.len()),
    {
        let mut bytes: Vec<u8> = Vec::new();
        bytes.push(self.pre.len() as u8);
        push_pairs(&mut bytes, &self.pre);
        bytes.push(self.post.len() as u8);
        push_pairs(&mut bytes, &self.post);
        proof {
            lemma_enc_pairs_len(self.pre@);
            lemma_enc_pairs_len(self.post@);
        }
        assert(bytes@ =~= req_bytes(self.pre@, self.post@));
        bytes
    }
}

/// A sync message: its type, the requirements it comes with, and a page.
#[derive(Debug)]
pub struct SyncMessage {
    pub m_type: SyncMessageType,
    pub requirements: SyncRequirements,
    pub data: Data,
}

/// The bytes of a message that follow its type: requirements, then the page.
pub open spec fn body_bytes(m: &SyncMessage) -> Seq<u8> {
    req_bytes(m.requirements.pre@, m.requirements.post@) + m.data.1@
}

/// With `n` parts after the header part, the message's `netto` bytes fit:
/// those beyond `n` full parts fit in the header part beside `n` hashes.
pub open spec fn parts_suffice(netto: int, n: int) -> bool {
    netto < 1021 * n || netto - 1021 * n <= 893 - 8 * n
}

/// The number of parts after the header part: the least count from one up
/// for which `parts_suffice` holds.
pub open spec fn is_part_count(netto: int, n: int) -> bool {
    &&& 1 <= n
    &&& parts_suffice(netto, n)
    &&& forall|k: int| 1 <= k < n ==> !#[trigger] parts_suffice(netto, k)
}

/// The eight bytes of the `k`-th hash written from `base` on (counting from one).
pub open spec fn slot(s: Seq<u8>, base: int, k: int) -> Seq<u8> {
    s.subrange(base + 8 * (k - 1), base + 8 * k)
}

/// The chunk of `rest` carried by the part after the header numbered
/// `j + 1`: up to 1017 bytes, in order.
pub open spec fn chunk(rest: Seq<u8>, j: int) -> Seq<u8> {
    let from = if 1017 * j < rest.len() { 1017 * j } else { rest.len() as int };
    let to = if 1017 * (j + 1) < rest.len() { 1017 * (j + 1) } else { rest.len() as int };
    rest.subrange(from, to)
}

/// `parts` are the payloads that `into_parts` makes of `m` (see there).
pub open spec fn parts_of<H: Fn(&[u8]) -> u64>(m: SyncMessage, sha: H, parts: Seq<Vec<u8>>) -> bool {
    let mt = mt_bytes(m.m_type);
    let body = body_bytes(&m);
    if m.netto() < 893 {
        parts.len() == 1 && parts[0]@ == mt + seq![0u8, 0u8] + body
    } else {
        exists|n: int| {
            &&& #[trigger] is_part_count(m.netto(), n)
            &&& parts.len() == n + 1
            &&& parts[0]@.len() == mt.len() + 2 + 8 * n + (893 - 8 * n)
            &&& parts[0]@.take(mt.len() as int + 2) == mt + seq![0u8, n as u8]
            &&& parts[0]@.skip(mt.len() + 2 + 8 * n) == body.take(893 - 8 * n)
            &&& forall|i: int| 1 <= i <= n ==> {
                &&& (#[trigger] parts[i])@ == mt + seq![i as u8, n as u8] + chunk(body.skip(893 - 8 * n), i - 1)
                &&& hashes_to(sha, parts[i]@, crate::hashing::u64_of(slot(parts[0]@, mt.len() as int + 2, i)))
            }
        }
    }
}

impl SyncMessage {
    pub fn new(m_type: SyncMessageType, requirements: SyncRequirements, data: Data) -> (r: Self)
        ensures
            r.m_type == m_type,
            r.requirements == requirements,
            r.data == data,
    {
        SyncMessage { m_type, requirements, data }
    }

    /// The size of the requirements and page of the message.
    pub open spec fn netto(&self) -> int {
        (self.data.1@.len() + 2 + 10 * (self.requirements.pre@.len() + self.requirements.post@.len())) as int
    }

    /// Splits the message into the payloads of its parts. Each part starts
    /// with the message type, the part's number and the number of parts
    /// after the first. A message whose requirements and page take fewer
    /// than 893 bytes is one part numbered 0 of 0. A longer one has a header
    /// part that holds, after its number and count, the hash of each later
    /// part and then the first bytes of the body; each later part holds the
    /// next (up to) 1017 bytes.
    pub fn into_parts<H: Fn(&[u8]) -> u64>(self, sha: &H) -> (r: Vec<Vec<u8>>)
        requires
            hasher_total(*sha),
            self.netto() <= 893 + 1013 * 111,
        ensures
            parts_of(self, *sha, r@),
    {
        let ghost mt = mt_bytes(self.m_type);
        let ghost body = body_bytes(&self);
        let data_size = self.data.1.len();
        let req_count = self.requirements.pre.len() + self.requirements.post.len();
        let netto_size = data_size + 2 + 10 * req_count;
        let m_type = self.m_type;
        let mut req_and_data = self.requirements.bytes();
        let mut data_bytes = self.data.1;
        req_and_data.append(&mut data_bytes);
        assert(req_and_data@ =~= body);
        let mut partials: Vec<Vec<u8>> = Vec::new();
        if netto_size < 893 {
            let mut bytes = m_type.as_bytes();
            bytes.push(0);
            bytes.push(0);
            bytes.append(&mut req_and_data);
            partials.push(bytes);
            assert(partials@[0]@ =~= mt + seq![0u8, 0u8] + body);
            return partials;
        }
        let mut non_header_parts: usize = 1;
        while !(netto_size < 1021 * non_header_parts || netto_size - 1021 * non_header_parts <= 893 - 8
            * non_header_parts)
            invariant
                1 <= non_header_parts <= 111,
                netto_size == self.netto(),
                netto_size <= 893 + 1013 * 111,
                forall|k: int| 1 <= k < non_header_parts ==> !#[trigger] parts_suffice(netto_size as int, k),
            decreases 111 - non_header_parts,
        {
            assert(non_header_parts < 111);
            non_header_parts += 1;
        }
        let n = non_header_parts;
        assert(is_part_count(netto_size as int, n as int));
        let mut header_bytes = m_type.as_bytes();
        let mt_len = header_bytes.len();
        header_bytes.push(0);
        header_bytes.push(n as u8);
        let first_chunk_size = 893 - 8 * n;
        let mut pos = first_chunk_size;
        let total = req_and_data.len();
        let ghost rest = body.skip(first_chunk_size as int);
        let mut i: usize = 0;
        while i < n
            invariant
                n == non_header_parts,
                1 <= n <= 111,
                i <= n,
                total == req_and_data@.len(),
                req_and_data@ == body,
                first_chunk_size == 893 - 8 * n,
                first_chunk_size <= total,
                rest == body.skip(first_chunk_size as int),
                pos == first_chunk_size + (if 1017 * i < rest.len() { 1017 * i } else { rest.len() as int }),
                mt_len == mt.len(),
                header_bytes@.len() == mt.len() + 2 + 8 * i,
                header_bytes@.take(mt.len() as int + 2) == mt + seq![0u8, n as u8],
                partials@.len() == i + 1 - 1,
                hasher_total(*sha),
                mt == mt_bytes(m_type),
                forall|k: int| 1 <= k <= i ==> {
                    &&& (#[trigger] partials@[k - 1])@ == mt + seq![k as u8, n as u8] + chunk(rest, k - 1)
                    &&& hashes_to(
                        *sha,
                        partials@[k - 1]@,
                        crate::hashing::u64_of(slot(header_bytes@, mt.len() as int + 2, k)),
                    )
                },
            decreases n - i,
        {
            let mut part = m_type.as_bytes();
            part.push((i + 1) as u8);
            part.push(n as u8);
            let remaining = total - pos;
            let drain_count = if remaining >= 1017 { 1017 } else { remaining };
            append_range(&mut part, &req_and_data, pos, pos + drain_count);
            proof {
                assert(rest.len() == total - first_chunk_size);
                assert(part@ =~= mt + seq![(i + 1) as u8, n as u8] + chunk(rest, i as int));
            }
            let s = part.as_slice();
            assert(call_requires(*sha, (s,)));
            let hash = sha(s);
            let ghost hb = header_bytes@;
            push_u64_be(&mut header_bytes, hash);
            proof {
                crate::hashing::lemma_u64_of_be(hash);
                assert(slot(header_bytes@, mt.len() as int + 2, i + 1) =~= be_u64(hash));
                assert(hashes_to(*sha, part@, hash));
                assert forall|k: int| 1 <= k <= i implies #[trigger] slot(header_bytes@, mt.len() as int + 2, k) == slot(
                    hb,
                    mt.len() as int + 2,
                    k,
                ) by {
                    assert(slot(header_bytes@, mt.len() as int + 2, k) =~= slot(hb, mt.len() as int + 2, k));
                }
                assert(header_bytes@.take(mt.len() as int + 2) =~= hb.take(mt.len() as int + 2));
            }
            partials.push(part);
            pos = pos + drain_count;
            i += 1;
        }
        let ghost hb = header_bytes@;
        append_range(&mut header_bytes, &req_and_data, 0, first_chunk_size);
        let mut result: Vec<Vec<u8>> = Vec::new();
        result.push(header_bytes);
        let ghost parts = partials@;
        result.append(&mut partials);
        proof {
            assert(result@[0]@.take(mt.len() as int + 2) =~= hb.take(mt.len() as int + 2));
            assert(result@[0]@.skip(mt.len() + 2 + 8 * n) =~= body.take(893 - 8 * n));
            assert forall|k: int| 1 <= k <= n implies #[trigger] slot(result@[0]@, mt.len() as int + 2, k) == slot(
                hb,
                mt.len() as int + 2,
                k,
            ) by {
                assert(slot(result@[0]@, mt.len() as int + 2, k) =~= slot(hb, mt.len() as int + 2, k));
            }
            assert forall|k: int| 1 <= k <= n implies result@[k] == parts[k - 1] by {}
        }
        result
    }
}

/// The bytes of a part after its message type, number and count; `None`
/// where the part is cut short.
pub open spec fn part_payload(p: Seq<u8>) -> Option<Seq<u8>> {
    match parse_mt(p) {
        Some((_, k)) => if p.len() >= k + 2 {
            Some(p.skip((k + 2) as int))
        } else {
            None
        },
        None => None,
    }
}

/// The payloads of parts 1 to `n`, one after the other.
pub open spec fn joined_payloads(parts: Seq<Seq<u8>>, n: nat) -> Seq<u8>
    decreases n,
{
    if n == 0 {
        Seq::empty()
    } else {
        joined_payloads(parts, (n - 1) as nat) + part_payload(parts[n as int])->0
    }
}

/// The message type and body that the parts carry: the header part gives
/// the type and, after its number, count and one hash for each later part,
/// the first bytes of the body; each later part gives the next bytes.
/// `None` where a part is cut short or holds no message type.
pub open spec fn assembled(parts: Seq<Seq<u8>>) -> Option<(SyncMessageType, Seq<u8>)> {
    if parts.len() == 0 {
        None
    } else {
        let n = (parts.len() - 1) as nat;
        match parse_mt(parts[0]) {
            None => None,
            Some((t, k)) => if parts[0].len() < k + 2 + 8 * n || exists|i: int| 1 <= i <= n && #[trigger] part_payload(parts[i]) is None {
                None
            } else {
                Some((t, parts[0].skip((k + 2 + 8 * n) as int) + joined_payloads(parts, n)))
            },
        }
    }
}

/// The `count` pairs of content id and hash written from `start` on.
pub open spec fn pairs_at(b: Seq<u8>, start: int, count: nat) -> Seq<(u16, u64)> {
    Seq::new(count, |i: int| (u16_of(b[start + 10 * i], b[start + 10 * i + 1]), u64_of(b.subrange(start + 10 * i + 2, start + 10 * i + 10))))
}

/// The requirements at the front of a body and how many bytes they take:
/// a count of pairs before, the pairs, a count of pairs after, the pairs.
/// `None` where the body is cut short.
pub open spec fn parse_reqs(b: Seq<u8>) -> Option<(Seq<(u16, u64)>, Seq<(u16, u64)>, nat)> {
    if b.len() < 1 {
        None
    } else {
        let pc = b[0] as nat;
        if b.len() < 2 + 10 * pc {
            None
        } else {
            let qc = b[(1 + 10 * pc) as int] as nat;
            if b.len() < 2 + 10 * (pc + qc) {
                None
            } else {
                Some((pairs_at(b, 1, pc), pairs_at(b, (2 + 10 * pc) as int, qc), (2 + 10 * (pc + qc)) as nat))
            }
        }
    }
}

/// The message the parts carry: its type, requirements before and after,
/// and page bytes (at most 1024). `None` where the parts cannot be read.
pub open spec fn decoded(parts: Seq<Seq<u8>>) -> Option<(SyncMessageType, Seq<(u16, u64)>, Seq<(u16, u64)>, Seq<u8>)> {
    match assembled(parts) {
        None => None,
        Some((t, body)) => match parse_reqs(body) {
            None => None,
            Some((pre, post, k)) => if body.len() - k > 1024 {
                None
            } else {
                Some((t, pre, post, body.skip(k as int)))
            },
        },
    }
}

/// How many bytes the message type at the front of `bytes` takes (see
/// `parse_mt`).
pub fn mt_length(bytes: &Vec<u8>) -> (r: Option<usize>)
    ensures
        r == match parse_mt(bytes@) {
            Some((_, k)) => Some(k as usize),
            None => None::<usize>,
        },
{
    let len = bytes.len();
    if len == 0 {
        return None;
    }
    let h = bytes[0];
    if h == 255 || h == 252 {
        if len >= 3 { Some(3) } else { None }
    } else if h == 254 {
        if len >= 2 { Some(2) } else { None }
    } else if h == 253 {
        if len < 5 {
            return None;
        }
        let op = bytes[4];
        assert(bytes@.skip(4)[0] == op);
        if op == 1 {
            Some(5)
        } else if op == 2 || op == 4 || op == 8 {
            if len >= 7 { Some(7) } else { None }
        } else {
            None
        }
    } else if len >= 5 {
        Some(5)
    } else {
        None
    }
}

/// Reads `count` pairs from `b` at `start`.
fn read_pairs(b: &Vec<u8>, start: usize, count: usize) -> (r: Vec<(ContentID, u64)>)
    requires
        start + 10 * count <= b@.len(),
    ensures
        r@ == pairs_at(b@, start as int, count as nat),
{
    let mut out: Vec<(ContentID, u64)> = Vec::new();
    let blen = b.len();
    let mut i: usize = 0;
    while i < count
        invariant
            start + 10 * count <= b@.len(),
            blen == b@.len(),
            i <= count,
            out@ == pairs_at(b@, start as int, count as nat).take(i as int),
        decreases count - i,
    {
        let at = start + 10 * i;
        let c = u16_from_be(b[at], b[at + 1]);
        let h = read_u64_be(b, at + 2);
        out.push((c, h));
        assert(out@ =~= pairs_at(b@, start as int, count as nat).take(i + 1));
        i += 1;
    }
    assert(out@ =~= pairs_at(b@, start as int, count as nat));
    out
}

impl SyncMessage {
    /// The message carried by parts in order, header part first (see
    /// `decoded`); its page is hashed by `sha`. `Err` where the parts cannot
    /// be read.
    pub fn from_data<H: Fn(&[u8]) -> u64>(parts: &Vec<Vec<u8>>, sha: &H) -> (r: Result<SyncMessage, ()>)
        requires
            hasher_total(*sha),
        ensures
            ({
                let ps = parts@.map_values(|v: Vec<u8>| v@);
                &&& r is Ok <==> decoded(ps) is Some
                &&& r matches Ok(m) ==> {
                    let (t, pre, post, d) = decoded(ps)->0;
                    &&& m.m_type == t
                    &&& m.requirements.pre@ == pre
                    &&& m.requirements.post@ == post
                    &&& m.data.1@ == d
                    &&& hashes_to(*sha, d, m.data.0)
                }
            }),
    {
        let ghost ps = parts@.map_values(|v: Vec<u8>| v@);
        if parts.len() == 0 {
            return Err(());
        }
        let n = parts.len() - 1;
        let header = &parts[0];
        assert(header@ == ps[0]);
        let k = match mt_length(header) {
            Some(k) => k,
            None => {
                return Err(());
            },
        };
        if header.len() < k + 2 || (header.len() - (k + 2)) / 8 < n {
            return Err(());
        }
        assert(8 * n <= header@.len() - (k + 2)) by (nonlinear_arith)
            requires
                (header@.len() - (k + 2)) / 8 >= n,
                header@.len() >= k + 2,
        ;
        let mut hb = header.clone();
        let m_type = SyncMessageType::new(&mut hb);
        let mut body: Vec<u8> = Vec::new();
        append_range(&mut body, header, k + 2 + 8 * n, header.len());
        let mut i: usize = 1;
        while i <= n
            invariant
                n == parts@.len() - 1,
                n < usize::MAX,
                ps == parts@.map_values(|v: Vec<u8>| v@),
                1 <= i <= n + 1,
                forall|j: int| 1 <= j < i ==> #[trigger] part_payload(ps[j]) is Some,
                body@ == ps[0].skip((k + 2 + 8 * n) as int) + joined_payloads(ps, (i - 1) as nat),
            decreases n + 1 - i,
        {
            let p = &parts[i];
            assert(p@ == ps[i as int]);
            let ki = match mt_length(p) {
                Some(x) => x,
                None => {
                    assert(!(decoded(ps) is Some));
                    return Err(());
                },
            };
            if p.len() < ki + 2 {
                assert(part_payload(ps[i as int]) is None);
                return Err(());
            }
            append_range(&mut body, p, ki + 2, p.len());
            assert(body@ =~= ps[0].skip((k + 2 + 8 * n) as int) + joined_payloads(ps, i as nat));
            i += 1;
        }
        assert(assembled(ps) == Some((m_type, body@)));
        let blen = body.len();
        if blen < 1 {
            return Err(());
        }
        let pc = body[0] as usize;
        if blen < 2 + 10 * pc {
            return Err(());
        }
        let qc = body[1 + 10 * pc] as usize;
        if blen < 2 + 10 * (pc + qc) {
            return Err(());
        }
        let pre = read_pairs(&body, 1, pc);
        let post = read_pairs(&body, 2 + 10 * pc, qc);
        let used = 2 + 10 * (pc + qc);
        if blen - used > 1024 {
            return Err(());
        }
        let mut rest: Vec<u8> = Vec::new();
        append_range(&mut rest, &body, used, blen);
        assert(rest@ =~= body@.skip(used as int));
        let data = match Data::new(rest, sha) {
            Ok(d) => d,
            Err(_) => {
                return Err(());
            },
        };
        Ok(SyncMessage { m_type, requirements: SyncRequirements { pre, post }, data })
    }
}

/// The ten bytes of pair `i` in the encoding of pairs.
proof fn lemma_enc_pairs_at(s: Seq<(u16, u64)>, i: int)
    requires
        0 <= i < s.len(),
    ensures
        enc_pairs(s).subrange(10 * i, 10 * i + 10) == be_u16(s[i].0) + be_u64(s[i].1),
        enc_pairs(s).len() == 10 * s.len(),
    decreases s.len(),
{
    lemma_enc_pairs_len(s);
    let f = s.drop_last();
    lemma_enc_pairs_len(f);
    if i < s.len() - 1 {
        lemma_enc_pairs_at(f, i);
        assert(enc_pairs(s).subrange(10 * i, 10 * i + 10) =~= enc_pairs(f).subrange(10 * i, 10 * i + 10));
    } else {
        assert(enc_pairs(s).subrange(10 * i, 10 * i + 10) =~= be_u16(s[i].0) + be_u64(s[i].1));
    }
}

/// Pairs encoded at `start` of `b` are read back.
proof fn lemma_pairs_read_back(b: Seq<u8>, start: int, s: Seq<(u16, u64)>)
    requires
        0 <= start,
        start + 10 * s.len() <= b.len(),
        b.subrange(start, start + 10 * s.len()) == enc_pairs(s),
    ensures
        pairs_at(b, start, s.len()) == s,
{
    assert forall|i: int| 0 <= i < s.len() implies #[trigger] pairs_at(b, start, s.len())[i] == s[i] by {
        lemma_enc_pairs_at(s, i);
        let w = be_u16(s[i].0) + be_u64(s[i].1);
        assert(b.subrange(start + 10 * i, start + 10 * i + 10) =~= w) by {
            assert(enc_pairs(s).subrange(10 * i, 10 * i + 10) =~= b.subrange(start + 10 * i, start + 10 * i + 10));
        }
        assert(b[start + 10 * i] == w[0]);
        assert(b[start + 10 * i + 1] == w[1]);
        assert(w.subrange(2, 10) =~= be_u64(s[i].1));
        assert(b.subrange(start + 10 * i + 2, start + 10 * i + 10) =~= w.subrange(2, 10));
        crate::hashing::lemma_u16_of_be(s[i].0);
        crate::hashing::lemma_u64_of_be(s[i].1);
    }
    assert(pairs_at(b, start, s.len()) =~= s);
}

/// The requirements written before a page are read back, with the number
/// of their bytes, where each list has fewer than 256 pairs.
pub proof fn lemma_reqs_roundtrip(pre: Seq<(u16, u64)>, post: Seq<(u16, u64)>, rest: Seq<u8>)
    requires
        pre.len() < 256,
        post.len() < 256,
    ensures
        parse_reqs(req_bytes(pre, post) + rest) == Some((pre, post, (2 + 10 * (pre.len() + post.len())) as nat)),
{
    let b = req_bytes(pre, post) + rest;
    lemma_enc_pairs_len(pre);
    lemma_enc_pairs_len(post);
    let p = pre.len() as int;
    let q = post.len() as int;
    assert(b[0] == p as u8);
    assert((p as u8) as int == p);
    assert(b[1 + 10 * p] == q as u8);
    assert((q as u8) as int == q);
    assert(b.subrange(1, 1 + 10 * p) =~= enc_pairs(pre));
    assert(b.subrange(2 + 10 * p, 2 + 10 * p + 10 * q) =~= enc_pairs(post));
    lemma_pairs_read_back(b, 1, pre);
    lemma_pairs_read_back(b, 2 + 10 * p, post);
}

/// The payloads of the first `i` later parts, each carrying its chunk of
/// `rest`, join to the first `1017 * i` bytes of `rest`.
proof fn lemma_joined_chunks(ps: Seq<Seq<u8>>, rest: Seq<u8>, i: nat)
    requires
        i < ps.len(),
        forall|j: int| 1 <= j <= i ==> #[trigger] part_payload(ps[j]) == Some(chunk(rest, j - 1)),
    ensures
        joined_payloads(ps, i) == rest.take(if 1017 * i < rest.len() { 1017 * i as int } else { rest.len() as int }),
    decreases i,
{
    if i > 0 {
        lemma_joined_chunks(ps, rest, (i - 1) as nat);
        assert(part_payload(ps[i as int]) == Some(chunk(rest, i - 1)));
        let a = if 1017 * (i - 1) < rest.len() { 1017 * (i - 1) } else { rest.len() as int };
        let e = if 1017 * i < rest.len() { 1017 * i as int } else { rest.len() as int };
        assert(rest.take(a) + rest.subrange(a, e) =~= rest.take(e));
    } else {
        assert(rest.take(0) =~= Seq::<u8>::empty());
    }
}

/// A single part: the type, number and count 0, and the body.
proof fn lemma_single_part(ps: Seq<Seq<u8>>, t: SyncMessageType, body: Seq<u8>)
    requires
        t.canonical(),
        ps.len() == 1,
        ps[0] == mt_bytes(t) + seq![0u8, 0u8] + body,
    ensures
        assembled(ps) == Some((t, body)),
{
    let mt = mt_bytes(t);
    lemma_message_type_roundtrip(t, seq![0u8, 0u8] + body);
    assert(ps[0] =~= mt + (seq![0u8, 0u8] + body));
    assert(joined_payloads(ps, 0) =~= Seq::<u8>::empty());
    assert(ps[0].skip((mt.len() + 2 + 8 * 0) as int) + joined_payloads(ps, 0) =~= body);
}

/// The payload of a later part is its chunk.
proof fn lemma_later_payload(p: Seq<u8>, t: SyncMessageType, j: int, n: int, c: Seq<u8>)
    requires
        t.canonical(),
        p == mt_bytes(t) + seq![j as u8, n as u8] + c,
    ensures
        part_payload(p) == Some(c),
{
    lemma_message_type_roundtrip(t, seq![j as u8, n as u8] + c);
    assert(p =~= mt_bytes(t) + (seq![j as u8, n as u8] + c));
    assert(p.skip(mt_bytes(t).len() as int + 2) =~= c);
}

/// A header part and `n` later parts carrying the body in chunks.
#[verifier::rlimit(40)]
proof fn lemma_many_parts(ps: Seq<Seq<u8>>, t: SyncMessageType, body: Seq<u8>, n: int)
    requires
        t.canonical(),
        1 <= n,
        ps.len() == n + 1,
        893 - 8 * n >= 0,
        body.len() >= 893 - 8 * n,
        body.len() - (893 - 8 * n) <= 1017 * n,
        ps[0].len() == mt_bytes(t).len() + 2 + 8 * n + (893 - 8 * n),
        ps[0].take(mt_bytes(t).len() as int + 2) == mt_bytes(t) + seq![0u8, n as u8],
        ps[0].skip(mt_bytes(t).len() + 2 + 8 * n) == body.take(893 - 8 * n),
        forall|i: int| 1 <= i <= n ==> #[trigger] ps[i] == mt_bytes(t) + seq![i as u8, n as u8] + chunk(
            body.skip(893 - 8 * n),
            i - 1,
        ),
    ensures
        assembled(ps) == Some((t, body)),
{
    let mt = mt_bytes(t);
    let rest = body.skip(893 - 8 * n);
    let h0 = ps[0];
    assert(h0 =~= mt + (seq![0u8, n as u8] + h0.skip(mt.len() as int + 2))) by {
        let l = mt.len() as int + 2;
        assert(h0 =~= h0.take(l) + h0.skip(l));
        assert(h0.take(l) == mt + seq![0u8, n as u8]);
    }
    lemma_message_type_roundtrip(t, seq![0u8, n as u8] + h0.skip(mt.len() as int + 2));
    assert forall|j: int| 1 <= j <= n implies #[trigger] part_payload(ps[j]) == Some(chunk(rest, j - 1)) by {
        lemma_later_payload(ps[j], t, j, n, chunk(rest, j - 1));
    }
    lemma_joined_chunks(ps, rest, n as nat);
    assert(rest.take(rest.len() as int) =~= rest);
    assert(ps[0].skip(mt.len() + 2 + 8 * n) + joined_payloads(ps, n as nat) =~= body);
    assert(!(exists|i: int| 1 <= i <= n && #[trigger] part_payload(ps[i]) is None));
}

/// What `into_parts` makes of a message is read back as the message by
/// `from_data`: its type, requirements and page bytes. This holds where
/// the type is one its bytes name, each list of requirements has fewer than
/// 256 pairs, the page at most 1024 bytes, and the parts after the header
/// part carry all of the body (`into_parts` puts at most 1017 bytes in each
/// of them, and drops what the count of parts leaves beyond that).
pub proof fn lemma_parts_roundtrip<H: Fn(&[u8]) -> u64>(m: SyncMessage, sha: H, parts: Seq<Vec<u8>>)
    requires
        parts_of(m, sha, parts),
        m.m_type.canonical(),
        m.requirements.pre@.len() < 256,
        m.requirements.post@.len() < 256,
        m.data.1@.len() <= 1024,
        m.netto() >= 893 ==> forall|n: int| #[trigger] is_part_count(m.netto(), n) ==> m.netto() - (893 - 8 * n) <= 1017 * n,
        m.netto() <= 893 + 1013 * 111,
    ensures
        decoded(parts.map_values(|v: Vec<u8>| v@)) == Some((m.m_type, m.requirements.pre@, m.requirements.post@, m.data.1@)),
{
    let ps = parts.map_values(|v: Vec<u8>| v@);
    let t = m.m_type;
    let mt = mt_bytes(t);
    let pre = m.requirements.pre@;
    let post = m.requirements.post@;
    let body = body_bytes(&m);
    lemma_enc_pairs_len(pre);
    lemma_enc_pairs_len(post);
    assert(body.len() == m.netto());
    if m.netto() < 893 {
        lemma_single_part(ps, t, body);
    } else {
        let n = choose|n: int| {
            &&& #[trigger] is_part_count(m.netto(), n)
            &&& parts.len() == n + 1
            &&& parts[0]@.len() == mt.len() + 2 + 8 * n + (893 - 8 * n)
            &&& parts[0]@.take(mt.len() as int + 2) == mt + seq![0u8, n as u8]
            &&& parts[0]@.skip(mt.len() + 2 + 8 * n) == body.take(893 - 8 * n)
            &&& forall|i: int| 1 <= i <= n ==> {
                &&& (#[trigger] parts[i])@ == mt + seq![i as u8, n as u8] + chunk(body.skip(893 - 8 * n), i - 1)
                &&& hashes_to(sha, parts[i]@, crate::hashing::u64_of(slot(parts[0]@, mt.len() as int + 2, i)))
            }
        };
        assert(parts_suffice(m.netto(), 111));
        assert(n <= 111);
        assert forall|i: int| 1 <= i <= n implies #[trigger] ps[i] == mt + seq![i as u8, n as u8] + chunk(body.skip(893 - 8 * n), i - 1) by {
            assert(ps[i] == parts[i]@);
        }
        lemma_many_parts(ps, t, body, n);
    }
    lemma_reqs_roundtrip(pre, post, m.data.1@);
    assert(body == req_bytes(pre, post) + m.data.1@);
    let k = (2 + 10 * (pre.len() + post.len())) as nat;
    assert(body.skip(k as int) =~= m.data.1@);
}

} // verus!
