//! Content: either a link to content of another swarm, or typed data held in
//! a content tree of pages.

use vstd::prelude::*;
use std::collections::{HashMap, HashSet};
use crate::data::Data;
use crate::content_tree::{page_data, ContentTree, Page};
use crate::error::AppError;
use crate::hashing::{append_range, be_u16, be_u64, hasher_total, hashes_to, push_u16_be, push_u64_be, u16_from_be, u16_of, u64_of, read_u64_be};
use crate::sync_message::{enc_u16s, decode_u16s, push_u16s};
use vstd::utf8::{encode_utf8, valid_utf8};
use vstd::string::StringSliceAdditionalSpecFns;

verus! {

broadcast use vstd::std_specs::hash::group_hash_axioms;

/// Identifier of a content within a datastore.
pub type ContentID = u16;

/// The type of a content: typed data, or a link.
#[derive(Copy, Clone, Debug, PartialEq, Eq, Structural)]
pub enum DataType {
    Data(u8),
    Link,
}

impl DataType {
    /// The type byte: 255 for a link, the carried byte for data.
    pub open spec fn spec_byte(self) -> u8 {
        match self {
            DataType::Link => 255,
            DataType::Data(v) => v,
        }
    }

    /// The data type a type byte names: 255 names a link.
    pub open spec fn spec_from(val: u8) -> DataType {
        if val == 255 {
            DataType::Link
        } else {
            DataType::Data(val)
        }
    }

    /// The data type is one that its byte names back (all but `Data(255)`).
    pub open spec fn canonical(self) -> bool {
        self != DataType::Data(255)
    }

    pub fn from(val: u8) -> (r: Self)
        ensures
            r == Self::spec_from(val),
    {
        if val == 255 {
            DataType::Link
        } else {
            DataType::Data(val)
        }
    }

    pub fn byte(&self) -> (r: u8)
        ensures
            r == self.spec_byte(),
    {
        match self {
            DataType::Link => 255,
            DataType::Data(val) => *val,
        }
    }

    pub fn is_link(&self) -> (r: bool)
        ensures
            r == (*self == DataType::Link),
    {
        match self {
            DataType::Link => true,
            DataType::Data(_val) => false,
        }
    }
}

/// Reading back the byte of a data type gives the type, for every type but
/// `Data(255)`; reading a byte and writing it again gives the byte.
pub proof fn lemma_data_type_roundtrip(t: DataType, b: u8)
    ensures
        t.canonical() ==> DataType::spec_from(t.spec_byte()) == t,
        DataType::spec_from(b).spec_byte() == b,
        DataType::spec_from(b).canonical(),
{
}


/// Identifier of a broadcast channel in a swarm.
#[derive(Copy, Clone, Debug, PartialEq, Eq, Structural)]
pub struct CastID(pub u8);

/// A swarm's name as it is written in a link: a header byte, then as many
/// bytes as the header counts (the header less 128 when it is 128 or more).
#[derive(Debug)]
pub struct SwarmNameBytes(pub Vec<u8>);

/// How many name bytes follow a swarm name's header byte.
pub open spec fn name_len_of(h: u8) -> nat {
    if h < 128 {
        h as nat
    } else {
        (h - 128) as nat
    }
}

impl SwarmNameBytes {
    /// The bytes are one framed swarm name.
    pub open spec fn framed(&self) -> bool {
        self.0@.len() >= 1 && self.0@.len() == 1 + name_len_of(self.0@[0])
    }

    pub fn as_bytes(&self) -> (r: Vec<u8>)
        ensures
            r@ == self.0@,
    {
        self.0.clone()
    }

    pub fn clone_name(&self) -> (r: Self)
        ensures
            r.0@ == self.0@,
    {
        SwarmNameBytes(self.0.clone())
    }
}

/// Text describing a link, at most 128 bytes of UTF-8.
#[derive(Debug)]
pub struct Description(pub String);

impl Description {
    /// The UTF-8 bytes of the text.
    pub open spec fn spec_bytes(&self) -> Seq<u8> {
        encode_utf8(self.0@)
    }

    /// A description of `text`; texts over 128 bytes are refused.
    pub fn new(text: String) -> (r: Result<Self, ()>)
        ensures
            encode_utf8(text@).len() > 128 <==> r is Err,
            r matches Ok(d) ==> d.0@ == text@,
    {
        if text.as_str().as_bytes().len() > 128 {
            return Err(());
        }
        Ok(Description(text))
    }

    pub fn text(&self) -> (r: String)
        ensures
            r@ == self.0@,
    {
        self.0.clone()
    }

    /// The length byte, then the text's bytes.
    pub fn as_bytes(&self) -> (r: Vec<u8>)
        ensures
            r@ == seq![self.spec_bytes().len() as u8] + self.spec_bytes(),
    {
        let b = self.0.as_str().as_bytes();
        let len = b.len();
        let mut bytes: Vec<u8> = Vec::new();
        bytes.push(len as u8);
        let mut i: usize = 0;
        while i < len
            invariant
                len == b@.len(),
                b@ == self.spec_bytes(),
                i <= len,
                bytes@ == seq![len as u8] + b@.take(i as int),
            decreases len - i,
        {
            bytes.push(b[i]);
            assert(b@.take(i + 1) =~= b@.take(i as int).push(b@[i as int]));
            i += 1;
        }
        assert(b@.take(len as int) =~= b@);
        bytes
    }

    pub fn clone_description(&self) -> (r: Self)
        ensures
            r.0@ == self.0@,
    {
        Description(self.0.clone())
    }
}

/// What is known of a link that is being turned into data: the data's type
/// and size in pages, its root hash, the broadcast carrying it, which parts
/// of its page hashes are missing, the parts of page hashes received (128
/// hashes of 8 bytes each) and the pages received.
#[derive(Debug)]
pub struct TransformInfo {
    pub d_type: DataType,
    pub size: u16,
    pub root_hash: u64,
    pub broadcast_id: CastID,
    pub missing_hashes: HashSet<u16>,
    pub data_hashes: Vec<Data>,
    pub data: HashMap<u16, Data>,
}

/// The missing hash parts that are written out: all of them, or 61 when
/// there are more than 61 (as many as fit beside the other fields).
pub open spec fn written_missing(set: Set<u16>, listed: Seq<u16>) -> bool {
    &&& listed.no_duplicates()
    &&& forall|i: int| 0 <= i < listed.len() ==> set.contains(#[trigger] listed[i])
    &&& listed.len() == missing_listed_len(set)
}

/// How many missing parts are written out of `set`.
pub open spec fn missing_listed_len(set: Set<u16>) -> nat {
    if (set.len() as u16) > 61 {
        61
    } else {
        set.len()
    }
}

/// Bytes of a transform info with the given list of missing parts: type
/// byte, size, root hash, broadcast id, count of missing parts and the
/// parts, then the counts of hash parts and of pages held.
pub open spec fn ti_bytes(ti: &TransformInfo, listed: Seq<u16>) -> Seq<u8> {
    seq![ti.d_type.spec_byte()] + be_u16(ti.size) + be_u64(ti.root_hash) + seq![ti.broadcast_id.0]
        + be_u16(listed.len() as u16) + enc_u16s(listed) + be_u16(ti.data_hashes@.len() as u16)
        + be_u16(ti.data@.len() as u16)
}

/// The fields that `TransformInfo::from` reads from `s`, as
/// `(type, size, root hash, broadcast id, missing parts)`; `None` when `s`
/// is empty, and it panics on bytes cut short (see `ti_parsable`).
pub open spec fn ti_fields(s: Seq<u8>) -> (DataType, u16, u64, u8, Set<u16>) {
    let n = u16_of(s[12], s[13]) as int;
    (
        DataType::spec_from(s[0]),
        u16_of(s[1], s[2]),
        u64_of(s.subrange(3, 11)),
        s[11],
        decode_u16s(s.skip(14), n as nat).to_set(),
    )
}

/// `ti` holds the fields read from `s` (see `ti_fields`), and no page
/// hashes or pages.
pub open spec fn ti_read(ti: &TransformInfo, s: Seq<u8>) -> bool {
    let f = ti_fields(s);
    &&& ti.d_type == f.0
    &&& ti.size == f.1
    &&& ti.root_hash == f.2
    &&& ti.broadcast_id.0 == f.3
    &&& ti.missing_hashes@ == f.4
    &&& ti.data_hashes@.len() == 0
    &&& ti.data@ == Map::<u16, Data>::empty()
}

/// The views of a sequence of pages.
pub open spec fn page_views(s: Seq<Data>) -> Seq<(u64, Seq<u8>)> {
    s.map_values(|d: Data| d@)
}

impl TransformInfo {
    /// Two transform infos hold the same fields, pages compared by view.
    pub open spec fn same_as(&self, o: &TransformInfo) -> bool {
        &&& self.d_type == o.d_type
        &&& self.size == o.size
        &&& self.root_hash == o.root_hash
        &&& self.broadcast_id == o.broadcast_id
        &&& self.missing_hashes@ == o.missing_hashes@
        &&& page_views(self.data_hashes@) == page_views(o.data_hashes@)
        &&& self.data@ == o.data@
    }

    /// A copy of the transform info.
    pub fn clone_info(&self) -> (r: Self)
        ensures
            r.same_as(self),
    {
        let listed = self.what_hashes_are_missing();
        let mut missing: HashSet<u16> = HashSet::new();
        let mut i: usize = 0;
        while i < listed.len()
            invariant
                i <= listed@.len(),
                missing@ == listed@.take(i as int).to_set(),
            decreases listed@.len() - i,
        {
            missing.insert(listed[i]);
            assert(listed@.take(i + 1) =~= listed@.take(i as int).push(listed@[i as int]));
            proof {
                listed@.take(i as int).lemma_push_to_set_commute(listed@[i as int]);
            }
            i += 1;
        }
        assert(listed@.take(listed@.len() as int) =~= listed@);
        let mut hashes: Vec<Data> = Vec::new();
        let mut j: usize = 0;
        while j < self.data_hashes.len()
            invariant
                j <= self.data_hashes@.len(),
                hashes@.len() == j,
                forall|k: int| 0 <= k < j ==> (#[trigger] hashes@[k])@ == self.data_hashes@[k]@,
            decreases self.data_hashes@.len() - j,
        {
            hashes.push(self.data_hashes[j].clone());
            j += 1;
        }
        assert(page_views(hashes@) =~= page_views(self.data_hashes@));
        TransformInfo {
            d_type: self.d_type,
            size: self.size,
            root_hash: self.root_hash,
            broadcast_id: self.broadcast_id,
            missing_hashes: missing,
            data_hashes: hashes,
            data: self.data.clone(),
        }
    }
}

/// The bytes hold every field that `TransformInfo::from` reads.
pub open spec fn ti_parsable(s: Seq<u8>) -> bool {
    s.len() == 0 || (s.len() >= 14 && s.len() >= 14 + 2 * u16_of(s[12], s[13]) + 4)
}

impl TransformInfo {
    /// Reads a transform info from `bytes` (see `ti_fields`): no page
    /// hashes or pages come with it, only their counts, which are skipped.
    pub fn from(bytes: Vec<u8>) -> (r: Option<Self>)
        requires
            ti_parsable(bytes@),
        ensures
            bytes@.len() == 0 <==> r is None,
            r matches Some(ti) ==> ti_read(&ti, bytes@),
    {
        if bytes.len() == 0 {
            return None;
        }
        let d_type = bytes[0];
        let size = u16_from_be(bytes[1], bytes[2]);
        let root_hash = read_u64_be(&bytes, 3);
        let broadcast_id = CastID(bytes[11]);
        let missing_len = u16_from_be(bytes[12], bytes[13]);
        let mut missing_hashes: HashSet<u16> = HashSet::new();
        let mut i: u16 = 0;
        let ghost s = bytes@;
        while i < missing_len
            invariant
                s == bytes@,
                ti_parsable(s),
                s.len() >= 14,
                missing_len == u16_of(s[12], s[13]),
                i <= missing_len,
                missing_hashes@ == decode_u16s(s.skip(14), i as nat).to_set(),
            decreases missing_len - i,
        {
            let p = 14 + 2 * (i as usize);
            let v = u16_from_be(bytes[p], bytes[p + 1]);
            missing_hashes.insert(v);
            proof {
                let d0 = decode_u16s(s.skip(14), i as nat);
                let d1 = decode_u16s(s.skip(14), (i + 1) as nat);
                assert(d1 =~= d0.push(v));
                assert(d1.to_set() =~= d0.to_set().insert(v)) by {
                    assert forall|x: u16| d1.to_set().contains(x) <==> d0.to_set().insert(v).contains(x) by {
                        if d1.to_set().contains(x) {
                            let k = choose|k: int| 0 <= k < d1.len() && d1[k] == x;
                            if k < d0.len() {
                                assert(d0[k] == x);
                            }
                        }
                        if d0.to_set().contains(x) {
                            let k = choose|k: int| 0 <= k < d0.len() && d0[k] == x;
                            assert(d1[k] == x);
                        }
                        if x == v {
                            assert(d1[d0.len() as int] == v);
                        }
                    }
                }
            }
            i += 1;
        }
        let root = root_hash;
        proof {
            assert(s.subrange(3, 11) == s.subrange(3, 3 + 8int));
        }
        Some(
            TransformInfo {
                d_type: DataType::from(d_type),
                size,
                root_hash: root,
                broadcast_id,
                missing_hashes,
                data_hashes: Vec::new(),
                data: HashMap::new(),
            },
        )
    }

    /// The bytes of the transform info (see `ti_bytes`), with at most 61 of
    /// the missing parts written out.
    pub fn bytes(self) -> (r: Vec<u8>)
        ensures
            exists|listed: Seq<u16>| #[trigger] written_missing(self.missing_hashes@, listed) && r@
                == ti_bytes(&self, listed),
    {
        self.to_bytes()
    }

    /// The bytes of the transform info, as `bytes` writes them.
    pub fn to_bytes(&self) -> (r: Vec<u8>)
        ensures
            exists|listed: Seq<u16>| #[trigger] written_missing(self.missing_hashes@, listed) && r@
                == ti_bytes(self, listed),
            r@.len() == 18 + 2 * missing_listed_len(self.missing_hashes@),
    {
        let all = self.what_hashes_are_missing();
        proof {
            all@.unique_seq_to_set();
        }
        let count = self.missing_hashes.len() as u16;
        let mut listed = all;
        if count > 61 {
            listed.truncate(61);
        }
        let mut bytes: Vec<u8> = Vec::new();
        bytes.push(self.d_type.byte());
        push_u16_be(&mut bytes, self.size);
        push_u64_be(&mut bytes, self.root_hash);
        bytes.push(self.broadcast_id.0);
        push_u16_be(&mut bytes, listed.len() as u16);
        push_u16s(&mut bytes, &listed);
        push_u16_be(&mut bytes, self.data_hashes.len() as u16);
        push_u16_be(&mut bytes, self.data.len() as u16);
        proof {
            assert(written_missing(self.missing_hashes@, listed@)) by {
                assert forall|i: int| 0 <= i < listed@.len() implies self.missing_hashes@.contains(
                    #[trigger] listed@[i],
                ) by {
                    assert(all@.contains(all@[i]));
                    assert(listed@[i] == all@[i]);
                }
                assert(listed@.no_duplicates()) by {
                    assert forall|a: int, b: int| 0 <= a < listed@.len() && 0 <= b < listed@.len() && a != b
                        implies listed@[a] != listed@[b] by {
                        assert(listed@[a] == all@[a] && listed@[b] == all@[b]);
                    }
                }
            }
            assert(bytes@ =~= ti_bytes(self, listed@));
            crate::sync_message::lemma_decode_enc_u16s(listed@, Seq::empty());
        }
        bytes
    }

    /// What `add_hash` of part `part_no` makes of `before`: `after`.
    pub open spec fn hash_added(before: &TransformInfo, part_no: u16, data: Data, after: &TransformInfo) -> bool {
        ({
                let m = before.missing_hashes@;
                let dh = before.data_hashes@;
                let dl = dh.len() as u16;
                &&& after.d_type == before.d_type
                &&& after.size == before.size
                &&& after.root_hash == before.root_hash
                &&& after.broadcast_id == before.broadcast_id
                &&& after.data@ == before.data@
                &&& if m.contains(part_no) {
                    &&& after.missing_hashes@ == m.remove(part_no)
                    &&& after.data_hashes@ == if dl > part_no {
                        dh.update(part_no as int, data)
                    } else if dl == part_no {
                        dh.push(data)
                    } else {
                        dh
                    }
                } else if dl < part_no {
                    &&& after.missing_hashes@ == m.union(Set::new(|i: u16| dl <= i < part_no))
                    &&& after.data_hashes@.len() == dh.len() + (part_no - dl)
                    &&& after.data_hashes@.take(dh.len() as int) == dh
                    &&& forall|k: int| dh.len() <= k < after.data_hashes@.len() ==> (
                    #[trigger] after.data_hashes@[k])@ == (0u64, Seq::<u8>::empty())
                } else {
                    &&& after.missing_hashes@ == m
                    &&& after.data_hashes@ == if dl > part_no {
                        dh.update(part_no as int, data)
                    } else {
                        dh.push(data)
                    }
                }
            })
    }

    /// Records a part of page hashes (128 hashes of 8 bytes per part): a
    /// missing part is no longer missing and takes its place (or is
    /// appended, when it is next); a part beyond those held makes the ones in
    /// between missing, with empty pages in their places, and is itself not
    /// kept; a part already held is overwritten, and the next one appended.
    pub fn add_hash(&mut self, part_no: u16, _total_parts: u16, data: Data)
        ensures
            TransformInfo::hash_added(old(self), part_no, data, final(self)),
    {
        let ghost m = self.missing_hashes@;
        let ghost dh = self.data_hashes@;
        if self.missing_hashes.contains(&part_no) {
            self.missing_hashes.remove(&part_no);
            let dh_len = self.data_hashes.len() as u16;
            if dh_len > part_no {
                self.data_hashes.set(part_no as usize, data);
            } else if dh_len == part_no {
                self.data_hashes.push(data);
            }
        } else {
            let current_len = self.data_hashes.len() as u16;
            if current_len < part_no {
                let mut i = current_len;
                while i < part_no
                    invariant
                        current_len <= i <= part_no,
                        current_len == dh.len() as u16,
                        self.missing_hashes@ == m.union(Set::new(|j: u16| current_len <= j < i)),
                        self.data_hashes@.len() == dh.len() + (i - current_len),
                        self.data_hashes@.take(dh.len() as int) == dh,
                        forall|k: int| dh.len() <= k < self.data_hashes@.len() ==> (
                        #[trigger] self.data_hashes@[k])@ == (0u64, Seq::<u8>::empty()),
                        self.d_type == old(self).d_type,
                        self.size == old(self).size,
                        self.root_hash == old(self).root_hash,
                        self.broadcast_id == old(self).broadcast_id,
                        self.data@ == old(self).data@,
                    decreases part_no - i,
                {
                    self.missing_hashes.insert(i);
                    self.data_hashes.push(Data::empty(0));
                    assert(m.union(Set::new(|j: u16| current_len <= j < i + 1)) =~= m.union(
                        Set::new(|j: u16| current_len <= j < i),
                    ).insert(i));
                    assert(self.data_hashes@.take(dh.len() as int) =~= dh);
                    i += 1;
                }
            } else if current_len > part_no {
                self.data_hashes.set(part_no as usize, data);
            } else {
                self.data_hashes.push(data);
            }
        }
    }

    /// What `add_data` of page `part_no` makes of `before`: `after`.
    pub open spec fn data_added(before: &TransformInfo, part_no: u16, total_parts: u16, data: Data, after: &TransformInfo) -> bool {
        ({
                let hid = (part_no / 128) as u16;
                let m = before.missing_hashes@;
                let dh = before.data_hashes@;
                &&& after.size == total_parts
                &&& after.d_type == before.d_type
                &&& after.root_hash == before.root_hash
                &&& after.broadcast_id == before.broadcast_id
                &&& after.data_hashes@ == dh
                &&& if m.contains(hid) {
                    after.missing_hashes@ == m && after.data@ == before.data@.insert(
                        part_no,
                        data,
                    )
                } else if hid >= dh.len() {
                    after.missing_hashes@ == m.union(Set::new(|i: u16| dh.len() <= i <= hid))
                        && after.data@ == before.data@
                } else {
                    let b = dh[hid as int].1@;
                    let hidx = (part_no % 128) * 8;
                    &&& after.missing_hashes@ == m
                    &&& after.data@ == if crate::hashing::u64_of(b.subrange(hidx as int, hidx + 8))
                        == data.0 {
                        before.data@.insert(part_no, data)
                    } else {
                        before.data@
                    }
                }
            })
    }

    /// `add_data` of page `part_no` can be called: a part of page hashes
    /// held for it lists its hash.
    pub open spec fn add_data_ok(&self, part_no: u16) -> bool {
        ({
                let hid = part_no / 128;
                !self.missing_hashes@.contains(hid) && hid < self.data_hashes@.len() ==> self.data_hashes@[hid as int].1@.len() >= (part_no % 128) * 8 + 8
            })
    }

    /// Records page `part_no` of `total_parts` (which becomes the size): kept
    /// when its part of page hashes is missing, or when that part is held and
    /// lists the page's hash; when the part is beyond those held, it and the
    /// parts before it are marked missing and the page is not kept.
    pub fn add_data(&mut self, part_no: u16, total_parts: u16, data: Data)
        requires
            old(self).add_data_ok(part_no),
        ensures
            TransformInfo::data_added(old(self), part_no, total_parts, data, final(self)),
    {
        self.size = total_parts;
        let hash_data_id = part_no >> 7;
        assert(hash_data_id == part_no / 128) by (bit_vector)
            requires
                hash_data_id == part_no >> 7,
        ;
        let ghost m = self.missing_hashes@;
        if self.missing_hashes.contains(&hash_data_id) {
            self.data.insert(part_no, data);
        } else if hash_data_id as usize >= self.data_hashes.len() {
            let mut i = self.data_hashes.len() as u16;
            let ghost start = i;
            assert(start == self.data_hashes@.len());
            while i <= hash_data_id
                invariant
                    start <= i <= hash_data_id + 1,
                    hash_data_id <= 511,
                    start == self.data_hashes@.len(),
                    self.missing_hashes@ == m.union(Set::new(|j: u16| start <= j < i)),
                    self.data_hashes@ == old(self).data_hashes@,
                    self.data@ == old(self).data@,
                    self.size == total_parts,
                    self.d_type == old(self).d_type,
                    self.root_hash == old(self).root_hash,
                    self.broadcast_id == old(self).broadcast_id,
                decreases hash_data_id + 1 - i,
            {
                self.missing_hashes.insert(i);
                assert(m.union(Set::new(|j: u16| start <= j < i + 1)) =~= m.union(
                    Set::new(|j: u16| start <= j < i),
                ).insert(i));
                i += 1;
            }
            assert(Set::new(|j: u16| start <= j < i) =~= Set::new(|j: u16| self.data_hashes@.len() <= j <= hash_data_id));
        } else {
            let hidx = ((part_no % 128) * 8) as usize;
            let b = self.data_hashes[hash_data_id as usize].ref_bytes();
            let hash = read_u64_be(b, hidx);
            if hash == data.get_hash() {
                self.data.insert(part_no, data);
            }
        }
    }

    /// The missing hash parts, each once, in ascending order.
    pub fn what_hashes_are_missing(&self) -> (r: Vec<u16>)
        ensures
            r@.no_duplicates(),
            r@.to_set() == self.missing_hashes@,
            forall|i: int, j: int| 0 <= i < j < r@.len() ==> r@[i] < r@[j],
    {
        let mut res: Vec<u16> = Vec::new();
        let mut i: u32 = 0;
        while i <= 0xffff
            invariant
                i <= 0x10000,
                forall|k: int| 0 <= k < res@.len() ==> (#[trigger] res@[k]) < i,
                forall|a: int, b: int| 0 <= a < b < res@.len() ==> res@[a] < res@[b],
                forall|x: u16| (x as u32) < i ==> (self.missing_hashes@.contains(x) <==> res@.contains(x)),
                forall|k: int| 0 <= k < res@.len() ==> self.missing_hashes@.contains(#[trigger] res@[k]),
            decreases 0x10000 - i,
        {
            let id = i as u16;
            let ghost before = res@;
            if self.missing_hashes.contains(&id) {
                res.push(id);
                assert(res@[res@.len() - 1] == id);
            }
            assert forall|x: u16| (x as u32) < i + 1 implies (self.missing_hashes@.contains(x) <==> res@.contains(x)) by {
                if (x as u32) < i {
                    if before.contains(x) {
                        let k = choose|k: int| 0 <= k < before.len() && before[k] == x;
                        assert(res@[k] == x);
                    }
                    if res@.contains(x) {
                        let k = choose|k: int| 0 <= k < res@.len() && res@[k] == x;
                        if k < before.len() {
                            assert(before[k] == x);
                        }
                    }
                } else {
                    assert(x == id);
                    if self.missing_hashes@.contains(x) {
                        assert(res@[res@.len() - 1] == x);
                    } else if res@.contains(x) {
                        let k = choose|k: int| 0 <= k < res@.len() && res@[k] == x;
                        assert(res@[k] < i);
                    }
                }
            }
            i += 1;
        }
        assert(res@.no_duplicates()) by {
            assert forall|a: int, b: int| 0 <= a < res@.len() && 0 <= b < res@.len() && a != b implies res@[a] != res@[b] by {
                if a < b {
                } else {
                }
            }
        }
        assert(res@.to_set() =~= self.missing_hashes@) by {
            assert forall|x: u16| res@.to_set().contains(x) <==> self.missing_hashes@.contains(x) by {
                assert((x as u32) < 0x10000);
            }
        }
        res
    }

    /// The page indices below `up_to_index` for which no page is held, in
    /// ascending order.
    pub fn what_data_is_missing(&self, up_to_index: u16) -> (r: Vec<u16>)
        ensures
            r@ == Seq::new(up_to_index as nat, |i: int| i as u16).filter(|i: u16| !self.data@.contains_key(i)),
    {
        let mut res: Vec<u16> = Vec::new();
        let mut i: u16 = 0;
        let ghost all = Seq::new(up_to_index as nat, |k: int| k as u16);
        let ghost pred = |k: u16| !self.data@.contains_key(k);
        while i < up_to_index
            invariant
                i <= up_to_index,
                all == Seq::new(up_to_index as nat, |k: int| k as u16),
                pred == |k: u16| !self.data@.contains_key(k),
                res@ == all.take(i as int).filter(pred),
            decreases up_to_index - i,
        {
            reveal_with_fuel(Seq::<_>::filter, 1);
            if self.data.get(&i).is_none() {
                res.push(i);
            }
            assert(all.take(i + 1).drop_last() =~= all.take(i as int));
            i += 1;
        }
        assert(all.take(up_to_index as int) =~= all);
        res
    }
}

/// A content of a datastore: a link to a content of another swarm (its
/// name, the content's id, a description, a page of tags and what is known
/// of its transformation into data), or typed data held in a content tree
/// with the count of its pages that hold bytes.
#[derive(Debug)]
pub enum Content {
    Link(SwarmNameBytes, ContentID, Description, Data, Option<TransformInfo>),
    Data(DataType, u16, ContentTree),
}

/// The `String` whose UTF-8 bytes are `v`, as `String::from_utf8` reads
/// it: none when `v` is not UTF-8.
#[verifier::external_body]
fn string_from_utf8(v: Vec<u8>) -> (r: Option<String>)
    ensures
        r is Some <==> valid_utf8(v@),
        r matches Some(s) ==> encode_utf8(s@) == v@,
{
    String::from_utf8(v).ok()
}

/// The bytes standing for a link's transform info: none is written as a
/// single 0, one as its bytes with the given list of missing parts.
pub open spec fn ti_part(ti: Option<TransformInfo>, listed: Seq<u16>) -> Seq<u8> {
    match ti {
        Some(t) => ti_bytes(&t, listed),
        None => seq![0u8],
    }
}

/// `listed` is a list of missing parts that the transform info writes.
pub open spec fn ti_listed_ok(ti: Option<TransformInfo>, listed: Seq<u16>) -> bool {
    match ti {
        Some(t) => written_missing(t.missing_hashes@, listed),
        None => true,
    }
}

/// How many bytes the transform info part of a link takes.
pub open spec fn ti_part_len(ti: Option<TransformInfo>) -> nat {
    match ti {
        Some(t) => 18 + 2 * missing_listed_len(t.missing_hashes@),
        None => 1,
    }
}

/// Bytes of a link: the length of its page of tags and the tags, the
/// swarm's framed name, the content id, the length of the description and
/// the description, then the transform info part.
pub open spec fn link_bytes(name: Seq<u8>, c_id: u16, descr: Seq<u8>, tags: Seq<u8>, tip: Seq<u8>) -> Seq<u8> {
    seq![tags.len() as u8] + tags + name + be_u16(c_id) + seq![descr.len() as u8] + descr + tip
}

/// How many bytes a link takes.
pub open spec fn link_len(name: Seq<u8>, descr: Seq<u8>, tags: Seq<u8>, ti: Option<TransformInfo>) -> nat {
    1 + tags.len() + name.len() + 2 + 1 + descr.len() + ti_part_len(ti)
}

/// Where the parts of a link start in `s`: the swarm name, the content id,
/// the description's length byte and the transform info part.
pub open spec fn link_offsets(s: Seq<u8>) -> (int, int, int, int) {
    let p1 = 1 + s[0];
    let p2 = p1 + 1 + name_len_of(s[p1]);
    let p3 = p2 + 2;
    let p4 = p3 + 1 + s[p3];
    (p1, p2, p3, p4)
}

/// The bytes read as a link without running out: every part is there, the
/// description is UTF-8 of at most 128 bytes, and a transform info part
/// that does not start with 0 holds every field it is read for. Bytes too
/// short to be a link (fewer than 11) are refused before any of this.
pub open spec fn link_readable(s: Seq<u8>) -> bool {
    let (p1, p2, p3, p4) = link_offsets(s);
    s.len() < 11 || {
        &&& p4 < s.len()
        &&& valid_utf8(s.subrange(p3 + 1, p4))
        &&& p4 - (p3 + 1) <= 128
        &&& s[p4] != 0 ==> ti_parsable(s.skip(p4))
    }
}

/// Writes a link's bytes (see `link_bytes`).
fn write_link(
    s_name: &SwarmNameBytes,
    c_id: ContentID,
    description: &Description,
    tags: &Data,
    ti: &Option<TransformInfo>,
) -> (r: Vec<u8>)
    ensures
        exists|listed: Seq<u16>| #[trigger] ti_listed_ok(*ti, listed) && r@ == link_bytes(
            s_name.0@,
            c_id,
            description.spec_bytes(),
            tags.1@,
            ti_part(*ti, listed),
        ),
        r@.len() == link_len(s_name.0@, description.spec_bytes(), tags.1@, *ti),
{
    let mut v: Vec<u8> = Vec::new();
    v.push(tags.1.len() as u8);
    append_range(&mut v, &tags.1, 0, tags.1.len());
    append_range(&mut v, &s_name.0, 0, s_name.0.len());
    push_u16_be(&mut v, c_id);
    let mut d = description.as_bytes();
    v.append(&mut d);
    let ghost before_ti = v@;
    match ti {
        Some(t) => {
            let mut tb = t.to_bytes();
            let ghost tbv = tb@;
            v.append(&mut tb);
            proof {
                let listed = choose|listed: Seq<u16>| #[trigger] written_missing(t.missing_hashes@, listed)
                    && tbv == ti_bytes(t, listed);
                assert(ti_listed_ok(*ti, listed));
                assert(tags.1@.subrange(0, tags.1@.len() as int) =~= tags.1@);
                assert(s_name.0@.subrange(0, s_name.0@.len() as int) =~= s_name.0@);
                assert(v@ =~= link_bytes(s_name.0@, c_id, description.spec_bytes(), tags.1@, ti_part(*ti, listed)));
            }
        },
        None => {
            v.push(0);
            proof {
                assert(ti_listed_ok(*ti, Seq::empty()));
                assert(tags.1@.subrange(0, tags.1@.len() as int) =~= tags.1@);
                assert(s_name.0@.subrange(0, s_name.0@.len() as int) =~= s_name.0@);
                assert(v@ =~= link_bytes(s_name.0@, c_id, description.spec_bytes(), tags.1@, ti_part(*ti, Seq::empty())));
            }
        },
    }
    v
}

/// The page holding a link's bytes (see `link_bytes`), hashed by `sha`;
/// a link over 1024 bytes does not fit a page.
pub fn link_to_data<H: Fn(&[u8]) -> u64>(
    s_name: SwarmNameBytes,
    c_id: ContentID,
    description: Description,
    data: Data,
    ti: Option<TransformInfo>,
    sha: &H,
) -> (r: Data)
    requires
        hasher_total(*sha),
        link_len(s_name.0@, description.spec_bytes(), data.1@, ti) <= 1024,
    ensures
        exists|listed: Seq<u16>| #[trigger] ti_listed_ok(ti, listed) && r.1@ == link_bytes(
            s_name.0@,
            c_id,
            description.spec_bytes(),
            data.1@,
            ti_part(ti, listed),
        ),
        hashes_to(*sha, r.1@, r.0),
{
    let v = write_link(&s_name, c_id, &description, &data, &ti);
    match Data::new(v, sha) {
        Ok(d) => d,
        Err(_) => {
            assert(false);
            Data::empty(0)
        },
    }
}

/// Reads a link from the bytes of a page (see `link_bytes`); bytes too
/// short to hold a link (fewer than 11) are refused with `Smthg`. A
/// transform info part that starts with 0 reads as no transform info.
pub fn data_to_link<H: Fn(&[u8]) -> u64>(data: Data, sha: &H) -> (r: Result<Content, AppError>)
    requires
        hasher_total(*sha),
        link_readable(data.1@),
    ensures
        ({
            let s = data.1@;
            let (p1, p2, p3, p4) = link_offsets(s);
            &&& s.len() < 11 ==> r == Err::<Content, AppError>(AppError::Smthg)
            &&& s.len() >= 11 ==> (r matches Ok(Content::Link(sn, c, d, tags, ti)) && {
                &&& tags.1@ == s.subrange(1, p1)
                &&& hashes_to(*sha, tags.1@, tags.0)
                &&& sn.0@ == s.subrange(p1, p2)
                &&& c == u16_of(s[p2], s[p2 + 1])
                &&& d.spec_bytes() == s.subrange(p3 + 1, p4)
                &&& (ti is None <==> s[p4] == 0)
                &&& ti matches Some(t) ==> ti_read(&t, s.skip(p4))
            })
        }),
{
    let bytes = data.bytes();
    let len = bytes.len();
    if len < 11 {
        return Err(AppError::Smthg);
    }
    let ghost s = bytes@;
    let d_len = bytes[0] as usize;
    let p1 = 1 + d_len;
    let mut d_bytes: Vec<u8> = Vec::new();
    append_range(&mut d_bytes, &bytes, 1, p1);
    let tags = match Data::new(d_bytes, sha) {
        Ok(d) => d,
        Err(_) => {
            assert(false);
            Data::empty(0)
        },
    };
    let olds_len = bytes[p1];
    let s_len: usize = if olds_len < 128 {
        olds_len as usize
    } else {
        (olds_len - 128) as usize
    };
    let p2 = p1 + 1 + s_len;
    let mut s_bytes: Vec<u8> = Vec::new();
    append_range(&mut s_bytes, &bytes, p1, p2);
    let c_id = u16_from_be(bytes[p2], bytes[p2 + 1]);
    let p3 = p2 + 2;
    let descr_len = bytes[p3] as usize;
    let p4 = p3 + 1 + descr_len;
    let mut descr_vec: Vec<u8> = Vec::new();
    append_range(&mut descr_vec, &bytes, p3 + 1, p4);
    let ti_len = bytes[p4];
    let ti = if ti_len == 0 {
        None
    } else {
        let mut ti_bytes: Vec<u8> = Vec::new();
        append_range(&mut ti_bytes, &bytes, p4, len);
        assert(ti_bytes@ =~= s.skip(p4 as int));
        TransformInfo::from(ti_bytes)
    };
    let text = match string_from_utf8(descr_vec) {
        Some(t) => t,
        None => {
            assert(false);
            String::new()
        },
    };
    let description = match Description::new(text) {
        Ok(d) => d,
        Err(()) => {
            assert(false);
            Description(String::new())
        },
    };
    Ok(Content::Link(SwarmNameBytes(s_bytes), c_id, description, tags, ti))
}

/// Every set of `u16` values is finite.
pub proof fn lemma_u16_set_finite(s: Set<u16>)
    ensures
        s.finite(),
{
    broadcast use vstd::set_lib::full_set_properties;
    assert(Set::<u16>::full().finite());
    vstd::set::axiom_set_intersect_finite(Set::<u16>::full(), s);
    assert(Set::<u16>::full().intersect(s) =~= s);
}

/// A part of page hashes received at an index up to the number of parts
/// held is kept at that index and is not missing afterwards, while every
/// other part held stays as it was: a part leaves the missing set with its
/// bytes in place, and the parts that were there are neither lost nor
/// moved.
pub proof fn lemma_added_hash_is_held(before: &TransformInfo, part_no: u16, data: Data, after: &TransformInfo)
    requires
        TransformInfo::hash_added(before, part_no, data, after),
        before.data_hashes@.len() <= u16::MAX,
        part_no <= before.data_hashes@.len(),
    ensures
        part_no < after.data_hashes@.len(),
        after.data_hashes@[part_no as int] == data,
        !after.missing_hashes@.contains(part_no),
        forall|k: int| 0 <= k < before.data_hashes@.len() && k != part_no ==> after.data_hashes@[k] == before.data_hashes@[k],
        after.data_hashes@.len() == if part_no == before.data_hashes@.len() {
            before.data_hashes@.len() + 1
        } else {
            before.data_hashes@.len()
        },
{
}

/// A part of page hashes received beyond the parts held, and not missing,
/// is not kept: the parts from the first one not held up to it become
/// missing, held as empty pages, and the parts held stay as they were.
pub proof fn lemma_hash_beyond_marks_missing(before: &TransformInfo, part_no: u16, data: Data, after: &TransformInfo)
    requires
        TransformInfo::hash_added(before, part_no, data, after),
        before.data_hashes@.len() < part_no,
        !before.missing_hashes@.contains(part_no),
    ensures
        after.data_hashes@.len() == part_no,
        forall|k: int| 0 <= k < before.data_hashes@.len() ==> after.data_hashes@[k] == before.data_hashes@[k],
        forall|k: int| before.data_hashes@.len() <= k < part_no ==> (#[trigger] after.data_hashes@[k])@ == (0u64, Seq::<u8>::empty()),
        forall|p: u16| #[trigger] after.missing_hashes@.contains(p) <==> (before.missing_hashes@.contains(p) || (
        before.data_hashes@.len() <= p && p < part_no)),
        !after.missing_hashes@.contains(part_no),
{
    let dh = before.data_hashes@;
    assert forall|k: int| 0 <= k < dh.len() implies after.data_hashes@[k] == dh[k] by {
        assert(after.data_hashes@.take(dh.len() as int)[k] == after.data_hashes@[k]);
    }
}

/// A page received while its part of page hashes is missing is kept; a
/// page received while that part is held is kept only when the part lists
/// the page's hash at the page's place, and a page whose part is neither
/// missing nor held is not kept. Either way the page hashes held do not
/// change and the size becomes the total given.
pub proof fn lemma_added_page_is_vouched(
    before: &TransformInfo,
    part_no: u16,
    total_parts: u16,
    data: Data,
    after: &TransformInfo,
)
    requires
        TransformInfo::data_added(before, part_no, total_parts, data, after),
    ensures
        after.size == total_parts,
        after.data_hashes@ == before.data_hashes@,
        before.missing_hashes@.contains((part_no / 128) as u16) ==> after.data@ == before.data@.insert(part_no, data),
        !before.missing_hashes@.contains((part_no / 128) as u16) && after.data@ != before.data@ ==> {
            let listed = before.data_hashes@[(part_no / 128) as int].1@;
            let at = (part_no % 128) * 8;
            &&& part_no / 128 < before.data_hashes@.len()
            &&& crate::hashing::u64_of(listed.subrange(at as int, at + 8)) == data.0
            &&& after.data@ == before.data@.insert(part_no, data)
        },
        part_no / 128 >= before.data_hashes@.len() && !before.missing_hashes@.contains((part_no / 128) as u16)
            ==> after.data@ == before.data@,
{
}

/// Reading back the bytes of a link gives back the link: its swarm name,
/// content id, description and page of tags, and its transform info but
/// for the page hashes and pages, which are not written. This holds when
/// the name is framed, the description is at most 128 bytes, the tags at
/// most 255 bytes, the link at least 11 bytes (shorter bytes are refused as
/// no link), and a transform info has a type whose byte is neither
/// 0 (which reads as no transform info) nor one naming another type, and
/// at most 61 missing parts (more are not all written).
#[verifier::spinoff_prover]
#[verifier::rlimit(40)]
pub proof fn lemma_link_roundtrip(
    s_name: SwarmNameBytes,
    c_id: ContentID,
    description: Description,
    tags: Seq<u8>,
    ti: Option<TransformInfo>,
    listed: Seq<u16>,
)
    requires
        s_name.framed(),
        description.spec_bytes().len() <= 128,
        tags.len() <= 255,
        link_len(s_name.0@, description.spec_bytes(), tags, ti) >= 11,
        ti_listed_ok(ti, listed),
        ti matches Some(t) ==> t.d_type.spec_byte() != 0 && t.d_type.canonical()
            && t.missing_hashes@.len() <= 61,
    ensures
        ({
            let s = link_bytes(s_name.0@, c_id, description.spec_bytes(), tags, ti_part(ti, listed));
            let (p1, p2, p3, p4) = link_offsets(s);
            &&& s.len() >= 11
            &&& link_readable(s)
            &&& s.subrange(1, p1) == tags
            &&& s.subrange(p1, p2) == s_name.0@
            &&& u16_of(s[p2], s[p2 + 1]) == c_id
            &&& s.subrange(p3 + 1, p4) == description.spec_bytes()
            &&& (ti is None <==> s[p4] == 0)
            &&& ti matches Some(t) ==> {
                let f = ti_fields(s.skip(p4));
                &&& f.0 == t.d_type
                &&& f.1 == t.size
                &&& f.2 == t.root_hash
                &&& f.3 == t.broadcast_id.0
                &&& f.4 == t.missing_hashes@
            }
        }),
{
    let name = s_name.0@;
    let descr = description.spec_bytes();
    let tip = ti_part(ti, listed);
    let s = link_bytes(name, c_id, descr, tags, tip);
    let (p1, p2, p3, p4) = link_offsets(s);
    vstd::utf8::encode_utf8_valid_utf8(description.0@);
    assert(s[0] == tags.len());
    assert(p1 == 1 + tags.len());
    assert(s[p1] == name[0]);
    assert(p2 == p1 + name.len());
    crate::hashing::lemma_u16_of_be(c_id);
    assert(s[p2] == be_u16(c_id)[0] && s[p2 + 1] == be_u16(c_id)[1]);
    assert(s[p3] == descr.len());
    assert(p4 == p3 + 1 + descr.len());
    assert(s.subrange(1, p1) =~= tags);
    assert(s.subrange(p1, p2) =~= name);
    assert(s.subrange(p3 + 1, p4) =~= descr);
    assert(s.skip(p4) =~= tip);
    match ti {
        Some(t) => {
            let n = listed.len();
            assert(s[p4] == t.d_type.spec_byte());
            crate::sync_message::lemma_decode_enc_u16s(listed, be_u16(t.data_hashes@.len() as u16) + be_u16(t.data@.len() as u16));
            crate::hashing::lemma_u16_of_be(t.size);
            crate::hashing::lemma_u16_of_be(n as u16);
            crate::hashing::lemma_u64_of_be(t.root_hash);
            assert(listed.no_duplicates());
            listed.unique_seq_to_set();
            assert(n == t.missing_hashes@.len());
            assert(listed.to_set() =~= t.missing_hashes@) by {
                assert forall|x: u16| listed.to_set().contains(x) implies t.missing_hashes@.contains(x) by {
                    let k = choose|k: int| 0 <= k < listed.len() && listed[k] == x;
                    assert(t.missing_hashes@.contains(listed[k]));
                }
                lemma_u16_set_finite(t.missing_hashes@);
                vstd::set_lib::lemma_subset_equality(listed.to_set(), t.missing_hashes@);
            }
            let ts = s.skip(p4);
            assert(ts.subrange(3, 11) =~= be_u64(t.root_hash));
            assert(ts.skip(14) =~= enc_u16s(listed) + be_u16(t.data_hashes@.len() as u16) + be_u16(
                t.data@.len() as u16,
            ));
            assert(ti_parsable(ts));
            assert(ts.len() >= 14);
            assert(ts[0] == t.d_type.spec_byte());
            assert(ti_fields(ts).0 == t.d_type);
            assert(ti_fields(ts).1 == t.size);
            assert(ti_fields(ts).2 == t.root_hash);
            assert(ti_fields(ts).3 == t.broadcast_id.0);
            assert(u16_of(ts[12], ts[13]) == n);
            assert(decode_u16s(ts.skip(14), n) == listed);
            assert(ti_fields(ts).4 == t.missing_hashes@);
            assert(s.len() >= 11);
            assert(p4 < s.len());
            assert(link_readable(s));
        },
        None => {
            assert(s.len() >= 11);
            assert(link_readable(s));
        },
    }
}

/// `r` is what reading a link from the bytes `s` gives (see `data_to_link`).
pub open spec fn link_read_from<H: Fn(&[u8]) -> u64>(r: Result<Content, AppError>, s: Seq<u8>, sha: H) -> bool {
    let (p1, p2, p3, p4) = link_offsets(s);
    &&& s.len() < 11 ==> r == Err::<Content, AppError>(AppError::Smthg)
    &&& s.len() >= 11 ==> (r matches Ok(Content::Link(sn, c, d, tags, ti)) && {
        &&& tags.1@ == s.subrange(1, p1)
        &&& hashes_to(sha, tags.1@, tags.0)
        &&& sn.0@ == s.subrange(p1, p2)
        &&& c == u16_of(s[p2], s[p2 + 1])
        &&& d.spec_bytes() == s.subrange(p3 + 1, p4)
        &&& (ti is None <==> s[p4] == 0)
        &&& ti matches Some(t) ==> ti_read(&t, s.skip(p4))
    })
}

/// A link read from bytes takes no more bytes than were read: at most
/// 1024 when the bytes fit a page.
pub proof fn lemma_read_link_fits<H: Fn(&[u8]) -> u64>(c: Content, s: Seq<u8>, sha: H)
    requires
        link_readable(s),
        s.len() <= 1024,
        link_read_from(Ok::<Content, AppError>(c), s, sha),
    ensures
        c.link_fits(),
{
    let (p1, p2, p3, p4) = link_offsets(s);
    if let Content::Link(sn, cid, d, tags, ti) = c {
        assert(s.len() >= 11);
        assert(tags.1@.len() == p1 - 1);
        assert(sn.0@.len() == p2 - p1);
        assert(d.spec_bytes().len() == p4 - p3 - 1);
        match ti {
            Some(t) => {
                let ts = s.skip(p4);
                let n = u16_of(ts[12], ts[13]) as nat;
                let ids = decode_u16s(ts.skip(14), n);
                assert(ti_parsable(ts));
                ids.lemma_cardinality_of_set();
                assert(t.missing_hashes@ == ids.to_set());
                assert(missing_listed_len(t.missing_hashes@) <= n);
            },
            None => {},
        }
        assert(link_len(sn.0@, d.spec_bytes(), tags.1@, ti) <= s.len());
    }
}

impl Content {
    /// The content's type: a link, or the type of its data.
    pub open spec fn spec_data_type(&self) -> DataType {
        match self {
            Content::Link(..) => DataType::Link,
            Content::Data(dt, _, _) => *dt,
        }
    }

    /// The number of pages as `len` reports it.
    pub open spec fn spec_len(&self) -> u16 {
        match self {
            Content::Link(_, _, _, _, ti) => match ti {
                Some(t) => t.size,
                None => 0,
            },
            Content::Data(_, _, tree) => tree.spec_len() as u16,
        }
    }

    /// `self` is what `shell` makes of `orig`.
    pub open spec fn shell_of(&self, orig: Content) -> bool {
        match orig {
            Content::Link(sn, c, d, t, ti) => *self matches Content::Link(sn2, c2, d2, t2, ti2) && sn2.0@ == sn.0@
                && c2 == c && d2.0@ == d.0@ && t2@ == t@ && match ti {
                Some(x) => ti2 matches Some(y) && y.same_as(&x),
                None => ti2 is None,
            },
            Content::Data(dt, mem, tree) => *self matches Content::Data(dt2, mem2, tree2) && dt2 == dt && mem2
                == mem && tree2.mirrors(tree) && tree2.leaves().len() == tree.leaves().len() && forall|i: int|
                0 <= i < tree2.leaves().len() ==> #[trigger] tree2.leaves()[i] == crate::content_tree::blank(
                tree.leaves()[i],
            ),
        }
    }

    /// `h` is a hash of the content: of a link's page, or at its tree's root.
    pub open spec fn hashes_to<H: Fn(&[u8]) -> u64>(&self, sha: H, h: u64) -> bool {
        match self {
            Content::Link(..) => exists|b: Seq<u8>| #[trigger] self.link_page(b) && hashes_to(sha, b, h),
            Content::Data(_, _, tree) => h == tree.root_hash(),
        }
    }

    /// A link's bytes fit in a page; data always does.
    pub open spec fn link_fits(&self) -> bool {
        match self {
            Content::Link(sn, _, d, t, ti) => link_len(sn.0@, d.spec_bytes(), t.1@, *ti) <= 1024,
            Content::Data(..) => true,
        }
    }

    /// `bytes` are the bytes of this link, for some list of written missing parts.
    pub open spec fn link_page(&self, bytes: Seq<u8>) -> bool {
        match self {
            Content::Link(sn, c, d, t, ti) => exists|listed: Seq<u16>| #[trigger] ti_listed_ok(*ti, listed)
                && bytes == link_bytes(sn.0@, *c, d.spec_bytes(), t.1@, ti_part(*ti, listed)),
            Content::Data(..) => false,
        }
    }

    /// The tree of a data content is well shaped.
    pub open spec fn shape_ok(&self) -> bool {
        match self {
            Content::Data(_, _, t) => t.wf_shape(),
            Content::Link(..) => true,
        }
    }

    /// A content of type `d_type` read from a page: a link read from its
    /// bytes, or data holding the page (no page, when it is empty, but its
    /// hash). The type byte 255 of data names a link type.
    pub fn from<H: Fn(&[u8]) -> u64>(d_type: DataType, data: Data, sha: &H) -> (r: Result<Self, AppError>)
        requires
            hasher_total(*sha),
            d_type == DataType::Link ==> link_readable(data.1@),
        ensures
            match d_type {
                DataType::Link => link_read_from(r, data.1@, *sha),
                DataType::Data(o) => r matches Ok(Content::Data(dt, mem, tree)) && dt == DataType::spec_from(o)
                    && (data.1@.len() == 0 ==> mem == 0 && tree == ContentTree::Empty(data.0)) && (
                data.1@.len() > 0 ==> mem == 1 && tree == ContentTree::Filled(data)),
            },
    {
        let d_hash = data.get_hash();
        let data_empty = data.is_empty();
        match d_type {
            DataType::Link => data_to_link(data, sha),
            DataType::Data(other) => {
                if data_empty {
                    Ok(Content::Data(DataType::from(other), 0, ContentTree::empty(d_hash)))
                } else {
                    Ok(Content::Data(DataType::from(other), 1, ContentTree::new(data)))
                }
            },
        }
    }

    /// The tags of a link: its page of tags without the first byte.
    pub fn tag_ids(&self) -> (r: Vec<u8>)
        ensures
            match self {
                Content::Link(_, _, _, t, _) => if t.1@.len() == 0 {
                    r@ == Seq::<u8>::empty()
                } else {
                    r@ == t.1@.skip(1)
                },
                Content::Data(..) => r@ == Seq::<u8>::empty(),
            },
    {
        match self {
            Content::Link(_sn, _c, _descr, d_tags, _ti) => {
                if d_tags.is_empty() {
                    return Vec::new();
                }
                let mut t_bytes: Vec<u8> = Vec::new();
                append_range(&mut t_bytes, &d_tags.1, 1, d_tags.1.len());
                assert(t_bytes@ =~= d_tags.1@.skip(1));
                t_bytes
            },
            Content::Data(_d_type, _mem, _ct) => Vec::new(),
        }
    }

    pub fn description(&self) -> (r: String)
        ensures
            match self {
                Content::Link(_, _, d, _, _) => r@ == d.0@,
                Content::Data(..) => r@ == Seq::<char>::empty(),
            },
    {
        match self {
            Content::Link(_sn, _c, descr, _tags, _ti) => descr.text(),
            Content::Data(_d_type, _mem, _ct) => String::new(),
        }
    }

    pub fn data_type(&self) -> (r: DataType)
        ensures
            match self {
                Content::Link(..) => r == DataType::Link,
                Content::Data(dt, _, _) => r == *dt,
            },
    {
        match self {
            Content::Link(_sn, _c, _descr, _tags, _ti) => DataType::Link,
            Content::Data(d_type, _mem, _ct) => *d_type,
        }
    }

    /// The number of pages: of the tree, or as the transform info of a link
    /// announces (0 without one).
    pub fn len(&self) -> (r: u16)
        ensures
            match self {
                Content::Link(_, _, _, _, ti) => r == match ti {
                    Some(t) => t.size,
                    None => 0,
                },
                Content::Data(_, _, tree) => r == tree.spec_len(),
            },
    {
        match self {
            Content::Link(_sn, _c, _descr, _data, ti) => {
                match ti {
                    Some(t) => t.size,
                    None => 0,
                }
            },
            Content::Data(_d_type, _mem, content_tree) => content_tree.len(),
        }
    }

    /// The page of a link; data is handed back as the error.
    pub fn to_data<H: Fn(&[u8]) -> u64>(self, sha: &H) -> (r: Result<Data, Self>)
        requires
            hasher_total(*sha),
            self.link_fits(),
        ensures
            match self {
                Content::Link(..) => r matches Ok(d) && self.link_page(d.1@) && hashes_to(*sha, d.1@, d.0),
                Content::Data(..) => r == Err::<Data, Self>(self),
            },
    {
        match self {
            Content::Link(s_name, c_id, descr, data, ti_opt) => {
                let ghost old_self = Content::Link(s_name, c_id, descr, data, ti_opt);
                let d = link_to_data(s_name, c_id, descr, data, ti_opt, sha);
                proof {
                    let listed = choose|listed: Seq<u16>| #[trigger] ti_listed_ok(ti_opt, listed) && d.1@ == link_bytes(
                        s_name.0@,
                        c_id,
                        descr.spec_bytes(),
                        data.1@,
                        ti_part(ti_opt, listed),
                    );
                    assert(old_self.link_page(d.1@));
                }
                Ok(d)
            },
            other => Err(other),
        }
    }

    /// The page at `data_id`: of the tree, or the link's own page at 0.
    pub fn read_data<H: Fn(&[u8]) -> u64>(&self, data_id: u16, sha: &H) -> (r: Result<Data, AppError>)
        requires
            hasher_total(*sha),
            self.link_fits(),
            self.shape_ok(),
        ensures
            match self {
                Content::Link(..) => if data_id == 0 {
                    r matches Ok(d) && self.link_page(d.1@) && hashes_to(*sha, d.1@, d.0)
                } else {
                    r == Err::<Data, AppError>(AppError::IndexingError)
                },
                Content::Data(_, _, tree) => {
                    &&& data_id < tree.leaves().len() ==> (r matches Ok(d) && d@ == page_data(
                        tree.leaves()[data_id as int],
                    ))
                    &&& data_id >= tree.leaves().len() ==> r == Err::<Data, AppError>(AppError::IndexingError)
                },
            },
    {
        match self {
            Content::Link(s_name, c_id, descr, data, ti) => {
                if data_id == 0 {
                    let v = write_link(s_name, *c_id, descr, data, ti);
                    match Data::new(v, sha) {
                        Ok(d) => Ok(d),
                        Err(_) => {
                            assert(false);
                            Err(AppError::Smthg)
                        },
                    }
                } else {
                    Err(AppError::IndexingError)
                }
            },
            Content::Data(_type, _mem, c_tree) => c_tree.read(data_id),
        }
    }

    /// A page held by a link's transform info, with the announced size.
    pub fn read_link_data(&self, d_type: DataType, data_id: u16) -> (r: Result<(Data, u16), AppError>)
        ensures
            match self {
                Content::Link(_, _, _, _, ti) => match ti {
                    Some(t) => if d_type == t.d_type {
                        if t.data@.contains_key(data_id) {
                            r matches Ok((d, n)) && d@ == t.data@[data_id]@ && n == t.size
                        } else {
                            r == Err::<(Data, u16), AppError>(AppError::IndexingError)
                        }
                    } else {
                        r == Err::<(Data, u16), AppError>(AppError::DatatypeMismatch)
                    },
                    None => r == Err::<(Data, u16), AppError>(AppError::LinkNonTransformative),
                },
                Content::Data(..) => r == Err::<(Data, u16), AppError>(AppError::DatatypeMismatch),
            },
    {
        match self {
            Content::Link(_s_name, _c_id, _descr, _data, ti) => {
                match ti {
                    Some(t) => {
                        if d_type == t.d_type {
                            match t.data.get(&data_id) {
                                Some(data) => Ok((data.clone(), t.size)),
                                None => Err(AppError::IndexingError),
                            }
                        } else {
                            Err(AppError::DatatypeMismatch)
                        }
                    },
                    None => Err(AppError::LinkNonTransformative),
                }
            },
            Content::Data(..) => Err(AppError::DatatypeMismatch),
        }
    }

    /// Puts `content` in place of this content and returns the old one.
    pub fn update(&mut self, content: Content) -> (r: Content)
        ensures
            r == *old(self),
            *final(self) == content,
    {
        let mut c = content;
        std::mem::swap(self, &mut c);
        c
    }

    /// What `push_data` of `data` does: `before` becomes `after` and `r` is returned.
    pub open spec fn pushed<H: Fn(&[u8]) -> u64>(before: Content, data: Data, sha: H, after: Content, r: Result<u64, AppError>) -> bool {
            match before {
                Content::Link(..) => r == Err::<u64, AppError>(AppError::DatatypeMismatch) && after
                    == before,
                Content::Data(dt, mem, tree) => after matches Content::Data(dt2, mem2, tree2) && dt2
                    == dt && (tree.is_full() ==> r == Err::<u64, AppError>(AppError::ContentFull) && tree2
                    == tree && mem2 == mem) && (!tree.is_full() ==> {
                    &&& r == Ok::<u64, AppError>(tree2.root_hash())
                    &&& tree2.pages() == tree.pages_after_append(data@)
                    &&& tree2.hashes_ok(sha)
                    &&& tree.append_keeps_shape(data@) ==> tree2.wf_shape()
                    &&& mem2 == mem + if data.1@.len() > 0 { 1int } else { 0int }
                }),
            }
    }

    /// `push_data` of `data` can be called on this content.
    pub open spec fn push_ok<H: Fn(&[u8]) -> u64>(&self, data: Data, sha: H) -> bool {
        &&& (hasher_total(sha))
        &&& (*self matches Content::Data(_, mem, tree) ==> tree.wf_shape() && tree.hashes_ok(sha) && (
            data.1@.len() > 0 && !tree.is_full() ==> mem < u16::MAX))
    }

    /// Appends a page to the tree of a data content (see
    /// `ContentTree::append`), counting it when it holds bytes.
    pub fn push_data<H: Fn(&[u8]) -> u64>(&mut self, data: Data, sha: &H) -> (r: Result<u64, AppError>)
        requires
            hasher_total(*sha),
            *old(self) matches Content::Data(_, mem, tree) ==> tree.wf_shape() && tree.hashes_ok(*sha) && (
            data.1@.len() > 0 && !tree.is_full() ==> mem < u16::MAX),
        ensures
            Content::pushed(*old(self), data, *sha, *final(self), r),
    {
        let mut cur = Content::Data(DataType::Data(0), 0, ContentTree::Empty(0));
        std::mem::swap(self, &mut cur);
        match cur {
            Content::Data(dt, mem, mut tree) => {
                let empty = data.is_empty();
                let res = tree.append(data, sha);
                let new_mem = if !empty && res.is_ok() { mem + 1 } else { mem };
                *self = Content::Data(dt, new_mem, tree);
                res
            },
            other => {
                *self = other;
                Err(AppError::DatatypeMismatch)
            },
        }
    }

    /// What `pop_data` does: `before` becomes `after` and `r` is returned.
    pub open spec fn popped<H: Fn(&[u8]) -> u64>(before: Content, sha: H, after: Content, r: Result<Data, AppError>) -> bool {
            match before {
                Content::Link(..) => r == Err::<Data, AppError>(AppError::DatatypeMismatch) && after
                    == before,
                Content::Data(dt, mem, tree) => if tree.is_void() {
                    r == Err::<Data, AppError>(AppError::ContentEmpty) && after == before
                } else {
                    after matches Content::Data(dt2, mem2, tree2) && dt2 == dt && (r matches Ok(d)
                        && d@ == page_data(tree.pages().last()) && tree2.pages() == tree.pages().drop_last()
                        && tree2.wf(sha) && mem2 == mem - if d.1@.len() > 0 { 1int } else { 0int })
                },
            }
    }

    /// `pop_data` can be called on this content.
    pub open spec fn pop_ok<H: Fn(&[u8]) -> u64>(&self, sha: H) -> bool {
        &&& (hasher_total(sha))
        &&& (*self matches Content::Data(_, mem, tree) ==> tree.wf(sha) && (!tree.is_void()
                && tree.pages().last().bytes.len() > 0 ==> mem > 0))
    }

    /// Removes the last page of the tree of a data content, uncounting it
    /// when it held bytes; an empty tree gives `ContentEmpty`.
    pub fn pop_data<H: Fn(&[u8]) -> u64>(&mut self, sha: &H) -> (r: Result<Data, AppError>)
        requires
            hasher_total(*sha),
            *old(self) matches Content::Data(_, mem, tree) ==> tree.wf(*sha) && (!tree.is_void()
                && tree.pages().last().bytes.len() > 0 ==> mem > 0),
        ensures
            Content::popped(*old(self), *sha, *final(self), r),
    {
        let mut cur = Content::Data(DataType::Data(0), 0, ContentTree::Empty(0));
        std::mem::swap(self, &mut cur);
        match cur {
            Content::Data(dt, mem, mut tree) => {
                if tree.is_empty() {
                    *self = Content::Data(dt, mem, tree);
                    return Err(AppError::ContentEmpty);
                }
                let res = tree.pop(sha);
                let new_mem = match &res {
                    Ok(d) => if !d.is_empty() { mem - 1 } else { mem },
                    Err(_) => mem,
                };
                *self = Content::Data(dt, new_mem, tree);
                res
            },
            other => {
                *self = other;
                Err(AppError::DatatypeMismatch)
            },
        }
    }

    /// What `insert` of `data` at `d_id` does: `before` becomes `after` and `r` is returned.
    pub open spec fn page_inserted<H: Fn(&[u8]) -> u64>(before: Content, d_id: u16, data: Data, sha: H, after: Content, r: Result<u64, AppError>) -> bool {
            match before {
                Content::Link(..) => r == Err::<u64, AppError>(AppError::DatatypeMismatch) && after
                    == before,
                Content::Data(dt, mem, tree) => after matches Content::Data(dt2, mem2, tree2) && dt2
                    == dt && ContentTree::inserted(tree, d_id, data, sha, tree2, r) && mem2 == mem + if data.1@.len()
                    > 0 && r is Ok {
                    1int
                } else {
                    0int
                },
            }
    }

    /// `insert` of `data` at `d_id` can be called on this content.
    pub open spec fn insert_ok<H: Fn(&[u8]) -> u64>(&self, d_id: u16, data: Data, sha: H) -> bool {
        &&& (hasher_total(sha))
        &&& (*self matches Content::Data(_, mem, tree) ==> tree.wf(sha) && tree.insert_ok(d_id)
                && tree.spec_len() < u16::MAX && (data.1@.len() > 0 ==> mem < u16::MAX))
    }

    /// Inserts page `data` at `d_id` into the tree of a data content (see
    /// `ContentTree::insert`), counting it when it holds bytes.
    pub fn insert<H: Fn(&[u8]) -> u64>(&mut self, d_id: u16, data: Data, sha: &H) -> (r: Result<u64, AppError>)
        requires
            hasher_total(*sha),
            *old(self) matches Content::Data(_, mem, tree) ==> tree.wf(*sha) && tree.insert_ok(d_id)
                && tree.spec_len() < u16::MAX && (data.1@.len() > 0 ==> mem < u16::MAX),
        ensures
            Content::page_inserted(*old(self), d_id, data, *sha, *final(self), r),
    {
        let mut cur = Content::Data(DataType::Data(0), 0, ContentTree::Empty(0));
        std::mem::swap(self, &mut cur);
        match cur {
            Content::Data(dt, mem, mut tree) => {
                let empty = data.is_empty();
                let ghost before = tree;
                let ghost d = data;
                let res = tree.insert(d_id, data, sha);
                assert(ContentTree::inserted(before, d_id, d, *sha, tree, res));
                let new_mem = if !empty && res.is_ok() { mem + 1 } else { mem };
                *self = Content::Data(dt, new_mem, tree);
                res
            },
            other => {
                *self = other;
                Err(AppError::DatatypeMismatch)
            },
        }
    }

    /// Copies of the fields of a link.
    pub fn link_params(&self) -> (r: Option<(SwarmNameBytes, ContentID, Description, Data, Option<TransformInfo>)>)
        ensures
            match self {
                Content::Link(sn, c, d, t, ti) => r matches Some((sn2, c2, d2, t2, ti2)) && sn2.0@ == sn.0@ && c2
                    == *c && d2.0@ == d.0@ && t2@ == t@ && match ti {
                    Some(x) => ti2 matches Some(y) && y.same_as(x),
                    None => ti2 is None,
                },
                Content::Data(..) => r is None,
            },
    {
        match self {
            Content::Link(s_name, c_id, descr, data, ti_opt) => {
                let ti2 = match ti_opt {
                    Some(t) => Some(t.clone_info()),
                    None => None,
                };
                Some((s_name.clone_name(), *c_id, descr.clone_description(), data.clone(), ti2))
            },
            Content::Data(..) => None,
        }
    }

    /// What `update_data` of page `data_id` by `data` does: `before` becomes `after` and `r` is returned.
    pub open spec fn data_updated<H: Fn(&[u8]) -> u64>(before: Content, data_id: u16, data: Data, sha: H, after: Content, r: Result<Data, AppError>) -> bool {
            match before {
                Content::Link(sn, c, d, t, ti) => if data_id == 0 {
                    if data.1@.len() < 11 {
                        r == Err::<Data, AppError>(AppError::Smthg) && after == before
                    } else {
                        &&& r matches Ok(pg) && before.link_page(pg.1@) && hashes_to(sha, pg.1@, pg.0)
                        &&& link_read_from(Ok::<Content, AppError>(after), data.1@, sha)
                    }
                } else if data_id == 1 {
                    &&& r matches Ok(pg) && before.link_page(pg.1@) && hashes_to(sha, pg.1@, pg.0)
                    &&& after == Content::Link(sn, c, d, data, ti)
                } else {
                    r == Err::<Data, AppError>(AppError::IndexingError) && after == Content::Link(
                        sn,
                        c,
                        d,
                        data,
                        ti,
                    )
                },
                Content::Data(dt, mem, tree) => after matches Content::Data(dt2, mem2, tree2) && dt2
                    == dt && ContentTree::replaced(tree, data_id, data, sha, tree2, r) && mem2 == mem + match r {
                    Ok(od) => if od.1@.len() == 0 && data.1@.len() > 0 {
                        1int
                    } else if od.1@.len() > 0 && data.1@.len() == 0 {
                        -1int
                    } else {
                        0int
                    },
                    Err(_) => 0int,
                },
            }
    }

    /// `update_data` of page `data_id` by `data` can be called on this content.
    pub open spec fn update_data_ok<H: Fn(&[u8]) -> u64>(&self, data_id: u16, data: Data, sha: H) -> bool {
        &&& (hasher_total(sha))
        &&& (self.link_fits())
        &&& (*self is Link && data_id == 0 ==> link_readable(data.1@))
        &&& (*self matches Content::Data(_, mem, tree) ==> tree.wf(sha) && (data_id < tree.leaves().len() ==> {
                let p = tree.leaves()[data_id as int];
                &&& (p.bytes.len() == 0 || !p.stored) && data.1@.len() > 0 ==> mem < u16::MAX
                &&& p.bytes.len() > 0 && data.1@.len() == 0 ==> mem > 0
            }))
    }

    /// Replaces page `data_id`. In a data content's tree (see
    /// `ContentTree::replace`) the count of pages with bytes follows. For a
    /// link, page 0 is the link itself: a link read from `data` takes its
    /// place; page 1 is its page of tags, which `data` replaces; either way
    /// the old link's page is returned. Any other page of a link gives
    /// `IndexingError`, and `data` still becomes its page of tags.
    pub fn update_data<H: Fn(&[u8]) -> u64>(&mut self, data_id: u16, data: Data, sha: &H) -> (r: Result<Data, AppError>)
        requires
            hasher_total(*sha),
            old(self).link_fits(),
            *old(self) is Link && data_id == 0 ==> link_readable(data.1@),
            *old(self) matches Content::Data(_, mem, tree) ==> tree.wf(*sha) && (data_id < tree.leaves().len() ==> {
                let p = tree.leaves()[data_id as int];
                &&& (p.bytes.len() == 0 || !p.stored) && data.1@.len() > 0 ==> mem < u16::MAX
                &&& p.bytes.len() > 0 && data.1@.len() == 0 ==> mem > 0
            }),
        ensures
            Content::data_updated(*old(self), data_id, data, *sha, *final(self), r),
    {
        let ghost old_self = *self;
        let mut cur = Content::Data(DataType::Data(0), 0, ContentTree::Empty(0));
        std::mem::swap(self, &mut cur);
        let new_data_empty = data.is_empty();
        match cur {
            Content::Link(s_name, c_id, descr, t_data, ti) => {
                if data_id == 0 {
                    let old_page = write_link(&s_name, c_id, &descr, &t_data, &ti);
                    let link_result = data_to_link(data, sha);
                    match link_result {
                        Ok(link) => {
                            *self = link;
                            match Data::new(old_page, sha) {
                                Ok(pg) => Ok(pg),
                                Err(_) => {
                                    assert(false);
                                    Err(AppError::Smthg)
                                },
                            }
                        },
                        Err(e) => {
                            *self = Content::Link(s_name, c_id, descr, t_data, ti);
                            Err(e)
                        },
                    }
                } else if data_id == 1 {
                    let old_page = write_link(&s_name, c_id, &descr, &t_data, &ti);
                    *self = Content::Link(s_name, c_id, descr, data, ti);
                    match Data::new(old_page, sha) {
                        Ok(pg) => Ok(pg),
                        Err(_) => {
                            assert(false);
                            Err(AppError::Smthg)
                        },
                    }
                } else {
                    *self = Content::Link(s_name, c_id, descr, data, ti);
                    Err(AppError::IndexingError)
                }
            },
            Content::Data(d_type, mem, mut c_tree) => {
                let ghost before = c_tree;
                let ghost d = data;
                let result = c_tree.replace(data_id, data, sha);
                assert(ContentTree::replaced(before, data_id, d, *sha, c_tree, result));
                match result {
                    Ok(old_data) => {
                        let new_mem = if old_data.is_empty() {
                            if new_data_empty { mem } else { mem + 1 }
                        } else {
                            if new_data_empty { mem - 1 } else { mem }
                        };
                        *self = Content::Data(d_type, new_mem, c_tree);
                        Ok(old_data)
                    },
                    Err(e) => {
                        *self = Content::Data(d_type, mem, c_tree);
                        Err(e)
                    },
                }
            },
        }
    }

    /// What `remove_data` of page `d_id` does: `before` becomes `after` and `r` is returned.
    pub open spec fn page_removed<H: Fn(&[u8]) -> u64>(before: Content, d_id: u16, sha: H, after: Content, r: Result<Data, AppError>) -> bool {
            match before {
                Content::Link(..) => r == Err::<Data, AppError>(AppError::DatatypeMismatch) && after
                    == before,
                Content::Data(dt, mem, tree) => after matches Content::Data(dt2, mem2, tree2) && dt2
                    == dt && ContentTree::removed(tree, d_id, sha, tree2, r) && mem2 == mem - match r {
                    Ok(d) => if d.1@.len() > 0 { 1int } else { 0int },
                    Err(_) => 0int,
                },
            }
    }

    /// `remove_data` of page `d_id` can be called on this content.
    pub open spec fn remove_ok<H: Fn(&[u8]) -> u64>(&self, d_id: u16, sha: H) -> bool {
        &&& (hasher_total(sha))
        &&& (*self matches Content::Data(_, mem, tree) ==> {
                &&& tree.wf(sha)
                &&& tree is Hashed && d_id < tree.pages().len() ==> forall|k: int|
                    d_id <= k < tree.pages().len() - 1 ==> (#[trigger] tree.pages()[k]).stored
                &&& d_id < tree.pages().len() && tree.pages()[d_id as int].bytes.len() > 0 ==> mem > 0
            })
    }

    /// Removes page `d_id` from the tree of a data content (see
    /// `ContentTree::remove_data`), uncounting it when it held bytes.
    pub fn remove_data<H: Fn(&[u8]) -> u64>(&mut self, d_id: u16, sha: &H) -> (r: Result<Data, AppError>)
        requires
            hasher_total(*sha),
            *old(self) matches Content::Data(_, mem, tree) ==> {
                &&& tree.wf(*sha)
                &&& tree is Hashed && d_id < tree.pages().len() ==> forall|k: int|
                    d_id <= k < tree.pages().len() - 1 ==> (#[trigger] tree.pages()[k]).stored
                &&& d_id < tree.pages().len() && tree.pages()[d_id as int].bytes.len() > 0 ==> mem > 0
            },
        ensures
            Content::page_removed(*old(self), d_id, *sha, *final(self), r),
    {
        let mut cur = Content::Data(DataType::Data(0), 0, ContentTree::Empty(0));
        std::mem::swap(self, &mut cur);
        match cur {
            Content::Data(dt, mem, mut tree) => {
                let ghost before = tree;
                let result = tree.remove_data(d_id, sha);
                assert(ContentTree::removed(before, d_id, *sha, tree, result));
                let new_mem = match &result {
                    Ok(d) => if !d.is_empty() { mem - 1 } else { mem },
                    Err(_) => mem,
                };
                *self = Content::Data(dt, new_mem, tree);
                result
            },
            other => {
                *self = other;
                Err(AppError::DatatypeMismatch)
            },
        }
    }

    /// A copy of the content holding only hashes of its pages: a link is
    /// copied whole, a data content's tree is shelled (see
    /// `ContentTree::shell`).
    pub fn shell(&self) -> (r: Self)
        ensures
            match self {
                Content::Link(sn, c, d, t, ti) => r matches Content::Link(sn2, c2, d2, t2, ti2) && sn2.0@ == sn.0@
                    && c2 == *c && d2.0@ == d.0@ && t2@ == t@ && match ti {
                    Some(x) => ti2 matches Some(y) && y.same_as(x),
                    None => ti2 is None,
                },
                Content::Data(dt, mem, tree) => r matches Content::Data(dt2, mem2, tree2) && dt2 == *dt && mem2
                    == *mem && tree2.mirrors(*tree) && tree2.leaves().len() == tree.leaves().len() && forall|i: int|
                    0 <= i < tree2.leaves().len() ==> #[trigger] tree2.leaves()[i] == crate::content_tree::blank(
                    tree.leaves()[i],
                ),
            },
    {
        match self {
            Content::Link(s_name, c_id, descr, data, ti_opt) => {
                let ti2 = match ti_opt {
                    Some(t) => Some(t.clone_info()),
                    None => None,
                };
                Content::Link(s_name.clone_name(), *c_id, descr.clone_description(), data.clone(), ti2)
            },
            Content::Data(d_type, mem, c_tree) => Content::Data(*d_type, *mem, c_tree.shell()),
        }
    }

    /// The hash of the content: of a link's page, or at the tree's root.
    pub fn hash<H: Fn(&[u8]) -> u64>(&self, sha: &H) -> (r: u64)
        requires
            hasher_total(*sha),
            self.link_fits(),
        ensures
            match self {
                Content::Link(..) => exists|b: Seq<u8>| #[trigger] self.link_page(b) && hashes_to(*sha, b, r),
                Content::Data(_, _, tree) => r == tree.root_hash(),
            },
    {
        match self {
            Content::Link(s_name, c_id, description, data, ti) => {
                let v = write_link(s_name, *c_id, description, data, ti);
                let sl = v.as_slice();
                assert(call_requires(*sha, (sl,)));
                let h = sha(sl);
                assert(self.link_page(v@));
                h
            },
            Content::Data(_type, _mem, tree) => tree.hash(),
        }
    }

    /// Copies of the parts of page hashes a link's transform info holds.
    pub fn link_ti_hashes(&self) -> (r: Result<Vec<Data>, AppError>)
        ensures
            match self {
                Content::Link(_, _, _, _, ti) => match ti {
                    Some(t) => r matches Ok(v) && page_views(v@) == page_views(t.data_hashes@),
                    None => r == Err::<Vec<Data>, AppError>(AppError::LinkNonTransformative),
                },
                Content::Data(..) => r == Err::<Vec<Data>, AppError>(AppError::DatatypeMismatch),
            },
    {
        match self {
            Content::Link(_s_name, _c, _descr, _data, ti_opt) => {
                match ti_opt {
                    Some(ti) => Ok(ti.clone_info().data_hashes),
                    None => Err(AppError::LinkNonTransformative),
                }
            },
            Content::Data(..) => Err(AppError::DatatypeMismatch),
        }
    }

    /// The number of pages the content keeps in memory: the count of a data
    /// content, the pages held by a link's transform info, or 1 for a link
    /// without one.
    pub fn used_memory_pages(&self) -> (r: usize)
        ensures
            match self {
                Content::Link(_, _, _, _, ti) => match ti {
                    Some(t) => r == t.data@.len(),
                    None => r == 1,
                },
                Content::Data(_, mem, _) => r == *mem,
            },
    {
        match self {
            Content::Link(_s, _c, _descr, _data, ti_opt) => {
                match ti_opt {
                    Some(ti) => ti.data.len(),
                    None => 1,
                }
            },
            Content::Data(_type, mem, _tree) => *mem as usize,
        }
    }

    /// The hash of page `d_id`: of the tree's page, or of the link's page at 0.
    pub fn get_data_hash<H: Fn(&[u8]) -> u64>(&self, d_id: u16, sha: &H) -> (r: Result<u64, AppError>)
        requires
            hasher_total(*sha),
            self.link_fits(),
            self.shape_ok(),
        ensures
            match self {
                Content::Link(..) => if d_id == 0 {
                    r matches Ok(h) && exists|b: Seq<u8>| #[trigger] self.link_page(b) && hashes_to(*sha, b, h)
                } else {
                    r == Err::<u64, AppError>(AppError::IndexingError)
                },
                Content::Data(_, _, tree) => {
                    &&& d_id < tree.leaves().len() ==> r == Ok::<u64, AppError>(tree.leaves()[d_id as int].hash)
                    &&& d_id >= tree.leaves().len() ==> r == Err::<u64, AppError>(AppError::IndexingError)
                },
            },
    {
        match self {
            Content::Link(..) => {
                if d_id == 0 {
                    Ok(self.hash(sha))
                } else {
                    Err(AppError::IndexingError)
                }
            },
            Content::Data(_type, _mem, c_tree) => c_tree.get_data_hash(d_id),
        }
    }

    /// `v` are the hashes of the content's pages as `data_hashes` lists them.
    pub open spec fn bottom_hashes<H: Fn(&[u8]) -> u64>(&self, sha: H, v: Seq<u64>) -> bool {
            match self {
                Content::Link(_, _, _, _, ti) => v.len() >= 1 && (exists|b: Seq<u8>| #[trigger] self.link_page(b)
                    && hashes_to(sha, b, v[0])) && v.skip(1) == match ti {
                    Some(t) => all_words(t.data_hashes@),
                    None => Seq::<u64>::empty(),
                },
                Content::Data(_, _, tree) => v == tree.leaves().map_values(|p: Page| p.hash).take(
                    if tree.leaves().len() < u16::MAX { tree.leaves().len() as int } else { u16::MAX as int },
                ),
            }
    }

    /// The hashes of the content's pages: for a link, the hash of its own
    /// page followed by the hashes listed in its parts of page hashes; for
    /// data, the hash of each page of the tree (at most 65535).
    pub fn data_hashes<H: Fn(&[u8]) -> u64>(&self, sha: &H) -> (r: Vec<u64>)
        requires
            hasher_total(*sha),
            self.link_fits(),
            self.shape_ok(),
            *self matches Content::Link(_, _, _, _, Some(t)) ==> forall|i: int|
                0 <= i < t.data_hashes@.len() ==> (#[trigger] t.data_hashes@[i]).1@.len() % 8 == 0,
        ensures
            self.bottom_hashes(*sha, r@),
    {
        let mut v: Vec<u64> = Vec::new();
        match self {
            Content::Link(_s_name, _c_id, _descr, _data, ti_opt) => {
                let h0 = self.hash(sha);
                v.push(h0);
                match ti_opt {
                    Some(ti) => {
                        let mut j: usize = 0;
                        while j < ti.data_hashes.len()
                            invariant
                                j <= ti.data_hashes@.len(),
                                v@.len() >= 1,
                                v@[0] == h0,
                                v@.skip(1) == all_words(ti.data_hashes@.take(j as int)),
                                forall|i: int|
                                    0 <= i < ti.data_hashes@.len() ==> (#[trigger] ti.data_hashes@[i]).1@.len() % 8 == 0,
                            decreases ti.data_hashes@.len() - j,
                        {
                            let b = ti.data_hashes[j].ref_bytes();
                            let ghost start = v@;
                            let mut k: usize = 0;
                            while k < b.len()
                                invariant
                                    v@.len() >= 1,
                                    v@[0] == h0,
                                    b@.len() % 8 == 0,
                                    k % 8 == 0,
                                    k <= b@.len(),
                                    v@ == start + page_words(b@.take(k as int)),
                                decreases b@.len() - k,
                            {
                                assert(k + 8 <= b@.len());
                                let w = read_u64_be(b, k);
                                v.push(w);
                                proof {
                                    let t0 = b@.take(k as int);
                                    let t1 = b@.take(k + 8);
                                    assert(page_words(t1) =~= page_words(t0).push(w)) by {
                                        assert(t1.len() / 8 == t0.len() / 8 + 1);
                                        assert forall|i: int| 0 <= i < t0.len() / 8 implies #[trigger] page_words(t1)[i]
                                            == page_words(t0)[i] by {
                                            assert(t1.subrange(8 * i, 8 * i + 8) =~= t0.subrange(8 * i, 8 * i + 8));
                                        }
                                        assert(t1.subrange(8 * (t0.len() as int / 8), 8 * (t0.len() as int / 8) + 8) =~= b@.subrange(
                                            k as int,
                                            k + 8,
                                        ));
                                    }
                                }
                                k += 8;
                            }
                            proof {
                                assert(k == b@.len());
                                assert(b@.take(k as int) =~= b@);
                                assert(ti.data_hashes@.take(j + 1).drop_last() =~= ti.data_hashes@.take(j as int));
                                assert(v@.skip(1) =~= all_words(ti.data_hashes@.take(j + 1)));
                            }
                            j += 1;
                        }
                        assert(ti.data_hashes@.take(ti.data_hashes@.len() as int) =~= ti.data_hashes@);
                    },
                    None => {
                        assert(v@.skip(1) =~= Seq::<u64>::empty());
                    },
                }
                v
            },
            Content::Data(_t, _m, tree) => {
                let ghost hs = tree.leaves().map_values(|p: Page| p.hash);
                let mut d_id: u16 = 0;
                while d_id < u16::MAX
                    invariant_except_break
                        d_id as int <= tree.leaves().len(),
                        v@ == hs.take(d_id as int),
                    invariant
                        tree.wf_shape(),
                        hs == tree.leaves().map_values(|p: Page| p.hash),
                        d_id <= u16::MAX,
                    ensures
                        v@ == hs.take(if tree.leaves().len() < u16::MAX { tree.leaves().len() as int } else { u16::MAX as int }),
                    decreases u16::MAX - d_id,
                {
                    match tree.get_data_hash(d_id) {
                        Ok(h) => {
                            v.push(h);
                            assert(hs.take(d_id + 1) =~= hs.take(d_id as int).push(h));
                        },
                        Err(_) => {
                            break;
                        },
                    }
                    d_id += 1;
                }
                v
            },
        }
    }
}

/// The `u64` values whose big-endian bytes make up `b`, eight bytes each.
pub open spec fn page_words(b: Seq<u8>) -> Seq<u64> {
    Seq::new(b.len() / 8, |i: int| u64_of(b.subrange(8 * i, 8 * i + 8)))
}

/// The values listed in a sequence of pages of hashes, in order.
pub open spec fn all_words(ps: Seq<Data>) -> Seq<u64>
    decreases ps.len(),
{
    if ps.len() == 0 {
        Seq::empty()
    } else {
        all_words(ps.drop_last()) + page_words(ps.last().1@)
    }
}

/// Page `i` of a transform info's tree, `d` (hash and bytes), of listed
/// hash `h`: it has that hash, and holds the bytes of the received page `i`
/// where it holds bytes (which hash to `h`); a received page with bytes is
/// left out only where the hasher gives its bytes another hash.
pub open spec fn ti_page<H: Fn(&[u8]) -> u64>(data: Map<u16, Data>, i: int, h: u64, d: (u64, Seq<u8>), sha: H) -> bool {
    &&& d.0 == h
    &&& d.1.len() > 0 ==> data.contains_key(i as u16) && d.1 == data[i as u16].1@ && hashes_to(sha, d.1, h)
    &&& d.1.len() == 0 && data.contains_key(i as u16) && data[i as u16].1@.len() > 0 ==> crate::disk::hash_refused(
        sha,
        data[i as u16].1@,
        h,
    )
}

/// `t` is the tree of transform info `ti` with listed page hashes `hs`:
/// `pre` (0 or 1) pages of the root hash, without bytes, come first, where
/// the first listed page holds no bytes and the root hash is not 0; then a
/// page for each listed hash (see `ti_page`), at most `u16::MAX` pages in
/// all.
pub open spec fn ti_tree<H: Fn(&[u8]) -> u64>(ti: TransformInfo, hs: Seq<u64>, t: ContentTree, pre: int, sha: H) -> bool {
    let n = if hs.len() < 65535 { hs.len() as int } else { 65535 };
    let p = t.pages();
    &&& pre == 0 || pre == 1
    &&& p.len() == crate::disk::capped((n + pre) as nat)
    &&& pre == 1 ==> ti.root_hash != 0 && p[0].hash == ti.root_hash && p[0].bytes.len() == 0 && (p.len() > 1 ==> p[1].bytes.len() == 0)
    &&& pre == 0 && ti.root_hash != 0 && p.len() > 0 ==> p[0].bytes.len() > 0
    &&& forall|i: int| pre <= i < p.len() ==> #[trigger] ti_page(ti.data@, i - pre, hs[i - pre], page_data(p[i]), sha)
}

impl TransformInfo {
    /// The tree of the transformed content: a single page known by the root
    /// hash while parts of page hashes are missing or none arrived; else
    /// the pages that `ti_tree` describes, built by appending them in turn
    /// to the page of the root hash (which the first page replaces where it
    /// holds bytes). `None` where those pages do not fit a tree (see
    /// `tree_of_pages`).
    pub fn into_tree<H: Fn(&[u8]) -> u64>(self, sha: &H) -> (r: Option<ContentTree>)
        requires
            hasher_total(*sha),
            forall|i: int| 0 <= i < self.data_hashes@.len() ==> (#[trigger] self.data_hashes@[i]).1@.len() % 8 == 0,
        ensures
            !self.missing_hashes@.is_empty() || self.data_hashes@.len() == 0 ==> r == Some(ContentTree::Empty(self.root_hash)),
            self.missing_hashes@.is_empty() && self.data_hashes@.len() > 0 ==> (r matches Some(t) ==> t.wf(*sha) && exists|pre: int|
                #[trigger] ti_tree(self, all_words(self.data_hashes@), t, pre, *sha)),
    {
        broadcast use vstd::std_specs::hash::group_hash_axioms;
        if !self.missing_hashes.is_empty() || self.data_hashes.len() == 0 {
            return Some(ContentTree::Empty(self.root_hash));
        }
        let ghost hs_all = all_words(self.data_hashes@);
        let mut hs: Vec<u64> = Vec::new();
        let mut k: usize = 0;
        while k < self.data_hashes.len()
            invariant
                k <= self.data_hashes@.len(),
                forall|i: int| 0 <= i < self.data_hashes@.len() ==> (#[trigger] self.data_hashes@[i]).1@.len() % 8 == 0,
                hs@ == all_words(self.data_hashes@.take(k as int)),
            decreases self.data_hashes@.len() - k,
        {
            let page = &self.data_hashes[k];
            let plen = page.1.len();
            let n = plen / 8;
            let mut w: usize = 0;
            let ghost before = hs@;
            while w < n
                invariant
                    plen == page.1@.len(),
                    n == page.1@.len() / 8,
                    w <= n,
                    hs@ == before + page_words(page.1@).take(w as int),
                decreases n - w,
            {
                assert(8 * w + 8 <= page.1@.len()) by (nonlinear_arith)
                    requires
                        w < n,
                        n == page.1@.len() / 8,
                ;
                let x = read_u64_be(&page.1, 8 * w);
                hs.push(x);
                assert(hs@ =~= before + page_words(page.1@).take(w + 1));
                w += 1;
            }
            assert(page_words(page.1@).take(n as int) =~= page_words(page.1@));
            assert(self.data_hashes@.take(k + 1).drop_last() =~= self.data_hashes@.take(k as int));
            k += 1;
        }
        assert(self.data_hashes@.take(self.data_hashes@.len() as int) =~= self.data_hashes@);
        let m: usize = if hs.len() < 65535 { hs.len() } else { 65535 };
        let mut ds: Vec<Data> = Vec::new();
        let mut i: usize = 0;
        while i < m
            invariant
                m <= hs@.len(),
                m <= 65535,
                hs@ == hs_all,
                hasher_total(*sha),
                i <= m,
                ds@.len() == i,
                forall|j: int| 0 <= j < i ==> #[trigger] ti_page(self.data@, j, hs@[j], ds@[j]@, *sha),
            decreases m - i,
        {
            let h = hs[i];
            let d = match self.data.get(&(i as u16)) {
                Some(received) => {
                    let mut c = received.clone();
                    let hh = c.hash(sha);
                    if hh == h {
                        c
                    } else {
                        Data::empty(h)
                    }
                },
                None => Data::empty(h),
            };
            assert(d.1@.len() == 0 ==> d.1@ =~= Seq::<u8>::empty());
            assert(ti_page(self.data@, i as int, h, d@, *sha));
            ds.push(d);
            i += 1;
        }
        let with_root = ds.len() > 0 && ds[0].is_empty() && self.root_hash != 0;
        let mut all: Vec<Data> = Vec::new();
        if with_root {
            all.push(Data::empty(self.root_hash));
        }
        let ghost pre: int = if with_root { 1 } else { 0 };
        let mut j: usize = 0;
        while j < ds.len()
            invariant
                j <= ds@.len(),
                all@.len() == j + pre,
                pre == (if with_root { 1int } else { 0int }),
                with_root ==> all@[0].0 == self.root_hash && all@[0].1@.len() == 0,
                forall|x: int| 0 <= x < j ==> (#[trigger] all@[x + pre])@ == ds@[x]@,
            decreases ds@.len() - j,
        {
            all.push(ds[j].clone());
            assert(all@[j + pre] == all@.last());
            j += 1;
        }
        let r = crate::disk::tree_of_pages(&all, sha);
        proof {
            if r is Some {
                let t = r->0;
                let p = t.pages();
                assert forall|q: int| pre <= q < p.len() implies #[trigger] ti_page(self.data@, q - pre, hs_all[q - pre], page_data(p[q]), *sha) by {
                    assert(all@[(q - pre) + pre]@ == ds@[q - pre]@);
                    assert(page_data(p[q]) == ds@[q - pre]@);
                }
                if pre == 1 && p.len() > 1 {
                    assert(all@[0int + 1]@ == ds@[0]@);
                }
                if pre == 0 && self.root_hash != 0 && p.len() > 0 {
                    assert(all@[0int + 0]@ == ds@[0]@);
                }
                assert(ti_tree(self, hs_all, t, pre, *sha));
            }
        }
        r
    }
}

} // verus!
