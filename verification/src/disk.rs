//! The layouts of the files a swarm is kept in on disk, and the decisions of
//! what to write to them and what to take from them.
//!
//! A header file (`<id>.hdr`, `heads.hdr`) is a run of 16-byte records, one
//! per page: the page id (2 bytes), the page hash (8 bytes), the offset of
//! the page's bytes in the matching data file (4 bytes) and their length
//! (2 bytes), all big-endian. A page whose bytes are not kept has offset and
//! length 0. The datastore file (`datastore.sync`) is a run of 19-byte
//! records: content id (2 bytes), type byte, content hash (8 bytes) and the
//! datastore's root hash when the record was written (8 bytes).

use vstd::prelude::*;
use crate::application::ApplicationData;
use crate::content::{Content, DataType};
use crate::content_tree::{lemma_len_pages, page_data, ContentTree};
use crate::data::Data;
use crate::hashing::{hasher_total, hashes_to};
use crate::hashing::{
    be_u16, be_u32, be_u64, push_u16_be, push_u32_be, push_u64_be, read_u32_be, read_u64_be,
    u16_from_be, u16_of, u32_of, u64_of,
};

verus! {

/// The length of a header record.
pub const HEADER_RECORD_LEN: usize = 16;

/// The length of a datastore record.
pub const DATASTORE_RECORD_LEN: usize = 19;

/// A record of a header file.
#[derive(Debug, Copy, Clone, PartialEq, Eq, Structural)]
pub struct PageRecord {
    pub page_id: u16,
    pub hash: u64,
    pub offset: u32,
    pub size: u16,
}

/// The bytes of a header record.
pub open spec fn page_record_bytes(r: PageRecord) -> Seq<u8> {
    be_u16(r.page_id) + be_u64(r.hash) + be_u32(r.offset) + be_u16(r.size)
}

/// The header record read from the 16 bytes `s`.
pub open spec fn page_record_from(s: Seq<u8>) -> PageRecord {
    PageRecord {
        page_id: u16_of(s[0], s[1]),
        hash: u64_of(s.subrange(2, 10)),
        offset: u32_of(s.subrange(10, 14)),
        size: u16_of(s[14], s[15]),
    }
}

/// The records of a header file: one for each whole 16 bytes; a shorter
/// tail is not a record.
pub open spec fn page_records(bytes: Seq<u8>) -> Seq<PageRecord> {
    Seq::new(
        (bytes.len() / 16) as nat,
        |k: int| page_record_from(bytes.subrange(16 * k, 16 * k + 16)),
    )
}

/// The bytes of a run of header records.
pub open spec fn page_records_bytes(rs: Seq<PageRecord>) -> Seq<u8>
    decreases rs.len(),
{
    if rs.len() == 0 {
        Seq::empty()
    } else {
        page_records_bytes(rs.drop_last()) + page_record_bytes(rs.last())
    }
}

/// Where the data file ends according to the records: the largest
/// offset plus length, 0 for no record.
pub open spec fn records_end(rs: Seq<PageRecord>) -> nat
    decreases rs.len(),
{
    if rs.len() == 0 {
        0
    } else {
        let e = rs.last().offset + rs.last().size;
        let before = records_end(rs.drop_last());
        if e > before {
            e as nat
        } else {
            before
        }
    }
}

/// The record of page `id`: the last one that names it, as a later record
/// replaces an earlier one.
pub open spec fn find_record(rs: Seq<PageRecord>, id: u16) -> Option<PageRecord>
    decreases rs.len(),
{
    if rs.len() == 0 {
        None
    } else if rs.last().page_id == id {
        Some(rs.last())
    } else {
        find_record(rs.drop_last(), id)
    }
}

impl PageRecord {
    pub fn to_bytes(&self) -> (r: Vec<u8>)
        ensures
            r@ == page_record_bytes(*self),
    {
        let mut v: Vec<u8> = Vec::with_capacity(HEADER_RECORD_LEN);
        push_u16_be(&mut v, self.page_id);
        push_u64_be(&mut v, self.hash);
        push_u32_be(&mut v, self.offset);
        push_u16_be(&mut v, self.size);
        v
    }
}

/// Reads the header record at `pos`.
fn read_page_record(bytes: &Vec<u8>, pos: usize) -> (r: PageRecord)
    requires
        pos + 16 <= bytes@.len(),
    ensures
        r == page_record_from(bytes@.subrange(pos as int, pos + 16)),
{
    let _n = bytes.len();
    let s = Ghost(bytes@.subrange(pos as int, pos + 16));
    let page_id = u16_from_be(bytes[pos], bytes[pos + 1]);
    let hash = read_u64_be(bytes, pos + 2);
    let offset = read_u32_be(bytes, pos + 10);
    let size = u16_from_be(bytes[pos + 14], bytes[pos + 15]);
    assert(s@.subrange(2, 10) =~= bytes@.subrange(pos + 2, pos + 10));
    assert(s@.subrange(10, 14) =~= bytes@.subrange(pos + 10, pos + 14));
    PageRecord { page_id, hash, offset, size }
}

/// The records of a header file and where its data file ends (see
/// `page_records` and `records_end`).
pub fn parse_page_records(bytes: &Vec<u8>) -> (r: (Vec<PageRecord>, u64))
    ensures
        r.0@ == page_records(bytes@),
        r.1 == records_end(r.0@),
{
    let len = bytes.len();
    let n = len / HEADER_RECORD_LEN;
    let mut rs: Vec<PageRecord> = Vec::with_capacity(n);
    let mut end: u64 = 0;
    let mut k: usize = 0;
    while k < n
        invariant
            n == bytes@.len() / 16,
            len == bytes@.len(),
            k <= n,
            rs@ == page_records(bytes@).take(k as int),
            end == records_end(rs@),
        decreases n - k,
    {
        assert(16 * k + 16 <= bytes@.len()) by (nonlinear_arith)
            requires
                k < n,
                n == bytes@.len() / 16,
        ;
        let rec = read_page_record(bytes, 16 * k);
        let e: u64 = rec.offset as u64 + rec.size as u64;
        rs.push(rec);
        assert(rs@.drop_last() == page_records(bytes@).take(k as int));
        if e > end {
            end = e;
        }
        assert(rs@ =~= page_records(bytes@).take(k + 1));
        k += 1;
    }
    assert(rs@ =~= page_records(bytes@));
    (rs, end)
}

/// The record of page `id` (see `find_record`).
pub fn find_page_record(rs: &Vec<PageRecord>, id: u16) -> (r: Option<PageRecord>)
    ensures
        r == find_record(rs@, id),
{
    let mut k: usize = rs.len();
    assert(rs@.take(k as int) =~= rs@);
    while k > 0
        invariant
            k <= rs@.len(),
            find_record(rs@, id) == find_record(rs@.take(k as int), id),
        decreases k,
    {
        let rec = rs[k - 1];
        assert(rs@.take(k as int).drop_last() =~= rs@.take(k - 1));
        if rec.page_id == id {
            return Some(rec);
        }
        k -= 1;
    }
    assert(rs@.take(0) =~= Seq::<PageRecord>::empty());
    None
}

/// The header record of page `data_id` holding `data`, written at
/// `byte_pointer` of the data file, and where the data file ends after it:
/// a page without bytes is recorded with offset and length 0 and takes no
/// room. `None` where the end would not fit in four bytes.
pub fn page_record(data_id: u16, data: &Data, byte_pointer: u32) -> (r: Option<(PageRecord, u32)>)
    ensures
        data.1@.len() == 0 ==> r == Some((PageRecord { page_id: data_id, hash: data.0, offset: 0, size: 0 }, byte_pointer)),
        data.1@.len() > 0 && byte_pointer + data.1@.len() <= u32::MAX ==> r == Some((
            PageRecord { page_id: data_id, hash: data.0, offset: byte_pointer, size: data.1@.len() as u16 },
            (byte_pointer + data.1@.len()) as u32,
        )),
        data.1@.len() > 0 && byte_pointer + data.1@.len() > u32::MAX ==> r is None,
{
    let len = data.len();
    if len == 0 {
        return Some((PageRecord { page_id: data_id, hash: data.get_hash(), offset: 0, size: 0 }, byte_pointer));
    }
    if len as u64 > (u32::MAX - byte_pointer) as u64 {
        return None;
    }
    let size = len as u16;
    let rec = PageRecord { page_id: data_id, hash: data.get_hash(), offset: byte_pointer, size };
    Some((rec, byte_pointer + len as u32))
}

/// Reading a header record back from its bytes gives the record.
pub proof fn lemma_page_record_roundtrip(r: PageRecord)
    ensures
        page_record_from(page_record_bytes(r)) == r,
        page_record_bytes(r).len() == 16,
{
    let s = page_record_bytes(r);
    crate::hashing::lemma_u16_of_be(r.page_id);
    crate::hashing::lemma_u64_of_be(r.hash);
    crate::hashing::lemma_u32_of_be(r.offset);
    crate::hashing::lemma_u16_of_be(r.size);
    assert(s.subrange(2, 10) =~= be_u64(r.hash));
    assert(s.subrange(10, 14) =~= be_u32(r.offset));
}

/// The bytes of `k` records are `16 * k` long.
proof fn lemma_page_records_bytes_len(rs: Seq<PageRecord>)
    ensures
        page_records_bytes(rs).len() == 16 * rs.len(),
    decreases rs.len(),
{
    if rs.len() > 0 {
        lemma_page_records_bytes_len(rs.drop_last());
        lemma_page_record_roundtrip(rs.last());
    }
}

/// A header file written as a run of records is read back as those
/// records.
pub proof fn lemma_page_records_roundtrip(rs: Seq<PageRecord>)
    ensures
        page_records(page_records_bytes(rs)) == rs,
    decreases rs.len(),
{
    lemma_page_records_bytes_len(rs);
    if rs.len() > 0 {
        let front = rs.drop_last();
        lemma_page_records_roundtrip(front);
        lemma_page_records_bytes_len(front);
        lemma_page_record_roundtrip(rs.last());
        let b = page_records_bytes(rs);
        let bf = page_records_bytes(front);
        assert(b == bf + page_record_bytes(rs.last()));
        assert forall|k: int| 0 <= k < rs.len() implies #[trigger] page_records(b)[k] == rs[k] by {
            if k < front.len() {
                assert(b.subrange(16 * k, 16 * k + 16) =~= bf.subrange(16 * k, 16 * k + 16));
                assert(page_records(bf)[k] == front[k]);
            } else {
                assert(b.subrange(16 * k, 16 * k + 16) =~= page_record_bytes(rs.last()));
            }
        }
        assert(page_records(b) =~= rs);
    } else {
        assert(page_records(Seq::<u8>::empty()) =~= rs);
    }
}

/// A record of the datastore file.
#[derive(Debug, Copy, Clone, PartialEq, Eq, Structural)]
pub struct DatastoreRecord {
    pub c_id: u16,
    pub d_type: u8,
    pub hash: u64,
    pub root: u64,
}

/// The bytes of a datastore record.
pub open spec fn datastore_record_bytes(r: DatastoreRecord) -> Seq<u8> {
    be_u16(r.c_id) + seq![r.d_type] + be_u64(r.hash) + be_u64(r.root)
}

/// The datastore record read from the 19 bytes `s`.
pub open spec fn datastore_record_from(s: Seq<u8>) -> DatastoreRecord {
    DatastoreRecord {
        c_id: u16_of(s[0], s[1]),
        d_type: s[2],
        hash: u64_of(s.subrange(3, 11)),
        root: u64_of(s.subrange(11, 19)),
    }
}

/// The records of a datastore file: one for each whole 19 bytes.
pub open spec fn datastore_records(bytes: Seq<u8>) -> Seq<DatastoreRecord> {
    Seq::new(
        (bytes.len() / 19) as nat,
        |k: int| datastore_record_from(bytes.subrange(19 * k, 19 * k + 19)),
    )
}

/// The record of content `id`: the last one that names it.
pub open spec fn find_content_record(rs: Seq<DatastoreRecord>, id: u16) -> Option<DatastoreRecord>
    decreases rs.len(),
{
    if rs.len() == 0 {
        None
    } else if rs.last().c_id == id {
        Some(rs.last())
    } else {
        find_content_record(rs.drop_last(), id)
    }
}

/// The root hash that the datastore file was last written with: that of
/// its last record, 0 for no record.
pub open spec fn disk_root(rs: Seq<DatastoreRecord>) -> u64 {
    if rs.len() == 0 {
        0
    } else {
        rs.last().root
    }
}

/// How many contents the records list from id `i` on without a gap.
pub open spec fn listed_from(rs: Seq<DatastoreRecord>, i: nat) -> nat
    decreases 65536 - i,
{
    if i >= 65536 || find_content_record(rs, i as u16) is None {
        i
    } else {
        listed_from(rs, i + 1)
    }
}

/// The contents the datastore file lists: the type and hash of contents
/// 0, 1, 2, ... up to the first id without a record.
pub open spec fn datastore_listing(rs: Seq<DatastoreRecord>) -> Seq<(DataType, u64)> {
    Seq::new(
        listed_from(rs, 0),
        |i: int| {
            let r = find_content_record(rs, i as u16)->0;
            (DataType::spec_from(r.d_type), r.hash)
        },
    )
}

/// Content `j` of type and hash `th` is on disk as it is in memory.
pub open spec fn kept_on_disk(rs: Seq<DatastoreRecord>, j: u16, th: (DataType, u64)) -> bool {
    find_content_record(rs, j) matches Some(r) && DataType::spec_from(r.d_type) == th.0 && r.hash == th.1
}

/// The records to append to the datastore file for the first `n` of the
/// contents `mem` (type and hash), written with root hash `root`: one for
/// each content that is not on disk as it is in memory.
pub open spec fn datastore_update(rs: Seq<DatastoreRecord>, mem: Seq<(DataType, u64)>, root: u64, n: nat) -> Seq<u8>
    decreases n,
{
    if n == 0 {
        Seq::empty()
    } else {
        let j = (n - 1) as int;
        let before = datastore_update(rs, mem, root, (n - 1) as nat);
        if kept_on_disk(rs, j as u16, mem[j]) {
            before
        } else {
            before + datastore_record_bytes(
                DatastoreRecord { c_id: j as u16, d_type: mem[j].0.spec_byte(), hash: mem[j].1, root },
            )
        }
    }
}

impl DatastoreRecord {
    pub fn to_bytes(&self) -> (r: Vec<u8>)
        ensures
            r@ == datastore_record_bytes(*self),
    {
        let mut v: Vec<u8> = Vec::with_capacity(DATASTORE_RECORD_LEN);
        push_u16_be(&mut v, self.c_id);
        v.push(self.d_type);
        push_u64_be(&mut v, self.hash);
        push_u64_be(&mut v, self.root);
        assert(v@ =~= datastore_record_bytes(*self));
        v
    }
}

/// Reads the datastore record at `pos`.
fn read_datastore_record(bytes: &Vec<u8>, pos: usize) -> (r: DatastoreRecord)
    requires
        pos + 19 <= bytes@.len(),
    ensures
        r == datastore_record_from(bytes@.subrange(pos as int, pos + 19)),
{
    let _n = bytes.len();
    let s = Ghost(bytes@.subrange(pos as int, pos + 19));
    let c_id = u16_from_be(bytes[pos], bytes[pos + 1]);
    let d_type = bytes[pos + 2];
    let hash = read_u64_be(bytes, pos + 3);
    let root = read_u64_be(bytes, pos + 11);
    assert(s@.subrange(3, 11) =~= bytes@.subrange(pos + 3, pos + 11));
    assert(s@.subrange(11, 19) =~= bytes@.subrange(pos + 11, pos + 19));
    DatastoreRecord { c_id, d_type, hash, root }
}

/// The records of a datastore file (see `datastore_records`).
pub fn parse_datastore_records(bytes: &Vec<u8>) -> (r: Vec<DatastoreRecord>)
    ensures
        r@ == datastore_records(bytes@),
{
    let len = bytes.len();
    let n = len / DATASTORE_RECORD_LEN;
    let mut rs: Vec<DatastoreRecord> = Vec::with_capacity(n);
    let mut k: usize = 0;
    while k < n
        invariant
            n == bytes@.len() / 19,
            len == bytes@.len(),
            k <= n,
            rs@ == datastore_records(bytes@).take(k as int),
        decreases n - k,
    {
        assert(19 * k + 19 <= bytes@.len()) by (nonlinear_arith)
            requires
                k < n,
                n == bytes@.len() / 19,
        ;
        let rec = read_datastore_record(bytes, 19 * k);
        rs.push(rec);
        assert(rs@ =~= datastore_records(bytes@).take(k + 1));
        k += 1;
    }
    assert(rs@ =~= datastore_records(bytes@));
    rs
}

/// For every content id, its record (see `find_content_record`).
fn record_table(rs: &Vec<DatastoreRecord>) -> (t: Vec<Option<DatastoreRecord>>)
    ensures
        t@.len() == 65536,
        forall|i: int| 0 <= i < 65536 ==> #[trigger] t@[i] == find_content_record(rs@, i as u16),
{
    let mut t: Vec<Option<DatastoreRecord>> = Vec::with_capacity(65536);
    let mut i: usize = 0;
    while i < 65536
        invariant
            i <= 65536,
            t@.len() == i,
            forall|j: int| 0 <= j < i ==> #[trigger] t@[j] == None::<DatastoreRecord>,
        decreases 65536 - i,
    {
        t.push(None);
        i += 1;
    }
    let mut k: usize = 0;
    while k < rs.len()
        invariant
            k <= rs@.len(),
            t@.len() == 65536,
            forall|j: int| 0 <= j < 65536 ==> #[trigger] t@[j] == find_content_record(rs@.take(k as int), j as u16),
        decreases rs@.len() - k,
    {
        let rec = rs[k];
        t.set(rec.c_id as usize, Some(rec));
        assert forall|j: int| 0 <= j < 65536 implies #[trigger] t@[j] == find_content_record(rs@.take(k + 1), j as u16) by {
            assert(rs@.take(k + 1).drop_last() =~= rs@.take(k as int));
            assert(rs@.take(k + 1).last() == rec);
            assert((j as u16) as int == j);
        }
        k += 1;
    }
    assert(rs@.take(rs@.len() as int) =~= rs@);
    t
}

/// From `i` on, the listing goes on as long as contents are listed.
proof fn lemma_listed_from(rs: Seq<DatastoreRecord>, i: nat)
    requires
        i <= 65536,
        forall|j: int| 0 <= j < i ==> #[trigger] find_content_record(rs, j as u16) is Some,
    ensures
        listed_from(rs, 0) == listed_from(rs, i),
    decreases i,
{
    if i > 0 {
        lemma_listed_from(rs, (i - 1) as nat);
        assert(find_content_record(rs, (i - 1) as u16) is Some);
    }
}

/// The listing reaches at least `i` and at most 65536.
proof fn lemma_listed_from_bounds(rs: Seq<DatastoreRecord>, i: nat)
    requires
        i <= 65536,
    ensures
        i <= listed_from(rs, i) <= 65536,
        listed_from(rs, i) < 65536 ==> find_content_record(rs, listed_from(rs, i) as u16) is None,
        forall|j: int| i <= j < listed_from(rs, i) ==> #[trigger] find_content_record(rs, j as u16) is Some,
    decreases 65536 - i,
{
    if i < 65536 && find_content_record(rs, i as u16) is Some {
        lemma_listed_from_bounds(rs, i + 1);
    }
}

/// The contents the datastore file lists (see `datastore_listing`).
pub fn datastore_entries(rs: &Vec<DatastoreRecord>) -> (r: Vec<(DataType, u64)>)
    ensures
        r@ == datastore_listing(rs@),
{
    let t = record_table(rs);
    let mut v: Vec<(DataType, u64)> = Vec::new();
    let mut i: usize = 0;
    proof {
        lemma_listed_from_bounds(rs@, 0);
    }
    while i < 65536
        invariant
            i <= 65536,
            t@.len() == 65536,
            forall|j: int| 0 <= j < 65536 ==> #[trigger] t@[j] == find_content_record(rs@, j as u16),
            forall|j: int| 0 <= j < i ==> #[trigger] find_content_record(rs@, j as u16) is Some,
            v@ == datastore_listing(rs@).take(i as int) || i == 0 && v@.len() == 0,
            v@.len() == i,
            i <= listed_from(rs@, 0) <= 65536,
            listed_from(rs@, 0) < 65536 ==> find_content_record(rs@, listed_from(rs@, 0) as u16) is None,
        decreases 65536 - i,
    {
        match t[i] {
            Some(rec) => {
                assert(find_content_record(rs@, i as u16) is Some);
                proof {
                    lemma_listed_from(rs@, (i + 1) as nat);
                    lemma_listed_from_bounds(rs@, (i + 1) as nat);
                }
                v.push((DataType::from(rec.d_type), rec.hash));
                assert(v@ =~= datastore_listing(rs@).take(i + 1));
                i += 1;
            },
            None => {
                proof {
                    lemma_listed_from(rs@, i as nat);
                }
                assert(listed_from(rs@, 0) == i);
                assert(v@ =~= datastore_listing(rs@));
                return v;
            },
        }
    }
    proof {
        lemma_listed_from(rs@, 65536);
    }
    assert(v@ =~= datastore_listing(rs@));
    v
}

/// The records to append to the datastore file so that it holds the
/// contents `mem` (type and hash of each, in order) and the root hash
/// `root` (see `datastore_update`); `None` when the file was last written
/// with that root hash, so that nothing is written.
pub fn datastore_changes(rs: &Vec<DatastoreRecord>, mem: &Vec<(DataType, u64)>, root: u64) -> (r: Option<Vec<u8>>)
    requires
        mem@.len() <= 65536,
    ensures
        root == disk_root(rs@) ==> r is None,
        root != disk_root(rs@) ==> (r matches Some(b) && b@ == datastore_update(rs@, mem@, root, mem@.len())),
{
    let on_disk_root = if rs.len() == 0 {
        0
    } else {
        rs[rs.len() - 1].root
    };
    if on_disk_root == root {
        return None;
    }
    let t = record_table(rs);
    let mut out: Vec<u8> = Vec::new();
    let mut j: usize = 0;
    while j < mem.len()
        invariant
            j <= mem@.len() <= 65536,
            t@.len() == 65536,
            forall|i: int| 0 <= i < 65536 ==> #[trigger] t@[i] == find_content_record(rs@, i as u16),
            out@ == datastore_update(rs@, mem@, root, j as nat),
        decreases mem@.len() - j,
    {
        let (dt, h) = mem[j];
        let kept = match t[j] {
            Some(rec) => DataType::from(rec.d_type) == dt && rec.hash == h,
            None => false,
        };
        assert(kept == kept_on_disk(rs@, j as u16, mem@[j as int])) by {
            assert(((j as u16) as int) == j);
        }
        if !kept {
            let rec = DatastoreRecord { c_id: j as u16, d_type: dt.byte(), hash: h, root };
            let mut b = rec.to_bytes();
            out.append(&mut b);
        }
        j += 1;
    }
    Some(out)
}

/// A content that stands for a content listed in the datastore file: data
/// of the listed type with no page but the listed hash.
pub open spec fn listed_content(e: (DataType, u64)) -> Content {
    Content::Data(e.0, 0, ContentTree::Empty(e.1))
}

/// Content `i` after loading `entries` into contents `old`, of which there
/// are fewer than `u16::MAX`: the listed content where there is an entry,
/// unless the content in its place may not be replaced by it (see
/// `replaceable`).
pub open spec fn loaded_content(old: Seq<Content>, entries: Seq<(DataType, u64)>, i: int) -> Content {
    if i < entries.len() && (i >= old.len() || crate::datastore::replaceable(old[i], listed_content(entries[i]))) {
        listed_content(entries[i])
    } else {
        old[i]
    }
}

/// Loads the contents that the datastore file lists into the application
/// data: each listed content takes the place of the content of its id, or
/// is appended where there is none yet, as long as the datastore is not
/// full (`u16::MAX` contents); a link with a transform info, or data of
/// another data type, keeps its place.
pub fn load_datastore<H: Fn(&[u8]) -> u64>(app: &mut ApplicationData, entries: &Vec<(DataType, u64)>, sha: &H)
    requires
        hasher_total(*sha),
        old(app).contents.wf(),
        old(app).contents.links_fit(),
    ensures
        final(app).contents.wf(),
        final(app).contents.links_fit(),
        final(app).change_reg == old(app).change_reg,
        ({
            let o = old(app).contents.contents();
            let f = final(app).contents.contents();
            &&& o.len() >= u16::MAX ==> f == o
            &&& o.len() < u16::MAX ==> {
                &&& f.len() == if entries@.len() > o.len() {
                    if entries@.len() < u16::MAX { entries@.len() as int } else { u16::MAX as int }
                } else {
                    o.len() as int
                }
                &&& forall|i: int| 0 <= i < f.len() ==> #[trigger] f[i] == loaded_content(o, entries@, i)
            }
        }),
{
    let ghost o = app.contents.contents();
    proof {
        app.contents.lemma_len();
    }
    let mut i: usize = 0;
    while i < entries.len()
        invariant
            i <= entries@.len(),
            hasher_total(*sha),
            app.contents.wf(),
            app.contents.links_fit(),
            app.change_reg == old(app).change_reg,
            o == old(app).contents.contents(),
            o.len() <= u16::MAX,
            o.len() >= u16::MAX ==> app.contents.contents() == o,
            o.len() < u16::MAX ==> {
                let f = app.contents.contents();
                &&& f.len() == if i > o.len() {
                    if i < u16::MAX { i as int } else { u16::MAX as int }
                } else {
                    o.len() as int
                }
                &&& forall|k: int| 0 <= k < f.len() ==> #[trigger] f[k] == if k < i {
                    loaded_content(o, entries@, k)
                } else {
                    o[k]
                }
            },
        decreases entries@.len() - i,
    {
        let (dt, h) = entries[i];
        let content = Content::Data(dt, 0, ContentTree::empty(h));
        assert(content == listed_content(entries@[i as int]));
        proof {
            app.contents.lemma_len();
        }
        match app.next_c_id() {
            Some(next_cid) => {
                if next_cid as usize == i {
                    let _res = app.append(content, sha);
                } else {
                    let _res = app.contents.update(i as u16, content, sha);
                }
            },
            None => {},
        }
        proof {
            let f = app.contents.contents();
            if o.len() < u16::MAX {
                assert forall|k: int| 0 <= k < f.len() implies #[trigger] f[k] == if k < i + 1 {
                    loaded_content(o, entries@, k)
                } else {
                    o[k]
                } by {}
            }
        }
        i += 1;
    }
}

/// The bytes of a run of datastore records.
pub open spec fn datastore_records_bytes(rs: Seq<DatastoreRecord>) -> Seq<u8>
    decreases rs.len(),
{
    if rs.len() == 0 {
        Seq::empty()
    } else {
        datastore_records_bytes(rs.drop_last()) + datastore_record_bytes(rs.last())
    }
}

/// Reading a datastore record back from its bytes gives the record.
pub proof fn lemma_datastore_record_roundtrip(r: DatastoreRecord)
    ensures
        datastore_record_from(datastore_record_bytes(r)) == r,
        datastore_record_bytes(r).len() == 19,
{
    let s = datastore_record_bytes(r);
    crate::hashing::lemma_u16_of_be(r.c_id);
    crate::hashing::lemma_u64_of_be(r.hash);
    crate::hashing::lemma_u64_of_be(r.root);
    assert(s.subrange(3, 11) =~= be_u64(r.hash));
    assert(s.subrange(11, 19) =~= be_u64(r.root));
}

proof fn lemma_datastore_records_bytes_len(rs: Seq<DatastoreRecord>)
    ensures
        datastore_records_bytes(rs).len() == 19 * rs.len(),
    decreases rs.len(),
{
    if rs.len() > 0 {
        lemma_datastore_records_bytes_len(rs.drop_last());
        lemma_datastore_record_roundtrip(rs.last());
    }
}

/// A datastore file written as a run of records is read back as those
/// records.
pub proof fn lemma_datastore_records_roundtrip(rs: Seq<DatastoreRecord>)
    ensures
        datastore_records(datastore_records_bytes(rs)) == rs,
    decreases rs.len(),
{
    lemma_datastore_records_bytes_len(rs);
    if rs.len() > 0 {
        let front = rs.drop_last();
        lemma_datastore_records_roundtrip(front);
        lemma_datastore_records_bytes_len(front);
        lemma_datastore_record_roundtrip(rs.last());
        let b = datastore_records_bytes(rs);
        let bf = datastore_records_bytes(front);
        assert forall|k: int| 0 <= k < rs.len() implies #[trigger] datastore_records(b)[k] == rs[k] by {
            if k < front.len() {
                assert(b.subrange(19 * k, 19 * k + 19) =~= bf.subrange(19 * k, 19 * k + 19));
                assert(datastore_records(bf)[k] == front[k]);
            } else {
                assert(b.subrange(19 * k, 19 * k + 19) =~= datastore_record_bytes(rs.last()));
            }
        }
        assert(datastore_records(b) =~= rs);
    } else {
        assert(datastore_records(Seq::<u8>::empty()) =~= rs);
    }
}

/// The record that a fresh datastore file holds for content `j` of `mem`.
pub open spec fn fresh_record(mem: Seq<(DataType, u64)>, root: u64, j: int) -> DatastoreRecord {
    DatastoreRecord { c_id: j as u16, d_type: mem[j].0.spec_byte(), hash: mem[j].1, root }
}

proof fn lemma_fresh_update(mem: Seq<(DataType, u64)>, root: u64, n: nat)
    requires
        n <= mem.len(),
    ensures
        datastore_update(Seq::empty(), mem, root, n) == datastore_records_bytes(
            Seq::new(n, |j: int| fresh_record(mem, root, j)),
        ),
    decreases n,
{
    if n > 0 {
        lemma_fresh_update(mem, root, (n - 1) as nat);
        let rs = Seq::new(n, |j: int| fresh_record(mem, root, j));
        assert(rs.drop_last() =~= Seq::new((n - 1) as nat, |j: int| fresh_record(mem, root, j)));
    }
}

proof fn lemma_fresh_find(mem: Seq<(DataType, u64)>, root: u64, n: nat, j: int)
    requires
        n <= mem.len() <= 65536,
        0 <= j < 65536,
    ensures
        find_content_record(Seq::new(n, |k: int| fresh_record(mem, root, k)), j as u16) == if j < n {
            Some(fresh_record(mem, root, j))
        } else {
            None
        },
    decreases n,
{
    if n > 0 {
        let rs = Seq::new(n, |k: int| fresh_record(mem, root, k));
        assert(rs.drop_last() =~= Seq::new((n - 1) as nat, |k: int| fresh_record(mem, root, k)));
        lemma_fresh_find(mem, root, (n - 1) as nat, j);
        assert(rs.last().c_id == ((n - 1) as int) as u16);
    }
}

/// What is written of a datastore to a fresh file is read back: the
/// listing read from the records written for contents `mem` (whose types
/// their bytes name) is `mem`.
pub proof fn lemma_datastore_write_read(mem: Seq<(DataType, u64)>, root: u64)
    requires
        mem.len() <= 65536,
        forall|j: int| 0 <= j < mem.len() ==> (#[trigger] mem[j]).0.canonical(),
    ensures
        datastore_listing(datastore_records(datastore_update(Seq::empty(), mem, root, mem.len()))) == mem,
{
    let n = mem.len();
    let rs = Seq::new(n, |k: int| fresh_record(mem, root, k));
    lemma_fresh_update(mem, root, n);
    lemma_datastore_records_roundtrip(rs);
    assert forall|j: int| 0 <= j < n implies #[trigger] find_content_record(rs, j as u16) is Some by {
        lemma_fresh_find(mem, root, n, j);
    }
    lemma_listed_from(rs, n);
    if n < 65536 {
        lemma_fresh_find(mem, root, n, n as int);
    }
    assert(listed_from(rs, n) == n);
    let l = datastore_listing(rs);
    assert forall|j: int| 0 <= j < n implies #[trigger] l[j] == mem[j] by {
        lemma_fresh_find(mem, root, n, j);
    }
    assert(l =~= mem);
}

/// The header record of page `id` holding `d`, written at `ptr` of the
/// data file, and where the data file then ends (see `page_record`).
pub open spec fn record_of(id: u16, d: Data, ptr: int) -> (PageRecord, int) {
    if d.1@.len() == 0 {
        (PageRecord { page_id: id, hash: d.0, offset: 0, size: 0 }, ptr)
    } else {
        (PageRecord { page_id: id, hash: d.0, offset: ptr as u32, size: d.1@.len() as u16 }, ptr + d.1@.len())
    }
}

/// The view of an optional page.
pub open spec fn page_view(o: Option<Data>) -> Option<(u64, Seq<u8>)> {
    match o {
        Some(d) => Some(d@),
        None => None,
    }
}

/// What is written when pages of a content are added to existing header
/// and data files, from page `i` on: header records, bytes of the data
/// file and the first page (which goes to the file of first pages, page 0
/// being recorded without bytes). Page `i` is written where the header has
/// no record of it, or one of another hash, or one without bytes; the
/// pages `pages` are those that can be read. Writing stops after page
/// `brk` (but not right after page 0, nor after a page that cannot be
/// read). `None` where a page that the header does not know cannot be
/// read, or the data file would outgrow four bytes of offset.
pub open spec fn update_plan(
    hashes: Seq<u64>,
    pages: Seq<Data>,
    disk: Seq<PageRecord>,
    brk: u16,
    i: nat,
    recs: Seq<PageRecord>,
    body: Seq<u8>,
    first: Option<(u64, Seq<u8>)>,
    ptr: int,
) -> Option<(Seq<PageRecord>, Seq<u8>, Option<(u64, Seq<u8>)>)>
    decreases hashes.len() - i,
{
    if i >= hashes.len() {
        Some((recs, body, first))
    } else {
        let rec = find_record(disk, i as u16);
        let changed = rec is None || rec->0.hash != hashes[i as int] || rec->0.size == 0;
        if !changed {
            if i >= brk {
                Some((recs, body, first))
            } else {
                update_plan(hashes, pages, disk, brk, i + 1, recs, body, first, ptr)
            }
        } else if i >= pages.len() {
            if rec is None {
                None
            } else {
                update_plan(hashes, pages, disk, brk, i + 1, recs, body, first, ptr)
            }
        } else if i == 0 {
            update_plan(
                hashes,
                pages,
                disk,
                brk,
                1,
                recs.push(PageRecord { page_id: 0, hash: pages[0].0, offset: 0, size: 0 }),
                body,
                Some(pages[0]@),
                ptr,
            )
        } else {
            let d = pages[i as int];
            let (nrec, nptr) = record_of(i as u16, d, ptr);
            if nptr > u32::MAX {
                None
            } else if i >= brk {
                Some((recs.push(nrec), body + d.1@, first))
            } else {
                update_plan(hashes, pages, disk, brk, i + 1, recs.push(nrec), body + d.1@, first, nptr)
            }
        }
    }
}

/// An update plan keeps what it was given: the records already planned
/// stay first, in order, and from page 1 on the first page stays as it
/// was.
proof fn lemma_update_plan_extends(
    hashes: Seq<u64>,
    pages: Seq<Data>,
    disk: Seq<PageRecord>,
    brk: u16,
    i: nat,
    recs: Seq<PageRecord>,
    body: Seq<u8>,
    first: Option<(u64, Seq<u8>)>,
    ptr: int,
)
    ensures
        update_plan(hashes, pages, disk, brk, i, recs, body, first, ptr) matches Some(p) ==> {
            &&& p.0.len() >= recs.len()
            &&& forall|k: int| 0 <= k < recs.len() ==> #[trigger] p.0[k] == recs[k]
            &&& i >= 1 ==> p.2 == first
        },
    decreases hashes.len() - i,
{
    let here = update_plan(hashes, pages, disk, brk, i, recs, body, first, ptr);
    if i < hashes.len() {
        let rec = find_record(disk, i as u16);
        let changed = rec is None || rec->0.hash != hashes[i as int] || rec->0.size == 0;
        if !changed {
            lemma_update_plan_extends(hashes, pages, disk, brk, i + 1, recs, body, first, ptr);
        } else if i >= pages.len() {
            lemma_update_plan_extends(hashes, pages, disk, brk, i + 1, recs, body, first, ptr);
        } else if i == 0 {
            let r0 = PageRecord { page_id: 0, hash: pages[0].0, offset: 0, size: 0 };
            lemma_update_plan_extends(hashes, pages, disk, brk, 1, recs.push(r0), body, Some(pages[0]@), ptr);
            assert(here == update_plan(hashes, pages, disk, brk, 1, recs.push(r0), body, Some(pages[0]@), ptr));
            if let Some(p) = here {
                assert forall|k: int| 0 <= k < recs.len() implies #[trigger] p.0[k] == recs[k] by {
                    assert(p.0[k] == recs.push(r0)[k]);
                }
            }
        } else {
            let d = pages[i as int];
            let nrec = record_of(i as u16, d, ptr).0;
            let nptr = record_of(i as u16, d, ptr).1;
            let next = recs.push(nrec);
            lemma_update_plan_extends(hashes, pages, disk, brk, i + 1, next, body + d.1@, first, nptr);
            if let Some(p) = here {
                assert forall|k: int| 0 <= k < recs.len() implies #[trigger] p.0[k] == recs[k] by {
                    assert(next[k] == recs[k]);
                    if nptr <= u32::MAX && i < brk {
                        assert(here == update_plan(hashes, pages, disk, brk, i + 1, next, body + d.1@, first, nptr));
                        assert(p.0[k] == next[k]);
                    } else {
                        assert(p.0 == next);
                    }
                }
            }
        }
    }
}

/// Page `j` (from 1 on) is written with its hash and size once the plan
/// has reached it.
proof fn lemma_update_plan_writes_from(
    hashes: Seq<u64>,
    pages: Seq<Data>,
    disk: Seq<PageRecord>,
    brk: u16,
    i: nat,
    recs: Seq<PageRecord>,
    body: Seq<u8>,
    first: Option<(u64, Seq<u8>)>,
    ptr: int,
    j: int,
)
    requires
        hashes.len() <= u16::MAX,
        1 <= j <= brk,
        i <= j,
        j < hashes.len(),
        j < pages.len(),
        find_record(disk, j as u16) is None || find_record(disk, j as u16)->0.hash != hashes[j]
            || find_record(disk, j as u16)->0.size == 0,
    ensures
        update_plan(hashes, pages, disk, brk, i, recs, body, first, ptr) matches Some(p) ==> exists|k: int|
            0 <= k < p.0.len() && p.0[k].page_id == j && p.0[k].hash == pages[j].0 && p.0[k].size == pages[j].1@.len() as u16,
    decreases hashes.len() - i,
{
    let here = update_plan(hashes, pages, disk, brk, i, recs, body, first, ptr);
    let rec = find_record(disk, i as u16);
    let changed = rec is None || rec->0.hash != hashes[i as int] || rec->0.size == 0;
    if i < j {
        if !changed {
            lemma_update_plan_writes_from(hashes, pages, disk, brk, i + 1, recs, body, first, ptr, j);
            assert(here == update_plan(hashes, pages, disk, brk, i + 1, recs, body, first, ptr));
        } else if i >= pages.len() {
        } else if i == 0 {
            let r0 = PageRecord { page_id: 0, hash: pages[0].0, offset: 0, size: 0 };
            lemma_update_plan_writes_from(hashes, pages, disk, brk, 1, recs.push(r0), body, Some(pages[0]@), ptr, j);
            assert(here == update_plan(hashes, pages, disk, brk, 1, recs.push(r0), body, Some(pages[0]@), ptr));
        } else {
            let d = pages[i as int];
            let nrec = record_of(i as u16, d, ptr).0;
            let nptr = record_of(i as u16, d, ptr).1;
            lemma_update_plan_writes_from(hashes, pages, disk, brk, i + 1, recs.push(nrec), body + d.1@, first, nptr, j);
            if nptr <= u32::MAX {
                assert(here == update_plan(hashes, pages, disk, brk, i + 1, recs.push(nrec), body + d.1@, first, nptr));
            }
        }
    } else {
        assert(i == j);
        assert(changed);
        let d = pages[i as int];
        let nrec = record_of(i as u16, d, ptr).0;
        let nptr = record_of(i as u16, d, ptr).1;
        let next = recs.push(nrec);
        assert(nrec.page_id == j && nrec.hash == pages[j].0 && nrec.size == pages[j].1@.len() as u16);
        assert(next[recs.len() as int] == nrec);
        lemma_update_plan_extends(hashes, pages, disk, brk, i + 1, next, body + d.1@, first, nptr);
        if let Some(p) = here {
            let k = recs.len() as int;
            if i < brk {
                assert(here == update_plan(hashes, pages, disk, brk, i + 1, next, body + d.1@, first, nptr));
            } else {
                assert(p.0 == next);
            }
            assert(p.0[k] == next[k]);
            assert(0 <= k < p.0.len() && p.0[k].page_id == j && p.0[k].hash == pages[j].0 && p.0[k].size == pages[j].1@.len() as u16);
        }
    }
}

/// A page whose header record names its hash and has bytes is not
/// written again once the plan has reached it.
proof fn lemma_update_plan_skips_from(
    hashes: Seq<u64>,
    pages: Seq<Data>,
    disk: Seq<PageRecord>,
    brk: u16,
    i: nat,
    recs: Seq<PageRecord>,
    body: Seq<u8>,
    first: Option<(u64, Seq<u8>)>,
    ptr: int,
    j: int,
)
    requires
        hashes.len() <= u16::MAX,
        0 <= j < hashes.len(),
        find_record(disk, j as u16) matches Some(rec) && rec.hash == hashes[j] && rec.size != 0,
        forall|k: int| 0 <= k < recs.len() ==> (#[trigger] recs[k]).page_id != j,
    ensures
        update_plan(hashes, pages, disk, brk, i, recs, body, first, ptr) matches Some(p) ==> forall|k: int|
            0 <= k < p.0.len() ==> (#[trigger] p.0[k]).page_id != j,
    decreases hashes.len() - i,
{
    let here = update_plan(hashes, pages, disk, brk, i, recs, body, first, ptr);
    if i < hashes.len() {
        let rec = find_record(disk, i as u16);
        let changed = rec is None || rec->0.hash != hashes[i as int] || rec->0.size == 0;
        assert((i as u16) as int == i);
        if !changed {
            lemma_update_plan_skips_from(hashes, pages, disk, brk, i + 1, recs, body, first, ptr, j);
        } else if i >= pages.len() {
            lemma_update_plan_skips_from(hashes, pages, disk, brk, i + 1, recs, body, first, ptr, j);
        } else if i == 0 {
            let r0 = PageRecord { page_id: 0, hash: pages[0].0, offset: 0, size: 0 };
            assert(j != 0);
            assert forall|k: int| 0 <= k < recs.push(r0).len() implies (#[trigger] recs.push(r0)[k]).page_id != j by {
                if k < recs.len() {
                    assert(recs.push(r0)[k] == recs[k]);
                }
            }
            lemma_update_plan_skips_from(hashes, pages, disk, brk, 1, recs.push(r0), body, Some(pages[0]@), ptr, j);
            assert(here == update_plan(hashes, pages, disk, brk, 1, recs.push(r0), body, Some(pages[0]@), ptr));
        } else {
            let d = pages[i as int];
            let nrec = record_of(i as u16, d, ptr).0;
            let nptr = record_of(i as u16, d, ptr).1;
            let next = recs.push(nrec);
            assert(i != j);
            assert(nrec.page_id == i);
            assert forall|k: int| 0 <= k < next.len() implies (#[trigger] next[k]).page_id != j by {
                if k < recs.len() {
                    assert(next[k] == recs[k]);
                }
            }
            lemma_update_plan_skips_from(hashes, pages, disk, brk, i + 1, next, body + d.1@, first, nptr, j);
            if let Some(p) = here {
                if nptr <= u32::MAX && i < brk {
                    assert(here == update_plan(hashes, pages, disk, brk, i + 1, next, body + d.1@, first, nptr));
                } else {
                    assert(p.0 == next);
                }
            }
        }
    }
}

/// Updating the files of a content does not write again a page whose
/// header record names the page's hash and holds its bytes: no record
/// written names it.
pub proof fn lemma_update_keeps_current_pages(
    hashes: Seq<u64>,
    pages: Seq<Data>,
    disk: Seq<PageRecord>,
    brk: u16,
    j: int,
)
    requires
        hashes.len() <= u16::MAX,
        0 <= j < hashes.len(),
        find_record(disk, j as u16) matches Some(rec) && rec.hash == hashes[j] && rec.size != 0,
    ensures
        update_plan(hashes, pages, disk, brk, 0, Seq::empty(), Seq::empty(), None, records_end(disk) as int) matches Some(p)
            ==> forall|k: int| 0 <= k < p.0.len() ==> (#[trigger] p.0[k]).page_id != j,
{
    lemma_update_plan_skips_from(hashes, pages, disk, brk, 0, Seq::empty(), Seq::empty(), None, records_end(disk) as int, j);
}

/// Updating the files of a content writes every page that is held in
/// memory, up to page `brk`, whose header record is missing, names another
/// hash or was written without bytes: the records written hold one for it
/// with its hash and its size. Page 0 is recorded without bytes, and its
/// bytes go to the file of first pages.
pub proof fn lemma_update_writes_outdated_pages(
    hashes: Seq<u64>,
    pages: Seq<Data>,
    disk: Seq<PageRecord>,
    brk: u16,
    j: int,
)
    requires
        hashes.len() <= u16::MAX,
        0 <= j <= brk,
        j < hashes.len(),
        j < pages.len(),
        find_record(disk, j as u16) is None || find_record(disk, j as u16)->0.hash != hashes[j]
            || find_record(disk, j as u16)->0.size == 0,
    ensures
        update_plan(hashes, pages, disk, brk, 0, Seq::empty(), Seq::empty(), None, records_end(disk) as int) matches Some(p)
            ==> {
            &&& j >= 1 ==> exists|k: int| 0 <= k < p.0.len() && p.0[k].page_id == j && p.0[k].hash == pages[j].0
                && p.0[k].size == pages[j].1@.len() as u16
            &&& j == 0 ==> p.0.len() > 0 && p.0[0] == PageRecord { page_id: 0, hash: pages[0].0, offset: 0, size: 0 }
                && p.2 == Some(pages[0]@)
        },
{
    let end = records_end(disk) as int;
    if j >= 1 {
        lemma_update_plan_writes_from(hashes, pages, disk, brk, 0, Seq::empty(), Seq::empty(), None, end, j);
    } else {
        let r0 = PageRecord { page_id: 0, hash: pages[0].0, offset: 0, size: 0 };
        lemma_update_plan_extends(hashes, pages, disk, brk, 1, seq![r0], Seq::empty(), Some(pages[0]@), end);
        assert(Seq::<PageRecord>::empty().push(r0) =~= seq![r0]);
    }
}

/// What is written to fresh header and data files from page `id` on (page
/// 0 having been recorded): every page in turn, up to page `brk`. `None`
/// where the data file would outgrow four bytes of offset.
pub open spec fn fresh_plan(pages: Seq<Data>, brk: u16, id: nat, recs: Seq<PageRecord>, body: Seq<u8>, ptr: int) -> Option<(Seq<PageRecord>, Seq<u8>)>
    decreases pages.len() - id,
{
    if id >= pages.len() {
        Some((recs, body))
    } else {
        let d = pages[id as int];
        let (nrec, nptr) = record_of(id as u16, d, ptr);
        if nptr > u32::MAX {
            None
        } else if id >= brk {
            Some((recs.push(nrec), body + d.1@))
        } else {
            fresh_plan(pages, brk, id + 1, recs.push(nrec), body + d.1@, nptr)
        }
    }
}

/// What to write to the header and data files of a content.
#[derive(Debug)]
pub struct ContentWrite {
    /// The files are written anew (else the bytes are appended).
    pub fresh: bool,
    pub header: Vec<u8>,
    pub body: Vec<u8>,
    /// The content's first page, for the file of first pages.
    pub first_page: Option<Data>,
}

/// The bytes of a run of header records.
fn records_to_bytes(rs: &Vec<PageRecord>) -> (r: Vec<u8>)
    ensures
        r@ == page_records_bytes(rs@),
{
    let mut out: Vec<u8> = Vec::new();
    let mut k: usize = 0;
    while k < rs.len()
        invariant
            k <= rs@.len(),
            out@ == page_records_bytes(rs@.take(k as int)),
        decreases rs@.len() - k,
    {
        let mut b = rs[k].to_bytes();
        out.append(&mut b);
        assert(rs@.take(k + 1).drop_last() =~= rs@.take(k as int));
        k += 1;
    }
    assert(rs@.take(rs@.len() as int) =~= rs@);
    out
}

/// The write of records `recs`, data bytes `body` and first page `first`.
fn content_write(fresh: bool, recs: &Vec<PageRecord>, body: Vec<u8>, first: Option<Data>) -> (r: ContentWrite)
    ensures
        r.fresh == fresh,
        r.header@ == page_records_bytes(recs@),
        r.body@ == body@,
        page_view(r.first_page) == page_view(first),
{
    let header = records_to_bytes(recs);
    ContentWrite { fresh, header, body, first_page: first }
}

/// Where the data file of header records `rs` ends (see `records_end`).
fn end_of_records(rs: &Vec<PageRecord>) -> (r: u64)
    ensures
        r == records_end(rs@),
{
    let mut end: u64 = 0;
    let mut k: usize = 0;
    while k < rs.len()
        invariant
            k <= rs@.len(),
            end == records_end(rs@.take(k as int)),
        decreases rs@.len() - k,
    {
        let e: u64 = rs[k].offset as u64 + rs[k].size as u64;
        assert(rs@.take(k + 1).drop_last() =~= rs@.take(k as int));
        if e > end {
            end = e;
        }
        k += 1;
    }
    assert(rs@.take(rs@.len() as int) =~= rs@);
    end
}

/// The changed pages of a content appended to its files (see
/// `update_plan`).
fn plan_update(hashes: &Vec<u64>, pages: &Vec<Data>, rs: &Vec<PageRecord>, brk: u16) -> (r: Option<ContentWrite>)
    requires
        hashes@.len() <= u16::MAX,
    ensures
        ({
            let plan = update_plan(hashes@, pages@, rs@, brk, 0, Seq::empty(), Seq::empty(), None, records_end(rs@) as int);
            &&& (records_end(rs@) > u32::MAX || plan is None) ==> r is None
            &&& records_end(rs@) <= u32::MAX ==> (plan matches Some(p) ==> (r matches Some(w) && !w.fresh
                && w.header@ == page_records_bytes(p.0) && w.body@ == p.1 && page_view(w.first_page) == p.2))
        }),
{
    let end = end_of_records(rs);
    if end > u32::MAX as u64 {
        return None;
    }
    let ghost start = update_plan(hashes@, pages@, rs@, brk, 0, Seq::empty(), Seq::empty(), None, end as int);
    let mut ptr: u32 = end as u32;
    assert(ptr as int == records_end(rs@) as int);
    let mut recs: Vec<PageRecord> = Vec::new();
    let mut body: Vec<u8> = Vec::new();
    let mut first: Option<Data> = None;
    let mut i: usize = 0;
    assert(recs@ =~= Seq::<PageRecord>::empty());
    assert(body@ =~= Seq::<u8>::empty());
    while i < hashes.len()
        invariant
            hashes@.len() <= u16::MAX,
            i <= hashes@.len(),
            start == update_plan(hashes@, pages@, rs@, brk, i as nat, recs@, body@, page_view(first), ptr as int),
            start == update_plan(hashes@, pages@, rs@, brk, 0, Seq::empty(), Seq::empty(), None, records_end(rs@) as int),
            records_end(rs@) <= u32::MAX,
        decreases hashes@.len() - i,
    {
        let rec = find_page_record(rs, i as u16);
        let changed = match rec {
            None => true,
            Some(x) => x.hash != hashes[i] || x.size == 0,
        };
        assert((i as u16) as int == i);
        assert(changed == (rec is None || rec->0.hash != hashes@[i as int] || rec->0.size == 0));
        if !changed {
            if i as u16 >= brk {
                assert(start == Some((recs@, body@, page_view(first))));
                return Some(content_write(false, &recs, body, first));
            }
            i += 1;
            continue;
        }
        if i >= pages.len() {
            if rec.is_none() {
                return None;
            }
            i += 1;
            continue;
        }
        if i == 0 {
            recs.push(PageRecord { page_id: 0, hash: pages[0].get_hash(), offset: 0, size: 0 });
            first = Some(pages[0].clone());
            i += 1;
            continue;
        }
        let res = page_record(i as u16, &pages[i], ptr);
        let ghost step = record_of(i as u16, pages@[i as int], ptr as int);
        match res {
            None => {
                assert(step.1 > u32::MAX);
                return None;
            },
            Some((nrec, nptr)) => {
                assert(step == (nrec, nptr as int));
                recs.push(nrec);
                let mut b = pages[i].1.clone();
                body.append(&mut b);
                ptr = nptr;
            },
        }
        if i as u16 >= brk {
            assert(start == Some((recs@, body@, page_view(first))));
            return Some(content_write(false, &recs, body, first));
        }
        i += 1;
    }
    Some(content_write(false, &recs, body, first))
}

/// A content's pages written to fresh files (see `fresh_plan`).
fn plan_fresh(pages: &Vec<Data>, brk: u16) -> (r: Option<ContentWrite>)
    requires
        pages@.len() <= u16::MAX,
    ensures
        pages@.len() == 0 ==> (r matches Some(w) && w.fresh && w.header@.len() == 0 && w.body@.len() == 0
            && w.first_page is None),
        pages@.len() > 0 ==> {
            let plan = fresh_plan(pages@, brk, 1, seq![PageRecord { page_id: 0, hash: pages@[0].0, offset: 0, size: 0 }], Seq::empty(), 0);
            &&& plan is None ==> r is None
            &&& plan matches Some(p) ==> (r matches Some(w) && w.fresh && w.header@ == page_records_bytes(p.0)
                && w.body@ == p.1 && page_view(w.first_page) == Some(pages@[0]@))
        },
{
    if pages.len() == 0 {
        return Some(ContentWrite { fresh: true, header: Vec::new(), body: Vec::new(), first_page: None });
    }
    let ghost start = fresh_plan(pages@, brk, 1, seq![PageRecord { page_id: 0, hash: pages@[0].0, offset: 0, size: 0 }], Seq::empty(), 0);
    let mut recs: Vec<PageRecord> = Vec::new();
    recs.push(PageRecord { page_id: 0, hash: pages[0].get_hash(), offset: 0, size: 0 });
    let first = pages[0].clone();
    let mut body: Vec<u8> = Vec::new();
    let mut ptr: u32 = 0;
    let mut id: usize = 1;
    assert(recs@ =~= seq![PageRecord { page_id: 0, hash: pages@[0].0, offset: 0, size: 0 }]);
    assert(body@ =~= Seq::<u8>::empty());
    while id < pages.len()
        invariant
            pages@.len() <= u16::MAX,
            1 <= id,
            start == fresh_plan(pages@, brk, id as nat, recs@, body@, ptr as int),
            start == fresh_plan(pages@, brk, 1, seq![PageRecord { page_id: 0, hash: pages@[0].0, offset: 0, size: 0 }], Seq::empty(), 0),
            pages@.len() > 0,
            first@ == pages@[0]@,
        decreases pages@.len() - id,
    {
        assert((id as u16) as int == id);
        let res = page_record(id as u16, &pages[id], ptr);
        let ghost step = record_of(id as u16, pages@[id as int], ptr as int);
        match res {
            None => {
                assert(step.1 > u32::MAX);
                return None;
            },
            Some((nrec, nptr)) => {
                assert(step == (nrec, nptr as int));
                recs.push(nrec);
                let mut b = pages[id].1.clone();
                body.append(&mut b);
                ptr = nptr;
            },
        }
        if id as u16 >= brk {
            assert(start == Some((recs@, body@)));
            return Some(content_write(true, &recs, body, Some(first)));
        }
        id += 1;
    }
    Some(content_write(true, &recs, body, Some(first)))
}

/// What to write of a content whose page hashes are `hashes` and whose
/// readable pages are `pages`, given what its header file holds (`disk`:
/// `None` for no file, or one to be written anew), writing up to page
/// `brk`: where the header records page 0, the changed pages are appended
/// (see `update_plan`), starting where its data file ends; else both files
/// are written anew, page 0 recorded without bytes and every further page
/// up to `brk` written (see `fresh_plan`). `None` where `update_plan` or
/// `fresh_plan` is, or the data file already ends beyond four bytes of
/// offset.
pub fn plan_content_write(
    hashes: &Vec<u64>,
    pages: &Vec<Data>,
    disk: &Option<Vec<PageRecord>>,
    brk: u16,
) -> (r: Option<ContentWrite>)
    requires
        hashes@.len() <= u16::MAX,
        pages@.len() <= u16::MAX,
    ensures
        ({
            let on_disk = match *disk {
                Some(rs) => find_record(rs@, 0) is Some,
                None => false,
            };
            &&& on_disk ==> {
                let rs = disk->0@;
                let plan = update_plan(hashes@, pages@, rs, brk, 0, Seq::empty(), Seq::empty(), None, records_end(rs) as int);
                &&& (records_end(rs) > u32::MAX || plan is None) ==> r is None
                &&& records_end(rs) <= u32::MAX ==> (plan matches Some(p) ==> (r matches Some(w) && !w.fresh
                    && w.header@ == page_records_bytes(p.0) && w.body@ == p.1 && page_view(w.first_page) == p.2))
            }
            &&& !on_disk ==> {
                &&& pages@.len() == 0 ==> (r matches Some(w) && w.fresh && w.header@.len() == 0 && w.body@.len() == 0
                    && w.first_page is None)
                &&& pages@.len() > 0 ==> {
                    let plan = fresh_plan(pages@, brk, 1, seq![PageRecord { page_id: 0, hash: pages@[0].0, offset: 0, size: 0 }], Seq::empty(), 0);
                    &&& plan is None ==> r is None
                    &&& plan matches Some(p) ==> (r matches Some(w) && w.fresh && w.header@ == page_records_bytes(p.0)
                        && w.body@ == p.1 && page_view(w.first_page) == Some(pages@[0]@))
                }
            }
        }),
{
    match disk {
        Some(rs) => {
            if find_page_record(rs, 0).is_some() {
                return plan_update(hashes, pages, rs, brk);
            }
            plan_fresh(pages, brk)
        },
        None => plan_fresh(pages, brk),
    }
}

/// Pages that a tree can be built of by appending them in turn: an empty
/// page has a hash other than 0, and no page with bytes comes after an
/// empty one.
pub open spec fn pages_fit(ds: Seq<Data>) -> bool {
    &&& forall|i: int| 0 <= i < ds.len() && (#[trigger] ds[i]).1@.len() == 0 ==> ds[i].0 != 0
    &&& forall|i: int, j: int| 0 <= i < j < ds.len() && (#[trigger] ds[i]).1@.len() == 0 ==> (#[trigger] ds[j]).1@.len() == 0
}

/// The number of pages a tree takes of `n` appended: at most `u16::MAX`.
pub open spec fn capped(n: nat) -> nat {
    if n < u16::MAX { n } else { u16::MAX as nat }
}

/// The tree built by appending the pages `ds` in turn to no page (those
/// beyond `u16::MAX` are not taken): each page holds the hash and bytes of
/// its page of `ds`. `None` where the pages do not fit (see `pages_fit`).
pub fn tree_of_pages<H: Fn(&[u8]) -> u64>(ds: &Vec<Data>, sha: &H) -> (r: Option<ContentTree>)
    requires
        hasher_total(*sha),
    ensures
        r is Some <==> pages_fit(ds@.take(capped(ds@.len()) as int)),
        r matches Some(t) ==> {
            &&& t.wf(*sha)
            &&& t.pages().len() == capped(ds@.len())
            &&& forall|i: int| 0 <= i < t.pages().len() ==> (#[trigger] t.pages()[i]).hash == ds@[i].0
                && t.pages()[i].bytes == ds@[i].1@
        },
{
    let n: usize = if ds.len() < u16::MAX as usize { ds.len() } else { u16::MAX as usize };
    let ghost m = capped(ds@.len()) as int;
    let mut tree = ContentTree::empty(0);
    let mut seen_empty = false;
    let mut i: usize = 0;
    while i < n
        invariant
            hasher_total(*sha),
            n == m,
            m <= ds@.len(),
            m <= u16::MAX,
            i <= n,
            tree.wf(*sha),
            tree.pages().len() == i,
            forall|k: int| 0 <= k < i ==> (#[trigger] tree.pages()[k]).hash == ds@[k].0 && tree.pages()[k].bytes
                == ds@[k].1@,
            seen_empty == exists|k: int| 0 <= k < i && (#[trigger] ds@[k]).1@.len() == 0,
            !seen_empty ==> forall|k: int| 0 <= k < i ==> (#[trigger] tree.pages()[k]).stored,
            pages_fit(ds@.take(i as int)),
        decreases n - i,
    {
        let d = ds[i].clone();
        let empty = d.is_empty();
        if empty && d.get_hash() == 0 {
            assert(!pages_fit(ds@.take(m))) by {
                assert(ds@.take(m)[i as int] == ds@[i as int]);
            }
            return None;
        }
        if !empty && seen_empty {
            assert(!pages_fit(ds@.take(m))) by {
                let k = choose|k: int| 0 <= k < i && (#[trigger] ds@[k]).1@.len() == 0;
                assert(ds@.take(m)[k] == ds@[k]);
                assert(ds@.take(m)[i as int] == ds@[i as int]);
            }
            return None;
        }
        proof {
            lemma_len_pages(tree);
        }
        let ghost t0 = tree;
        let _ = tree.append(d, sha);
        proof {
            let p = t0.pages();
            if p.len() > 0 {
                assert(p.last() == p[p.len() - 1]);
            }
            assert(tree.pages() =~= p.push(tree.pages()[i as int]));
            assert(ds@.take(i + 1) =~= ds@.take(i as int).push(ds@[i as int]));
            assert forall|k: int| 0 <= k <= i && (#[trigger] ds@.take(i + 1)[k]).1@.len() == 0 implies ds@.take(i + 1)[k].0 != 0 by {
                if k < i {
                    assert(ds@.take(i as int)[k] == ds@[k]);
                }
            }
            assert forall|a: int, b: int| 0 <= a < b <= i && (#[trigger] ds@.take(i + 1)[a]).1@.len() == 0 implies (#[trigger] ds@.take(i + 1)[b]).1@.len() == 0 by {
                if b < i {
                    assert(ds@.take(i as int)[a] == ds@[a]);
                    assert(ds@.take(i as int)[b] == ds@[b]);
                } else {
                    assert(ds@[a].1@.len() == 0);
                }
            }
        }
        if empty {
            seen_empty = true;
        }
        i += 1;
    }
    assert(ds@.take(m) =~= ds@.take(i as int));
    Some(tree)
}

/// How many pages the header records list from id `i` on without a gap.
pub open spec fn header_count(rs: Seq<PageRecord>, i: nat) -> nat
    decreases 65536 - i,
{
    if i >= 65536 || find_record(rs, i as u16) is None {
        i
    } else {
        header_count(rs, i + 1)
    }
}

proof fn lemma_header_count(rs: Seq<PageRecord>, i: nat)
    requires
        i <= 65536,
        forall|j: int| 0 <= j < i ==> #[trigger] find_record(rs, j as u16) is Some,
    ensures
        header_count(rs, 0) == header_count(rs, i),
    decreases i,
{
    if i > 0 {
        lemma_header_count(rs, (i - 1) as nat);
        assert(find_record(rs, (i - 1) as u16) is Some);
    }
}

proof fn lemma_header_count_bounds(rs: Seq<PageRecord>, i: nat)
    requires
        i <= 65536,
    ensures
        i <= header_count(rs, i) <= 65536,
        header_count(rs, i) < 65536 ==> find_record(rs, header_count(rs, i) as u16) is None,
        forall|j: int| i <= j < header_count(rs, i) ==> #[trigger] find_record(rs, j as u16) is Some,
    decreases 65536 - i,
{
    if i < 65536 && find_record(rs, i as u16) is Some {
        lemma_header_count_bounds(rs, i + 1);
    }
}

/// For every page id, its header record (see `find_record`).
fn page_table(rs: &Vec<PageRecord>) -> (t: Vec<Option<PageRecord>>)
    ensures
        t@.len() == 65536,
        forall|i: int| 0 <= i < 65536 ==> #[trigger] t@[i] == find_record(rs@, i as u16),
{
    let mut t: Vec<Option<PageRecord>> = Vec::with_capacity(65536);
    let mut i: usize = 0;
    while i < 65536
        invariant
            i <= 65536,
            t@.len() == i,
            forall|j: int| 0 <= j < i ==> #[trigger] t@[j] == None::<PageRecord>,
        decreases 65536 - i,
    {
        t.push(None);
        i += 1;
    }
    let mut k: usize = 0;
    while k < rs.len()
        invariant
            k <= rs@.len(),
            t@.len() == 65536,
            forall|j: int| 0 <= j < 65536 ==> #[trigger] t@[j] == find_record(rs@.take(k as int), j as u16),
        decreases rs@.len() - k,
    {
        let rec = rs[k];
        t.set(rec.page_id as usize, Some(rec));
        assert forall|j: int| 0 <= j < 65536 implies #[trigger] t@[j] == find_record(rs@.take(k + 1), j as u16) by {
            assert(rs@.take(k + 1).drop_last() =~= rs@.take(k as int));
            assert(rs@.take(k + 1).last() == rec);
            assert((j as u16) as int == j);
        }
        k += 1;
    }
    assert(rs@.take(rs@.len() as int) =~= rs@);
    t
}

/// The page hashes a header lists: those of pages 0, 1, 2, ... up to the
/// first id without a record.
pub open spec fn header_hashes(rs: Seq<PageRecord>) -> Seq<u64> {
    Seq::new(header_count(rs, 0), |i: int| find_record(rs, i as u16)->0.hash)
}

/// The page hashes that a header lists (see `header_hashes`).
pub fn listed_page_hashes(rs: &Vec<PageRecord>) -> (r: Vec<u64>)
    ensures
        r@ == header_hashes(rs@),
{
    let t = page_table(rs);
    let mut v: Vec<u64> = Vec::new();
    let mut i: usize = 0;
    proof {
        lemma_header_count_bounds(rs@, 0);
    }
    while i < 65536
        invariant
            i <= 65536,
            t@.len() == 65536,
            forall|j: int| 0 <= j < 65536 ==> #[trigger] t@[j] == find_record(rs@, j as u16),
            forall|j: int| 0 <= j < i ==> #[trigger] find_record(rs@, j as u16) is Some,
            v@.len() == i,
            forall|j: int| 0 <= j < i ==> #[trigger] v@[j] == find_record(rs@, j as u16)->0.hash,
            i <= header_count(rs@, 0) <= 65536,
            header_count(rs@, 0) < 65536 ==> find_record(rs@, header_count(rs@, 0) as u16) is None,
        decreases 65536 - i,
    {
        match t[i] {
            Some(rec) => {
                assert(find_record(rs@, i as u16) is Some);
                proof {
                    lemma_header_count(rs@, (i + 1) as nat);
                    lemma_header_count_bounds(rs@, (i + 1) as nat);
                }
                v.push(rec.hash);
                i += 1;
            },
            None => {
                proof {
                    lemma_header_count(rs@, i as nat);
                }
                assert(v@ =~= header_hashes(rs@));
                return v;
            },
        }
    }
    proof {
        lemma_header_count(rs@, 65536);
    }
    assert(v@ =~= header_hashes(rs@));
    v
}

/// The content that a header file describes: data of type `d_type`
/// holding, for each page it lists (see `header_hashes`, at most
/// `u16::MAX`), a page without bytes of the listed hash. `None` where the
/// header has no record of page 0, or lists a page of hash 0.
pub fn content_from_header<H: Fn(&[u8]) -> u64>(rs: &Vec<PageRecord>, d_type: DataType, sha: &H) -> (r: Option<Content>)
    requires
        hasher_total(*sha),
    ensures
        ({
            let hs = header_hashes(rs@);
            let n = capped(hs.len());
            &&& r is Some <==> hs.len() > 0 && forall|i: int| 0 <= i < n ==> #[trigger] hs[i] != 0
            &&& r matches Some(c) ==> (c matches Content::Data(dt, mem, t) && dt == d_type && mem == 0 && t.wf(*sha)
                && t.pages().len() == n && forall|i: int| 0 <= i < n ==> (#[trigger] t.pages()[i]).hash == hs[i]
                && t.pages()[i].bytes.len() == 0)
        }),
{
    let hs = listed_page_hashes(rs);
    if hs.len() == 0 {
        return None;
    }
    let mut ds: Vec<Data> = Vec::new();
    let mut i: usize = 0;
    while i < hs.len()
        invariant
            i <= hs@.len(),
            ds@.len() == i,
            forall|k: int| 0 <= k < i ==> (#[trigger] ds@[k]).0 == hs@[k] && ds@[k].1@.len() == 0,
        decreases hs@.len() - i,
    {
        ds.push(Data::empty(hs[i]));
        i += 1;
    }
    let ghost n = capped(hs@.len()) as int;
    assert(pages_fit(ds@.take(n)) <==> forall|k: int| 0 <= k < n ==> #[trigger] hs@[k] != 0) by {
        if forall|k: int| 0 <= k < n ==> #[trigger] hs@[k] != 0 {
            assert forall|k: int| 0 <= k < n && (#[trigger] ds@.take(n)[k]).1@.len() == 0 implies ds@.take(n)[k].0 != 0 by {
                assert(hs@[k] != 0);
            }
        }
        if pages_fit(ds@.take(n)) {
            assert forall|k: int| 0 <= k < n implies #[trigger] hs@[k] != 0 by {
                assert(ds@.take(n)[k] == ds@[k]);
            }
        }
    }
    match tree_of_pages(&ds, sha) {
        Some(t) => Some(Content::Data(d_type, 0, t)),
        None => None,
    }
}

/// The bytes of page record `rec` can be read from the data file `file`:
/// a record without bytes always can; otherwise its bytes lie within the
/// file and are at most 1024.
pub open spec fn page_readable(file: Seq<u8>, rec: PageRecord) -> bool {
    rec.size == 0 || (rec.size <= 1024 && rec.offset + rec.size <= file.len())
}

/// The bytes of page record `rec` in the data file `file`.
pub open spec fn page_bytes(file: Seq<u8>, rec: PageRecord) -> Seq<u8> {
    if rec.size == 0 {
        Seq::empty()
    } else {
        file.subrange(rec.offset as int, rec.offset + rec.size)
    }
}

/// The hasher gave `bytes` a hash other than `h`.
pub open spec fn hash_refused<H: Fn(&[u8]) -> u64>(sha: H, bytes: Seq<u8>, h: u64) -> bool {
    exists|g: u64| g != h && hashes_to(sha, bytes, g)
}

/// The page that record `rec` describes, read from the data file `file`
/// and checked against the recorded hash. `None` where its bytes cannot be
/// read, or the hasher gives them another hash.
pub fn read_page<H: Fn(&[u8]) -> u64>(rec: PageRecord, file: &Vec<u8>, sha: &H) -> (r: Option<Data>)
    requires
        hasher_total(*sha),
    ensures
        !page_readable(file@, rec) ==> r is None,
        r matches Some(d) ==> page_readable(file@, rec) && d.0 == rec.hash && d.1@ == page_bytes(file@, rec)
            && hashes_to(*sha, page_bytes(file@, rec), rec.hash),
        page_readable(file@, rec) && r is None ==> hash_refused(*sha, page_bytes(file@, rec), rec.hash),
{
    let mut bytes: Vec<u8> = Vec::new();
    if rec.size > 0 {
        if rec.size > 1024 || rec.offset as usize > file.len() || rec.size as usize > file.len() - rec.offset as usize {
            return None;
        }
        crate::hashing::append_range(&mut bytes, file, rec.offset as usize, rec.offset as usize + rec.size as usize);
    }
    assert(bytes@ =~= page_bytes(file@, rec));
    match Data::new(bytes, sha) {
        Ok(d) => {
            if d.get_hash() == rec.hash {
                Some(d)
            } else {
                None
            }
        },
        Err(_) => None,
    }
}

/// Page `k` as read from the file of first pages `file` by its record
/// `rec`: a page without bytes of the recorded hash where the record has no
/// bytes, else the page read (see `read_page`).
#[verifier::opaque]
pub open spec fn first_page_read<H: Fn(&[u8]) -> u64>(file: Seq<u8>, rec: PageRecord, d: Data, sha: H) -> bool {
    &&& d.0 == rec.hash
    &&& rec.size == 0 ==> d.1@.len() == 0
    &&& rec.size > 0 ==> page_readable(file, rec) && d.1@ == page_bytes(file, rec) && hashes_to(sha, d.1@, rec.hash)
}

/// The first page recorded by `entry`: a page without bytes of the
/// recorded hash where the record has no bytes, else the page read (see
/// `read_page`).
fn read_first_page<H: Fn(&[u8]) -> u64>(entry: PageRecord, file: &Vec<u8>, sha: &H) -> (r: Option<Data>)
    requires
        hasher_total(*sha),
    ensures
        r matches Some(d) ==> first_page_read(file@, entry, d, *sha),
        r is None ==> entry.size > 0 && (!page_readable(file@, entry) || hash_refused(*sha, page_bytes(file@, entry), entry.hash)),
{
    reveal(first_page_read);
    if entry.size == 0 {
        Some(Data::empty(entry.hash))
    } else {
        read_page(entry, file, sha)
    }
}

/// The first pages kept in the file of first pages `file` with header
/// records `rs`: those of contents 0, 1, 2, ... (see `first_page_read`),
/// up to the first id without a record, or the first page that cannot be
/// read or does not have its recorded hash.
#[verifier::spinoff_prover]
pub fn load_first_pages<H: Fn(&[u8]) -> u64>(rs: &Vec<PageRecord>, file: &Vec<u8>, sha: &H) -> (r: Vec<(u16, Data)>)
    requires
        hasher_total(*sha),
    ensures
        r@.len() <= 65536,
        forall|k: int| 0 <= k < r@.len() ==> (#[trigger] r@[k]).0 == k && find_record(rs@, k as u16) is Some
            && first_page_read(file@, find_record(rs@, k as u16)->0, r@[k].1, *sha),
        r@.len() < 65536 ==> match find_record(rs@, r@.len() as u16) {
            None => true,
            Some(rec) => rec.size > 0 && (!page_readable(file@, rec) || hash_refused(*sha, page_bytes(file@, rec), rec.hash)),
        },
{
    let t = page_table(rs);
    let mut out: Vec<(u16, Data)> = Vec::new();
    let mut i: usize = 0;
    let mut stop = false;
    while i < 65536 && !stop
        invariant
            hasher_total(*sha),
            i <= 65536,
            t@.len() == 65536,
            forall|j: int| 0 <= j < 65536 ==> #[trigger] t@[j] == find_record(rs@, j as u16),
            out@.len() == i,
            forall|k: int| 0 <= k < out@.len() ==> (#[trigger] out@[k]).0 == k && find_record(rs@, k as u16) is Some
                && first_page_read(file@, find_record(rs@, k as u16)->0, out@[k].1, *sha),
            stop ==> i < 65536 && match find_record(rs@, i as u16) {
                None => true,
                Some(rec) => rec.size > 0 && (!page_readable(file@, rec) || hash_refused(*sha, page_bytes(file@, rec), rec.hash)),
            },
        decreases 65536 - i, if stop { 0int } else { 1int },
    {
        assert((i as u16) as int == i);
        match t[i] {
            None => {
                stop = true;
            },
            Some(entry) => {
                let page = read_first_page(entry, file, sha);
                match page {
                    None => {
                        stop = true;
                    },
                    Some(d) => {
                        out.push((i as u16, d));
                        i += 1;
                    },
                }
            },
        }
    }
    out
}

/// What is appended to the files of first pages for the first `n` of
/// `pages` (content id and page), the data file ending at `ptr`: a record
/// and the bytes of each page whose content has no record of its hash.
/// `None` where the data file would outgrow four bytes of offset.
pub open spec fn first_pages_update(rs: Seq<PageRecord>, pages: Seq<(u16, Data)>, n: nat, ptr: int) -> Option<(Seq<PageRecord>, Seq<u8>, int)>
    decreases n,
{
    if n == 0 {
        Some((Seq::empty(), Seq::empty(), ptr))
    } else {
        match first_pages_update(rs, pages, (n - 1) as nat, ptr) {
            None => None,
            Some((recs, body, p)) => {
                let (cid, d) = pages[n - 1];
                if find_record(rs, cid) matches Some(rec) && rec.hash == d.0 {
                    Some((recs, body, p))
                } else {
                    let (nrec, np) = record_of(cid, d, p);
                    if np > u32::MAX {
                        None
                    } else {
                        Some((recs.push(nrec), body + d.1@, np))
                    }
                }
            },
        }
    }
}

/// The header and data bytes to append to the files of first pages with
/// header records `rs` for the first pages `pages` (see
/// `first_pages_update`, starting where the data file ends). `None` where
/// that is, or the data file already ends beyond four bytes of offset.
pub fn first_pages_write(rs: &Vec<PageRecord>, pages: &Vec<(u16, Data)>) -> (r: Option<(Vec<u8>, Vec<u8>)>)
    ensures
        ({
            let plan = first_pages_update(rs@, pages@, pages@.len(), records_end(rs@) as int);
            &&& (records_end(rs@) > u32::MAX || plan is None) ==> r is None
            &&& records_end(rs@) <= u32::MAX ==> (plan matches Some(p) ==> (r matches Some(w) && w.0@
                == page_records_bytes(p.0) && w.1@ == p.1))
        }),
{
    let end = end_of_records(rs);
    if end > u32::MAX as u64 {
        return None;
    }
    let t = page_table(rs);
    let mut ptr: u32 = end as u32;
    let mut recs: Vec<PageRecord> = Vec::new();
    let mut body: Vec<u8> = Vec::new();
    let mut k: usize = 0;
    assert(recs@ =~= Seq::<PageRecord>::empty());
    assert(body@ =~= Seq::<u8>::empty());
    while k < pages.len()
        invariant
            k <= pages@.len(),
            t@.len() == 65536,
            forall|j: int| 0 <= j < 65536 ==> #[trigger] t@[j] == find_record(rs@, j as u16),
            first_pages_update(rs@, pages@, k as nat, records_end(rs@) as int) == Some((recs@, body@, ptr as int)),
            records_end(rs@) <= u32::MAX,
        decreases pages@.len() - k,
    {
        let cid = pages[k].0;
        let d = &pages[k].1;
        let kept = match t[cid as usize] {
            Some(rec) => rec.hash == d.get_hash(),
            None => false,
        };
        if !kept {
            match page_record(cid, d, ptr) {
                None => {
                    proof {
                        lemma_first_pages_none(rs@, pages@, (k + 1) as nat, pages@.len(), records_end(rs@) as int);
                    }
                    return None;
                },
                Some((nrec, nptr)) => {
                    recs.push(nrec);
                    let mut b = d.1.clone();
                    body.append(&mut b);
                    ptr = nptr;
                },
            }
        }
        k += 1;
    }
    Some((records_to_bytes(&recs), body))
}

/// Once the plan fails, it fails for every longer prefix.
proof fn lemma_first_pages_none(rs: Seq<PageRecord>, pages: Seq<(u16, Data)>, a: nat, b: nat, ptr: int)
    requires
        a <= b <= pages.len(),
        first_pages_update(rs, pages, a, ptr) is None,
    ensures
        first_pages_update(rs, pages, b, ptr) is None,
    decreases b - a,
{
    if a < b {
        lemma_first_pages_none(rs, pages, a, (b - 1) as nat, ptr);
    }
}

/// Page `i` of a content is taken from its data file: all pages but those
/// recorded without bytes, except page 0 when there is no first page for
/// it.
pub open spec fn from_file(rec: PageRecord, i: int, first: Option<Data>) -> bool {
    !(rec.size == 0 && (i > 0 || first is Some))
}

/// The page `d` is page `i` of a content as it is loaded by its record
/// `rec` from the data file `file`, with `first` the content's page from
/// the file of first pages: that first page for page 0 recorded without
/// bytes, where it has the recorded hash (a page without bytes of the
/// recorded hash where it has not); a page without bytes of the recorded
/// hash for another page recorded without bytes; else the bytes read,
/// which hash to the recorded hash.
pub open spec fn disk_page<H: Fn(&[u8]) -> u64>(file: Seq<u8>, rec: PageRecord, i: int, first: Option<Data>, d: (u64, Seq<u8>), sha: H) -> bool {
    if rec.size == 0 && i == 0 && first is Some {
        let f = first->0;
        d == if rec.hash == f.0 { f@ } else { (rec.hash, Seq::<u8>::empty()) }
    } else if rec.size == 0 && i > 0 {
        d == (rec.hash, Seq::<u8>::empty())
    } else {
        page_readable(file, rec) && d == (rec.hash, page_bytes(file, rec)) && hashes_to(sha, page_bytes(file, rec), rec.hash)
    }
}

/// How many of the first `n` pages listed by the header are taken from
/// the data file.
pub open spec fn file_pages(rs: Seq<PageRecord>, first: Option<Data>, n: nat) -> nat
    decreases n,
{
    if n == 0 {
        0
    } else {
        file_pages(rs, first, (n - 1) as nat) + if from_file(find_record(rs, (n - 1) as u16)->0, n - 1, first) {
            1nat
        } else {
            0nat
        }
    }
}

proof fn lemma_file_pages_bound(rs: Seq<PageRecord>, first: Option<Data>, n: nat)
    ensures
        file_pages(rs, first, n) <= n,
    decreases n,
{
    if n > 0 {
        lemma_file_pages_bound(rs, first, (n - 1) as nat);
    }
}

/// The hash and bytes that page `i` of a content takes when it is loaded
/// by its record `rec` (see `disk_page`), where it can be loaded.
pub open spec fn loaded_view(file: Seq<u8>, rec: PageRecord, i: int, first: Option<Data>) -> (u64, Seq<u8>) {
    if rec.size == 0 && i == 0 && first is Some {
        let f = first->0;
        if rec.hash == f.0 {
            f@
        } else {
            (rec.hash, Seq::<u8>::empty())
        }
    } else if rec.size == 0 && i > 0 {
        (rec.hash, Seq::<u8>::empty())
    } else {
        (rec.hash, page_bytes(file, rec))
    }
}

/// The hash and bytes of the first `n` pages listed by the header `rs`
/// as they are loaded (see `loaded_view`).
pub open spec fn loaded_views(rs: Seq<PageRecord>, file: Seq<u8>, first: Option<Data>, n: nat) -> Seq<(u64, Seq<u8>)> {
    Seq::new(n, |i: int| loaded_view(file, find_record(rs, i as u16)->0, i, first))
}

/// Pages given by their hash and bytes that a tree can be built of (see
/// `pages_fit`).
pub open spec fn views_fit(vs: Seq<(u64, Seq<u8>)>) -> bool {
    &&& forall|i: int| 0 <= i < vs.len() && (#[trigger] vs[i]).1.len() == 0 ==> vs[i].0 != 0
    &&& forall|i: int, j: int| 0 <= i < j < vs.len() && (#[trigger] vs[i]).1.len() == 0 ==> (#[trigger] vs[j]).1.len() == 0
}

/// Every well-formed tree whose pages have the hashes the header `rs`
/// lists (at most `u16::MAX`) has the root hash `hash`.
pub open spec fn header_hashes_to<H: Fn(&[u8]) -> u64>(rs: Seq<PageRecord>, sha: H, hash: u64) -> bool {
    let hs = header_hashes(rs);
    let n = capped(hs.len());
    forall|t0: ContentTree| #[trigger] t0.wf(sha) && t0.pages().len() == n && (forall|i: int| 0 <= i < n ==> (#[trigger] t0.pages()[i]).hash == hs[i])
        ==> t0.root_hash() == hash
}

/// One of the first `n` pages listed by `rs` that is taken from the data
/// file cannot be read there, or the hasher gives its bytes another hash
/// than the recorded one.
pub open spec fn page_refused<H: Fn(&[u8]) -> u64>(rs: Seq<PageRecord>, file: Seq<u8>, first: Option<Data>, sha: H, n: nat) -> bool {
    exists|i: int| 0 <= i < n && #[trigger] from_file(find_record(rs, i as u16)->0, i, first) && (!page_readable(
        file,
        find_record(rs, i as u16)->0,
    ) || hash_refused(sha, page_bytes(file, find_record(rs, i as u16)->0), find_record(rs, i as u16)->0.hash))
}

/// The data content of type `d_type` and hash `hash` loaded from its
/// header records `rs` and data file `file`, with `first` its page from
/// the file of first pages: the header must describe a tree of hash
/// `hash` (see `content_from_header`); then each listed page is loaded
/// (see `disk_page`) and the tree is built of them (see `tree_of_pages`),
/// counting the pages taken from the data file, and its root must have the
/// hash `hash` too. The content is loaded
/// unless the header has no page 0 or lists a hash 0, describes another
/// hash, a page cannot be loaded, or the pages do not fit a tree.
pub fn load_content<H: Fn(&[u8]) -> u64>(
    rs: &Vec<PageRecord>,
    file: &Vec<u8>,
    d_type: DataType,
    hash: u64,
    first: &Option<Data>,
    sha: &H,
) -> (r: Option<Content>)
    requires
        hasher_total(*sha),
    ensures
        header_hashes(rs@).len() == 0 ==> r is None,
        ({
            let hs = header_hashes(rs@);
            let n = capped(hs.len());
            &&& hs.len() > 0
            &&& forall|i: int| 0 <= i < n ==> #[trigger] hs[i] != 0
            &&& header_hashes_to(rs@, *sha, hash)
            &&& !page_refused(rs@, file@, *first, *sha, n)
            &&& views_fit(loaded_views(rs@, file@, *first, n))
        }) ==> r is Some,
        r matches Some(c) ==> {
            let hs = header_hashes(rs@);
            let n = capped(hs.len());
            &&& exists|t0: ContentTree| #[trigger] t0.wf(*sha) && t0.root_hash() == hash && t0.pages().len() == n
                && forall|i: int| 0 <= i < n ==> (#[trigger] t0.pages()[i]).hash == hs[i]
            &&& c matches Content::Data(dt, mem, t) && dt == d_type && mem == file_pages(rs@, *first, n) && t.wf(*sha)
                && t.root_hash() == hash && t.pages().len() == n && forall|i: int| 0 <= i < n ==> disk_page(
                file@,
                find_record(rs@, i as u16)->0,
                i,
                *first,
                page_data(#[trigger] t.pages()[i]),
                *sha,
            )
        },
{
    let shell = content_from_header(rs, d_type, sha);
    let shell_hash = match &shell {
        Some(Content::Data(_, _, t)) => t.hash(),
        _ => {
            return None;
        },
    };
    if shell_hash != hash {
        proof {
            if let Some(Content::Data(_, _, t)) = shell {
                assert(!header_hashes_to(rs@, *sha, hash)) by {
                    if header_hashes_to(rs@, *sha, hash) {
                        assert(t.wf(*sha));
                    }
                }
            }
        }
        return None;
    }
    let tab = page_table(rs);
    let hs = listed_page_hashes(rs);
    let n: usize = if hs.len() < u16::MAX as usize { hs.len() } else { u16::MAX as usize };
    proof {
        lemma_header_count_bounds(rs@, 0);
    }
    let mut ds: Vec<Data> = Vec::new();
    let mut mem: u16 = 0;
    let mut i: usize = 0;
    while i < n
        invariant
            hasher_total(*sha),
            n == capped(header_hashes(rs@).len()),
            n <= u16::MAX,
            i <= n,
            tab@.len() == 65536,
            forall|j: int| 0 <= j < 65536 ==> #[trigger] tab@[j] == find_record(rs@, j as u16),
            forall|j: int| 0 <= j < header_count(rs@, 0) ==> #[trigger] find_record(rs@, j as u16) is Some,
            header_count(rs@, 0) == header_hashes(rs@).len(),
            ds@.len() == i,
            mem == file_pages(rs@, *first, i as nat),
            forall|k: int| 0 <= k < i ==> disk_page(file@, find_record(rs@, k as u16)->0, k, *first, (#[trigger] ds@[k])@, *sha),
            forall|k: int| 0 <= k < i ==> (#[trigger] ds@[k])@ == loaded_view(file@, find_record(rs@, k as u16)->0, k, *first),
        decreases n - i,
    {
        assert((i as u16) as int == i);
        let rec = match tab[i] {
            Some(x) => x,
            None => {
                return None;
            },
        };
        proof {
            lemma_file_pages_bound(rs@, *first, i as nat);
        }
        if rec.size == 0 && i == 0 && first.is_some() {
            let d = match first {
                Some(fp) => if rec.hash == fp.get_hash() {
                    fp.clone()
                } else {
                    Data::empty(rec.hash)
                },
                None => Data::empty(rec.hash),
            };
            assert(d.1@.len() == 0 ==> d.1@ =~= Seq::<u8>::empty());
            ds.push(d);
        } else if rec.size == 0 && i > 0 {
            let d = Data::empty(rec.hash);
            assert(d.1@ =~= Seq::<u8>::empty());
            ds.push(d);
        } else {
            match read_page(rec, file, sha) {
                Some(d) => {
                    ds.push(d);
                    mem = mem + 1;
                },
                None => {
                    proof {
                        assert(find_record(rs@, i as u16) == Some(rec));
                        assert(from_file(find_record(rs@, i as u16)->0, i as int, *first));
                        assert(page_refused(rs@, file@, *first, *sha, n as nat));
                    }
                    return None;
                },
            }
        }
        assert(find_record(rs@, i as u16) == Some(rec));
        assert(disk_page(file@, rec, i as int, *first, ds@[i as int]@, *sha));
        assert(ds@[i as int]@ == loaded_view(file@, rec, i as int, *first));
        i += 1;
    }
    match tree_of_pages(&ds, sha) {
        Some(t) => {
            proof {
                let t0 = match shell { Some(Content::Data(_, _, x)) => x, _ => t };
                assert(t0.wf(*sha));
            }
            if t.hash() != hash {
                proof {
                    assert(!header_hashes_to(rs@, *sha, hash)) by {
                        if header_hashes_to(rs@, *sha, hash) {
                            assert(t.wf(*sha));
                            assert forall|k: int| 0 <= k < n implies (#[trigger] t.pages()[k]).hash == header_hashes(rs@)[k] by {
                                assert(ds@[k]@ == loaded_view(file@, find_record(rs@, k as u16)->0, k, *first));
                            }
                        }
                    }
                }
                return None;
            }
            Some(Content::Data(d_type, mem, t))
        },
        None => {
            proof {
                let vs = loaded_views(rs@, file@, *first, n as nat);
                assert(ds@.take(n as int) =~= ds@);
                assert forall|k: int| 0 <= k < n implies #[trigger] vs[k] == ds@[k]@ by {}
                if views_fit(vs) {
                    assert forall|k: int| 0 <= k < ds@.len() && (#[trigger] ds@[k]).1@.len() == 0 implies ds@[k].0 != 0 by {
                        assert(vs[k] == ds@[k]@);
                    }
                    assert forall|k: int, j: int| 0 <= k < j < ds@.len() && (#[trigger] ds@[k]).1@.len() == 0 implies (#[trigger] ds@[j]).1@.len() == 0 by {
                        assert(vs[k] == ds@[k]@);
                        assert(vs[j] == ds@[j]@);
                    }
                    assert(false);
                }
            }
            None
        },
    }
}

} // verus!
