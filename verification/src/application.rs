//! The data of one application (swarm): its datastore and its change
//! registry, and the messages that carry pages of a content being
//! transformed.

use vstd::prelude::*;
use crate::app_type::AppType;
use crate::content::{all_words, ti_tree, Content, ContentID, DataType, TransformInfo};
use crate::content_tree::{lemma_len_pages, ContentTree, Page};
use crate::data::Data;
use crate::datastore::Datastore;
use crate::error::AppError;
use crate::hashing::{append_range, be_u16, double_hash, hasher_total, hashes_to, is_pair_hash, push_u16_be, u16_from_be, u16_of};
use crate::message::{SyncMessage, SyncRequirements};
use crate::reassembly::{process_outcome, received_parts, slots_match, PartialStore};
use crate::registry::{reg_read, ChangeRegistry};

verus! {

/// A page of a content being transformed, as it travels on a broadcast: a
/// part of page hashes (`is_hash`) or a page, its number and the number of
/// parts.
#[derive(Debug)]
pub struct AppMessage {
    pub is_hash: bool,
    pub content_id: ContentID,
    pub part_no: u16,
    pub total_parts: u16,
    pub data: Data,
}

/// Bytes of a message: the header byte, 255 for a part of hashes or 0 for a
/// page, the content id, the part's number and the number of parts, then
/// the page.
pub open spec fn app_message_bytes(m: &AppMessage, header_byte: u8) -> Seq<u8> {
    seq![header_byte, if m.is_hash { 255u8 } else { 0u8 }] + be_u16(m.content_id) + be_u16(m.part_no) + be_u16(
        m.total_parts,
    ) + m.data.1@
}

impl AppMessage {
    pub fn new(content_id: ContentID, is_hash: bool, part_no: u16, total_parts: u16, data: Data) -> (r: Self)
        ensures
            r.content_id == content_id,
            r.is_hash == is_hash,
            r.part_no == part_no,
            r.total_parts == total_parts,
            r.data == data,
    {
        AppMessage { is_hash, content_id, part_no, total_parts, data }
    }

    /// The payload of a sync message carrying this message.
    pub fn to_sync(self) -> (r: Vec<u8>)
        ensures
            r@ == app_message_bytes(&self, 0),
    {
        self.bytes(0)
    }

    /// The payload of a cast message carrying this message.
    pub fn to_cast(self) -> (r: Vec<u8>)
        ensures
            r@ == app_message_bytes(&self, 0),
    {
        self.bytes(0)
    }

    fn bytes(self, header_byte: u8) -> (r: Vec<u8>)
        ensures
            r@ == app_message_bytes(&self, header_byte),
    {
        let ghost me = self;
        let mut bytes: Vec<u8> = Vec::new();
        bytes.push(header_byte);
        if self.is_hash {
            bytes.push(255);
        } else {
            bytes.push(0);
        }
        push_u16_be(&mut bytes, self.content_id);
        push_u16_be(&mut bytes, self.part_no);
        push_u16_be(&mut bytes, self.total_parts);
        let mut d = self.data.1;
        bytes.append(&mut d);
        assert(bytes@ =~= app_message_bytes(&me, header_byte));
        bytes
    }
}

/// A cast payload can be read: it starts with 0 or 1, a message (0) holds
/// its marker and three numbers, and every page read is at most 1024 bytes.
pub open spec fn cast_readable(s: Seq<u8>) -> bool {
    &&& s.len() > 0
    &&& s[0] == 0 || s[0] == 1
    &&& s[0] == 0 && s.len() >= 2 && (s[1] == 0 || s[1] == 255) ==> s.len() >= 8 && s.len() - 8 <= 1024
    &&& s[0] == 1 ==> s.len() - 1 <= 1024
}

/// Reads a cast payload: a message (header 0) whose marker is 0 or 255, or
/// a bare page (header 1) handed back as the error. A message with another
/// marker gives an empty page of hash 0 as the error.
pub fn parse_cast<H: Fn(&[u8]) -> u64>(cast_data: Vec<u8>, sha: &H) -> (r: Result<AppMessage, Data>)
    requires
        hasher_total(*sha),
        cast_readable(cast_data@),
    ensures
        ({
            let s = cast_data@;
            &&& s[0] == 0 && s.len() >= 2 && (s[1] == 0 || s[1] == 255) ==> (r matches Ok(m) && m.is_hash == (s[1]
                == 255) && m.content_id == u16_of(s[2], s[3]) && m.part_no == u16_of(s[4], s[5]) && m.total_parts
                == u16_of(s[6], s[7]) && m.data.1@ == s.skip(8) && hashes_to(*sha, s.skip(8), m.data.0))
            &&& s[0] == 0 && !(s.len() >= 2 && (s[1] == 0 || s[1] == 255)) ==> (r matches Err(d) && d@ == (
                0u64,
                Seq::<u8>::empty(),
            ))
            &&& s[0] == 1 ==> (r matches Err(d) && d.1@ == s.skip(1) && hashes_to(*sha, s.skip(1), d.0))
        }),
{
    let s = cast_data;
    let n = s.len();
    if s[0] == 0 {
        if n < 2 || !(s[1] == 0 || s[1] == 255) {
            return Err(Data::empty(0));
        }
        let is_hash = s[1] == 255;
        let content_id = u16_from_be(s[2], s[3]);
        let part_no = u16_from_be(s[4], s[5]);
        let total_parts = u16_from_be(s[6], s[7]);
        let mut rest: Vec<u8> = Vec::new();
        append_range(&mut rest, &s, 8, n);
        assert(rest@ =~= s@.skip(8));
        match Data::new(rest, sha) {
            Ok(data) => Ok(AppMessage::new(content_id, is_hash, part_no, total_parts, data)),
            Err(_) => {
                assert(false);
                Err(Data::empty(0))
            },
        }
    } else {
        let mut rest: Vec<u8> = Vec::new();
        append_range(&mut rest, &s, 1, n);
        assert(rest@ =~= s@.skip(1));
        match Data::new(rest, sha) {
            Ok(data) => Err(data),
            Err(_) => {
                assert(false);
                Err(Data::empty(0))
            },
        }
    }
}

/// Reading back the cast payload of a message gives back the message: its
/// marker, content id, numbers and page bytes (of at most 1016 bytes).
pub proof fn lemma_cast_roundtrip(m: AppMessage)
    requires
        m.data.1@.len() <= 1016,
    ensures
        ({
            let s = app_message_bytes(&m, 0);
            &&& cast_readable(s)
            &&& s[0] == 0 && s.len() >= 2 && (s[1] == 0 || s[1] == 255)
            &&& (s[1] == 255) == m.is_hash
            &&& u16_of(s[2], s[3]) == m.content_id
            &&& u16_of(s[4], s[5]) == m.part_no
            &&& u16_of(s[6], s[7]) == m.total_parts
            &&& s.skip(8) == m.data.1@
        }),
{
    let s = app_message_bytes(&m, 0);
    crate::hashing::lemma_u16_of_be(m.content_id);
    crate::hashing::lemma_u16_of_be(m.part_no);
    crate::hashing::lemma_u16_of_be(m.total_parts);
    assert(s.skip(8) =~= m.data.1@);
}

/// The next level of a tree of hashes: each pair hashed, and an odd last
/// hash carried up.
pub open spec fn pairs_up<H: Fn(&[u8]) -> u64>(sha: H, hs: Seq<u64>, next: Seq<u64>) -> bool {
    &&& next.len() == (hs.len() + 1) / 2
    &&& forall|i: int| 0 <= i < hs.len() / 2 ==> is_pair_hash(sha, hs[2 * i], hs[2 * i + 1], #[trigger] next[i])
    &&& hs.len() % 2 == 1 ==> next[next.len() - 1] == hs[hs.len() - 1]
}

/// `r` is the root of the tree of hashes built over `hs` level by level.
pub open spec fn is_tree_root<H: Fn(&[u8]) -> u64>(sha: H, hs: Seq<u64>, r: u64) -> bool
    decreases hs.len(),
{
    if hs.len() <= 1 {
        hs.len() == 1 && r == hs[0]
    } else {
        exists|next: Seq<u64>| next.len() < hs.len() && #[trigger] pairs_up(sha, hs, next) && is_tree_root(sha, next, r)
    }
}

/// The root hash of the tree of hashes built over `hashes`, level by level.
pub fn get_root_hash<H: Fn(&[u8]) -> u64>(hashes: &Vec<u64>, sha: &H) -> (r: u64)
    requires
        hasher_total(*sha),
        hashes@.len() >= 1,
    ensures
        is_tree_root(*sha, hashes@, r),
    decreases hashes@.len(),
{
    let h_len = hashes.len();
    if h_len == 1 {
        return hashes[0];
    }
    let mut sub_hashes: Vec<u64> = Vec::new();
    let half = h_len / 2;
    let mut i: usize = 0;
    while i < half
        invariant
            i <= half,
            half == h_len / 2,
            h_len == hashes@.len(),
            hasher_total(*sha),
            sub_hashes@.len() == i,
            forall|k: int| 0 <= k < i ==> is_pair_hash(*sha, hashes@[2 * k], hashes@[2 * k + 1], #[trigger] sub_hashes@[k]),
        decreases half - i,
    {
        sub_hashes.push(double_hash(hashes[2 * i], hashes[2 * i + 1], sha));
        i += 1;
    }
    if h_len % 2 == 1 {
        sub_hashes.push(hashes[h_len - 1]);
    }
    assert(pairs_up(*sha, hashes@, sub_hashes@));
    let r = get_root_hash(&sub_hashes, sha);
    assert(sub_hashes@.len() < hashes@.len());
    r
}

/// The data of an application: the change registry and the datastore.
#[derive(Debug)]
pub struct ApplicationData {
    pub change_reg: ChangeRegistry,
    pub contents: Datastore,
    /// Messages of which not all parts have arrived.
    pub partial: PartialStore,
}

impl ApplicationData {
    /// The data of a new application of type `app_type`: a datastore
    /// holding the type (see `Datastore::new`) and an empty registry.
    pub fn new<H: Fn(&[u8]) -> u64>(app_type: AppType, sha: &H) -> (r: Self)
        requires
            hasher_total(*sha),
        ensures
            r.contents.wf(),
            r.contents.contents().len() == 1,
            reg_read(r.change_reg.0@) == seq![0u16],
            r.partial.pending@.len() == 0,
    {
        let reg = ChangeRegistry::new();
        proof {
            crate::registry::lemma_new_wf();
        }
        ApplicationData { change_reg: reg, contents: Datastore::new(app_type, sha), partial: PartialStore::new() }
    }

    /// The id the next appended content gets, unless the datastore is full.
    pub fn next_c_id(&self) -> (r: Option<ContentID>)
        requires
            self.contents.wf(),
        ensures
            self.contents.contents().len() < u16::MAX ==> r == Some(self.contents.contents().len() as u16),
            self.contents.contents().len() >= u16::MAX ==> r is None,
    {
        let next_id = self.contents.len();
        if next_id < u16::MAX {
            Some(next_id)
        } else {
            None
        }
    }

    /// The hash at the datastore's root.
    pub fn root_hash<H: Fn(&[u8]) -> u64>(&self, sha: &H) -> (r: u64)
        requires
            hasher_total(*sha),
            self.contents.wf(),
            self.contents.links_fit(),
        ensures
            self.contents.hash_is(*sha, r),
    {
        self.contents.hash(sha)
    }

    /// The ids in the change registry, newest first.
    pub fn registry(&self) -> (r: Vec<ContentID>)
        ensures
            r@ == reg_read(self.change_reg.0@),
    {
        self.change_reg.read()
    }

    /// Adds a content as the last one; a datastore of `u16::MAX` contents
    /// is full.
    pub fn append<H: Fn(&[u8]) -> u64>(&mut self, content: Content, sha: &H) -> (r: Result<u64, AppError>)
        requires
            hasher_total(*sha),
            old(self).contents.wf(),
            old(self).contents.links_fit(),
            content.link_fits(),
        ensures
            final(self).contents.wf(),
            final(self).contents.links_fit(),
            final(self).change_reg == old(self).change_reg,
            old(self).contents.contents().len() >= u16::MAX ==> r == Err::<u64, AppError>(AppError::DatastoreFull)
                && final(self).contents == old(self).contents,
            old(self).contents.contents().len() < u16::MAX ==> (r matches Ok(h) && final(self).contents.hash_is(*sha, h)
                && final(self).contents.contents() == old(self).contents.contents().push(content)),
    {
        let index_to_add = self.contents.len();
        if index_to_add == u16::MAX {
            return Err(AppError::DatastoreFull);
        }
        self.contents.append(content, sha)
    }

    /// All pages of content `c_id`, read from page 0 on until a page cannot
    /// be read (at most 65535); the error of reading page 0 when it cannot.
    pub fn get_all_data<H: Fn(&[u8]) -> u64>(&self, c_id: ContentID, sha: &H) -> (r: Result<Vec<Data>, AppError>)
        requires
            hasher_total(*sha),
            self.contents.wf(),
            self.contents.contents_ok(),
        ensures
            c_id >= self.contents.contents().len() ==> r == Err::<Vec<Data>, AppError>(AppError::IndexingError),
            c_id < self.contents.contents().len() ==> match self.contents.contents()[c_id as int] {
                Content::Link(..) => r matches Ok(v) && v@.len() == 1 && self.contents.contents()[c_id as int].link_page(
                    v@[0].1@,
                ),
                Content::Data(_, _, tree) => r matches Ok(v) && v@.len() == if tree.leaves().len() < u16::MAX {
                    tree.leaves().len() as int
                } else {
                    u16::MAX as int
                } && forall|i: int| 0 <= i < v@.len() ==> (#[trigger] v@[i])@ == crate::content_tree::page_data(
                    tree.leaves()[i],
                ),
            },
    {
        proof {
            if c_id < self.contents.contents().len() {
                let cc = self.contents.contents()[c_id as int];
                assert(cc.shape_ok());
                if let Content::Data(_, _, t) = cc {
                    crate::content_tree::lemma_len_pages(t);
                }
            }
        }
        let first = self.contents.read_data((c_id, 0), sha);
        let mut data_vec: Vec<Data> = Vec::new();
        match first {
            Ok(data) => data_vec.push(data),
            Err(e) => {
                return Err(e);
            },
        }
        let ghost c = self.contents.contents()[c_id as int];
        let mut i: u16 = 1;
        while i < u16::MAX
            invariant_except_break
                c matches Content::Data(_, _, tree) ==> i <= tree.leaves().len(),
            invariant
                1 <= i <= u16::MAX,
                c_id < self.contents.contents().len(),
                c == self.contents.contents()[c_id as int],
                hasher_total(*sha),
                self.contents.wf(),
                self.contents.contents_ok(),
                data_vec@.len() == i,
                c is Link ==> i == 1 && c.link_page(data_vec@[0].1@),
                c matches Content::Data(_, _, tree) ==> forall|k: int| 0 <= k < data_vec@.len() ==> (#[trigger] data_vec@[k])@
                    == crate::content_tree::page_data(tree.leaves()[k]),
            ensures
                c is Link ==> data_vec@.len() == 1 && c.link_page(data_vec@[0].1@),
                c matches Content::Data(_, _, tree) ==> data_vec@.len() == (if tree.leaves().len() < u16::MAX {
                    tree.leaves().len() as int
                } else {
                    u16::MAX as int
                }) && forall|k: int| 0 <= k < data_vec@.len() ==> (#[trigger] data_vec@[k])@
                    == crate::content_tree::page_data(tree.leaves()[k]),
            decreases u16::MAX - i,
        {
            match self.contents.read_data((c_id, i), sha) {
                Ok(data) => {
                    data_vec.push(data);
                },
                Err(_) => {
                    break;
                },
            }
            i += 1;
        }
        Ok(data_vec)
    }

    /// The type and hash of content `c_id` (see
    /// `Datastore::get_root_content_typed_hash`).
    pub fn content_root_hash<H: Fn(&[u8]) -> u64>(&self, c_id: ContentID, sha: &H) -> (r: Result<(DataType, u64), AppError>)
        requires
            hasher_total(*sha),
            self.contents.wf(),
            self.contents.contents_ok(),
        ensures
            self.contents is Empty ==> r == Err::<(DataType, u64), AppError>(AppError::ContentEmpty),
            !(self.contents is Empty) && c_id >= self.contents.contents().len() ==> r == Err::<(DataType, u64), AppError>(
                AppError::IndexingError,
            ),
            c_id < self.contents.contents().len() ==> (r matches Ok((t, h)) && t == self.contents.contents()[c_id as int].spec_data_type()
                && self.contents.contents()[c_id as int].hashes_to(*sha, h)),
    {
        self.contents.get_root_content_typed_hash(c_id, sha)
    }

    /// The page hashes of content `c_id` (see
    /// `Datastore::content_bottom_hashes`) written eight bytes each, 128 to a
    /// page.
    pub fn get_all_page_hashes<H: Fn(&[u8]) -> u64>(&self, c_id: ContentID, sha: &H) -> (r: Result<Vec<Data>, AppError>)
        requires
            hasher_total(*sha),
            self.contents.wf(),
            self.contents.contents_ok(),
            forall|i: int| 0 <= i < self.contents.contents().len() ==> (#[trigger] self.contents.contents()[i] matches Content::Link(
                _,
                _,
                _,
                _,
                Some(t),
            ) ==> forall|k: int| 0 <= k < t.data_hashes@.len() ==> (#[trigger] t.data_hashes@[k]).1@.len() % 8 == 0),
        ensures
            r matches Ok(pages) ==> exists|hs: Seq<u64>| #[trigger] hashes_in_pages(hs, pages@)
                && self.contents.bottom_hashes_of(c_id, *sha, hs),
            r matches Err(e) ==> (self.contents is Empty && e == AppError::ContentEmpty) || (self.contents is Hashed
                && e == AppError::Smthg && c_id >= self.contents.contents().len()),
            forall|pages: Vec<Data>| r == Ok::<Vec<Data>, AppError>(pages) ==> forall|g: int| 0 <= g < pages@.len() ==> hashes_to(
                *sha,
                (#[trigger] pages@[g]).1@,
                pages@[g].0,
            ),
    {
        let hashes_vec = match self.contents.content_bottom_hashes(c_id, sha) {
            Ok(v) => v,
            Err(e) => {
                return Err(e);
            },
        };
        let n = hashes_vec.len();
        let mut results: Vec<Data> = Vec::new();
        let mut bytes: Vec<u8> = Vec::new();
        let mut j: usize = 0;
        while j < n
            invariant
                j <= n,
                n == hashes_vec@.len(),
                hasher_total(*sha),
                results@.len() == (if j == 0 { 0 } else { (j - 1) as int / 128 }),
                bytes@ == hash_bytes(hashes_vec@.subrange(128 * results@.len() as int, j as int)),
                j > 0 ==> j - 128 * results@.len() >= 1 && j - 128 * results@.len() <= 128,
                forall|g: int| 0 <= g < results@.len() ==> (#[trigger] results@[g]).1@ == hash_bytes(
                    hashes_vec@.subrange(128 * g, 128 * g + 128),
                ) && hashes_to(*sha, results@[g].1@, results@[g].0),
            decreases n - j,
        {
            if j > 0 && (j - 128 * results.len()) == 128 {
                let mut ready: Vec<u8> = Vec::new();
                std::mem::swap(&mut ready, &mut bytes);
                proof {
                    lemma_hash_bytes_len(hashes_vec@.subrange(128 * results@.len() as int, j as int));
                }
                match Data::new(ready, sha) {
                    Ok(d) => results.push(d),
                    Err(_) => {
                        assert(false);
                    },
                }
                assert(hashes_vec@.subrange(128 * results@.len() as int, j as int) =~= Seq::<u64>::empty());
                assert(bytes@ =~= hash_bytes(Seq::<u64>::empty()));
            }
            let ghost before = bytes@;
            crate::hashing::push_u64_be(&mut bytes, hashes_vec[j]);
            proof {
                let lo = 128 * results@.len() as int;
                assert(hashes_vec@.subrange(lo, j + 1).drop_last() =~= hashes_vec@.subrange(lo, j as int));
                assert(hashes_vec@.subrange(lo, j + 1).last() == hashes_vec@[j as int]);
                assert(before == hash_bytes(hashes_vec@.subrange(lo, j as int)));
                assert(bytes@ == hash_bytes(hashes_vec@.subrange(lo, j + 1)));
            }
            j += 1;
        }
        proof {
            lemma_hash_bytes_len(hashes_vec@.subrange(128 * results@.len() as int, n as int));
        }
        match Data::new(bytes, sha) {
            Ok(d) => results.push(d),
            Err(_) => {
                assert(false);
            },
        }
        proof {
            assert(hashes_in_pages(hashes_vec@, results@));
        }
        let ghost rv = results@;
        let res: Result<Vec<Data>, AppError> = Ok(results);
        proof {
            let ghost rr = res;
            if let Ok(pages) = rr {
                assert(hashes_in_pages(hashes_vec@, pages@));
            }
        }
        res
    }
}

/// The big-endian bytes of each hash, in order.
pub open spec fn hash_bytes(hs: Seq<u64>) -> Seq<u8>
    decreases hs.len(),
{
    if hs.len() == 0 {
        Seq::empty()
    } else {
        hash_bytes(hs.drop_last()) + crate::hashing::be_u64(hs.last())
    }
}

proof fn lemma_hash_bytes_len(hs: Seq<u64>)
    ensures
        hash_bytes(hs).len() == 8 * hs.len(),
    decreases hs.len(),
{
    if hs.len() > 0 {
        lemma_hash_bytes_len(hs.drop_last());
    }
}

/// `pages` hold the hashes `hs`, 128 to a page, the last page holding the
/// rest (and a single empty page when there is no hash).
pub open spec fn hashes_in_pages(hs: Seq<u64>, pages: Seq<Data>) -> bool {
    let n = hs.len();
    let k = if n == 0 { 0 } else { (n - 1) / 128 };
    &&& pages.len() == k + 1
    &&& forall|g: int| 0 <= g < k ==> (#[trigger] pages[g]).1@ == hash_bytes(hs.subrange(128 * g, 128 * g + 128))
    &&& pages[k].1@ == hash_bytes(hs.subrange(128 * k, n as int))
}

/// The requirement that content `c_id` has hash `h` holds of the
/// contents `cs`: the content has that hash, or there is no such content
/// and `h` is 0.
pub open spec fn requirement_holds<H: Fn(&[u8]) -> u64>(cs: Seq<Content>, sha: H, c_id: u16, h: u64) -> bool {
    if c_id < cs.len() {
        cs[c_id as int].hashes_to(sha, h)
    } else {
        h == 0
    }
}

/// The requirement that content `c_id` has hash `h` fails: the content has
/// another hash, or there is no such content and `h` is not 0.
pub open spec fn requirement_fails<H: Fn(&[u8]) -> u64>(cs: Seq<Content>, sha: H, c_id: u16, h: u64) -> bool {
    if c_id < cs.len() {
        exists|g: u64| g != h && #[trigger] cs[c_id as int].hashes_to(sha, g)
    } else {
        h != 0
    }
}

/// Every pair holds of the application data (true), or one fails (false).
fn requirements_met<H: Fn(&[u8]) -> u64>(pairs: &Vec<(ContentID, u64)>, app: &ApplicationData, sha: &H) -> (r: bool)
    requires
        hasher_total(*sha),
        app.contents.wf(),
        app.contents.contents_ok(),
    ensures
        r ==> forall|k: int| 0 <= k < pairs@.len() ==> requirement_holds(app.contents.contents(), *sha, (#[trigger] pairs@[k]).0, pairs@[k].1),
        !r ==> exists|k: int| 0 <= k < pairs@.len() && requirement_fails(app.contents.contents(), *sha, (#[trigger] pairs@[k]).0, pairs@[k].1),
{
    let ghost cs = app.contents.contents();
    let mut i: usize = 0;
    while i < pairs.len()
        invariant
            hasher_total(*sha),
            app.contents.wf(),
            app.contents.contents_ok(),
            cs == app.contents.contents(),
            i <= pairs@.len(),
            forall|k: int| 0 <= k < i ==> requirement_holds(cs, *sha, (#[trigger] pairs@[k]).0, pairs@[k].1),
        decreases pairs@.len() - i,
    {
        let (c_id, hash) = pairs[i];
        match app.content_root_hash(c_id, sha) {
            Ok((_d_type, d_hash)) => {
                if d_hash != hash {
                    assert(requirement_fails(cs, *sha, c_id, hash));
                    assert(requirement_fails(cs, *sha, pairs@[i as int].0, pairs@[i as int].1));
                    return false;
                }
            },
            Err(_) => {
                if hash != 0 {
                    assert(requirement_fails(cs, *sha, pairs@[i as int].0, pairs@[i as int].1));
                    return false;
                }
            },
        }
        assert(requirement_holds(cs, *sha, pairs@[i as int].0, pairs@[i as int].1));
        i += 1;
    }
    true
}

impl SyncRequirements {
    /// Whether every content named before the message has the hash given
    /// for it (see `requirement_holds`; the id `_c_id` is not looked at).
    pub fn pre_validate<H: Fn(&[u8]) -> u64>(&self, _c_id: ContentID, app: &ApplicationData, sha: &H) -> (r: bool)
        requires
            hasher_total(*sha),
            app.contents.wf(),
            app.contents.contents_ok(),
        ensures
            r ==> forall|k: int| 0 <= k < self.pre@.len() ==> requirement_holds(app.contents.contents(), *sha, (#[trigger] self.pre@[k]).0, self.pre@[k].1),
            !r ==> exists|k: int| 0 <= k < self.pre@.len() && requirement_fails(app.contents.contents(), *sha, (#[trigger] self.pre@[k]).0, self.pre@[k].1),
    {
        requirements_met(&self.pre, app, sha)
    }

    /// Whether every content named after the message has the hash given
    /// for it (see `requirement_holds`; the id `_c_id` is not looked at).
    pub fn post_validate<H: Fn(&[u8]) -> u64>(&self, _c_id: ContentID, app: &ApplicationData, sha: &H) -> (r: bool)
        requires
            hasher_total(*sha),
            app.contents.wf(),
            app.contents.contents_ok(),
        ensures
            r ==> forall|k: int| 0 <= k < self.post@.len() ==> requirement_holds(app.contents.contents(), *sha, (#[trigger] self.post@[k]).0, self.post@[k].1),
            !r ==> exists|k: int| 0 <= k < self.post@.len() && requirement_fails(app.contents.contents(), *sha, (#[trigger] self.post@[k]).0, self.post@[k].1),
    {
        requirements_met(&self.post, app, sha)
    }
}

/// The hashes of the pages.
pub open spec fn page_hashes(ds: Seq<Data>) -> Seq<u64> {
    Seq::new(ds.len(), |i: int| ds[i].0)
}

/// `a` and `b` have the same length and differ at index `i` alone.
pub open spec fn differs_only_at(a: Seq<u64>, b: Seq<u64>, i: int) -> bool {
    &&& a.len() == b.len()
    &&& 0 <= i < a.len()
    &&& a[i] != b[i]
    &&& forall|j: int| 0 <= j < a.len() && j != i ==> a[j] == b[j]
}

/// The ids `d < n` of the pages whose hash `new[d]` is not among `old`, in
/// order.
pub open spec fn unknown_pages(new: Seq<u64>, old: Seq<u64>, n: nat) -> Seq<u16>
    decreases n,
{
    if n == 0 {
        Seq::empty()
    } else {
        let before = unknown_pages(new, old, (n - 1) as nat);
        if old.contains(new[n - 1]) {
            before
        } else {
            before.push((n - 1) as u16)
        }
    }
}

/// What a local request to change a content into given pages comes to.
#[derive(Debug)]
pub enum ChangePlan {
    /// The content is a link that has pages, or of another type.
    Refused,
    /// The pages differ from the content's in one page alone: an update of
    /// that page.
    UpdateOne(u16),
    /// No page, or more than 128 pages, to change to: not supported.
    Unsupported,
    /// A change of the whole content from hash `pre_hash` to `post_hash`,
    /// announced by a page of the new page hashes; the pages to send after
    /// it are those whose hash the content does not hold.
    Change { pre_hash: u64, post_hash: u64, hashes_page: Data, pages_to_send: Vec<u16> },
}

/// Whether `v` holds `x`.
fn holds_hash(v: &Vec<u64>, x: u64) -> (r: bool)
    ensures
        r == v@.contains(x),
{
    let mut i: usize = 0;
    while i < v.len()
        invariant
            i <= v@.len(),
            forall|j: int| 0 <= j < i ==> v@[j] != x,
        decreases v@.len() - i,
    {
        if v[i] == x {
            return true;
        }
        i += 1;
    }
    false
}

/// The one index at which `a` and `b` differ, if they have the same length
/// and differ at one index alone.
fn only_difference(a: &Vec<u64>, b: &Vec<u64>) -> (r: Option<usize>)
    ensures
        r matches Some(i) ==> differs_only_at(a@, b@, i as int),
        r is None ==> forall|i: int| !differs_only_at(a@, b@, i),
{
    if a.len() != b.len() {
        return None;
    }
    let mut found: Option<usize> = None;
    let mut i: usize = 0;
    while i < a.len()
        invariant
            a@.len() == b@.len(),
            i <= a@.len(),
            found matches Some(k) ==> k < i && a@[k as int] != b@[k as int] && forall|j: int| 0 <= j < i && j != k ==> a@[j] == b@[j],
            found is None ==> forall|j: int| 0 <= j < i ==> a@[j] == b@[j],
        decreases a@.len() - i,
    {
        if a[i] != b[i] {
            if found.is_some() {
                let ghost k = found->0 as int;
                assert forall|x: int| !differs_only_at(a@, b@, x) by {
                    if differs_only_at(a@, b@, x) {
                        assert(x == k || x == i);
                    }
                }
                return None;
            }
            found = Some(i);
        }
        i += 1;
    }
    if found.is_none() {
        assert forall|x: int| !differs_only_at(a@, b@, x) by {}
    }
    found
}

impl ApplicationData {
    /// Takes in a part of a sync message (see `PartialStore::process`); the
    /// contents are not touched.
    pub fn process<H: Fn(&[u8]) -> u64>(&mut self, data: Vec<u8>, sha: &H) -> (r: Option<SyncMessage>)
        requires
            hasher_total(*sha),
            slots_match(old(self).partial.pending@),
        ensures
            slots_match(final(self).partial.pending@),
            process_outcome(old(self).partial.pending@, final(self).partial.pending@, data, *sha, r),
            final(self).contents == old(self).contents,
            final(self).change_reg == old(self).change_reg,
    {
        self.partial.process(data, sha)
    }

    /// The header parts of the messages waiting for parts.
    pub fn get_partial_hashes(&self) -> (r: Vec<Vec<u8>>)
        ensures
            r@.len() == self.partial.pending@.len(),
            forall|i: int| 0 <= i < r@.len() ==> (#[trigger] r@[i])@ == self.partial.pending@[i].header@,
    {
        self.partial.headers()
    }

    /// The later parts received of the messages waiting for parts.
    pub fn get_partial_data(&self) -> (r: Vec<Vec<u8>>)
        ensures
            r@.map_values(|v: Vec<u8>| v@) == received_parts(self.partial.pending@),
    {
        self.partial.received()
    }

    /// What changing content `c_id` into the pages `data_vec` of type
    /// `d_type` comes to: refused for a link that has pages or a content of
    /// another type; an update of one page where the new page hashes differ
    /// from the content's in that page alone; else, for 1 to 128 pages, a
    /// change from the content's hash to the root of the tree of the new
    /// page hashes, announced by a page holding those hashes, followed by
    /// the pages whose hash the content does not hold.
    pub fn plan_change_content<H: Fn(&[u8]) -> u64>(&self, c_id: ContentID, d_type: DataType, data_vec: &Vec<Data>, sha: &H) -> (r: ChangePlan)
        requires
            hasher_total(*sha),
            self.contents.wf(),
            self.contents.contents_ok(),
            c_id < self.contents.contents().len(),
            forall|i: int| 0 <= i < self.contents.contents().len() ==> (#[trigger] self.contents.contents()[i] matches Content::Link(
                _,
                _,
                _,
                _,
                Some(t),
            ) ==> forall|k: int| 0 <= k < t.data_hashes@.len() ==> (#[trigger] t.data_hashes@[k]).1@.len() % 8 == 0),
        ensures
            ({
                let c = self.contents.contents()[c_id as int];
                let refused = (c.spec_data_type() == DataType::Link && c.spec_len() > 0) || c.spec_data_type() != d_type;
                let new = page_hashes(data_vec@);
                &&& refused ==> r is Refused
                &&& !refused ==> exists|ex: Seq<u64>| #[trigger] self.contents.bottom_hashes_of(c_id, *sha, ex) && {
                    &&& forall|i: int| differs_only_at(new, ex, i) ==> r == ChangePlan::UpdateOne(i as u16)
                    &&& (forall|i: int| !differs_only_at(new, ex, i)) && (new.len() == 0 || new.len() > 128) ==> r is Unsupported
                    &&& (forall|i: int| !differs_only_at(new, ex, i)) && 1 <= new.len() <= 128 ==> (r matches ChangePlan::Change {
                        pre_hash,
                        post_hash,
                        hashes_page,
                        pages_to_send,
                    } && c.hashes_to(*sha, pre_hash) && is_tree_root(*sha, new, post_hash) && hashes_page.1@ == hash_bytes(new)
                        && hashes_to(*sha, hash_bytes(new), hashes_page.0) && pages_to_send@ == unknown_pages(new, ex, new.len()))
                }
            }),
    {
        let (curr_d_type, curr_len) = match self.contents.type_and_len(c_id) {
            Ok(x) => x,
            Err(_) => {
                return ChangePlan::Refused;
            },
        };
        let curr_hash = match self.content_root_hash(c_id, sha) {
            Ok((_t, h)) => h,
            Err(_) => {
                return ChangePlan::Refused;
            },
        };
        if (curr_d_type == DataType::Link && curr_len > 0) || curr_d_type != d_type {
            return ChangePlan::Refused;
        }
        let existing = match self.contents.content_bottom_hashes(c_id, sha) {
            Ok(v) => v,
            Err(_) => {
                return ChangePlan::Refused;
            },
        };
        let mut new_hashes: Vec<u64> = Vec::new();
        let mut i: usize = 0;
        while i < data_vec.len()
            invariant
                i <= data_vec@.len(),
                new_hashes@ == page_hashes(data_vec@).take(i as int),
            decreases data_vec@.len() - i,
        {
            new_hashes.push(data_vec[i].get_hash());
            assert(new_hashes@ =~= page_hashes(data_vec@).take(i + 1));
            i += 1;
        }
        assert(new_hashes@ =~= page_hashes(data_vec@));
        if let Some(d_id) = only_difference(&new_hashes, &existing) {
            assert(forall|x: int| differs_only_at(new_hashes@, existing@, x) ==> x == d_id);
            return ChangePlan::UpdateOne(d_id as u16);
        }
        let n = new_hashes.len();
        if n == 0 || n > 128 {
            return ChangePlan::Unsupported;
        }
        let mut bytes: Vec<u8> = Vec::new();
        let mut k: usize = 0;
        while k < n
            invariant
                n == new_hashes@.len(),
                k <= n,
                bytes@ == hash_bytes(new_hashes@.take(k as int)),
            decreases n - k,
        {
            crate::hashing::push_u64_be(&mut bytes, new_hashes[k]);
            assert(new_hashes@.take(k + 1).drop_last() =~= new_hashes@.take(k as int));
            k += 1;
        }
        assert(new_hashes@.take(n as int) =~= new_hashes@);
        proof {
            lemma_hash_bytes_len(new_hashes@);
        }
        let hashes_page = match Data::new(bytes, sha) {
            Ok(d) => d,
            Err(_) => {
                return ChangePlan::Unsupported;
            },
        };
        let post_hash = get_root_hash(&new_hashes, sha);
        let mut send: Vec<u16> = Vec::new();
        let mut j: usize = 0;
        while j < n
            invariant
                n == new_hashes@.len(),
                n <= 128,
                j <= n,
                send@ == unknown_pages(new_hashes@, existing@, j as nat),
            decreases n - j,
        {
            if !holds_hash(&existing, new_hashes[j]) {
                send.push(j as u16);
            }
            j += 1;
        }
        ChangePlan::Change { pre_hash: curr_hash, post_hash, hashes_page, pages_to_send: send }
    }
}

/// How many of the first `n` pages hold bytes.
pub open spec fn count_with_bytes(p: Seq<Page>, n: nat) -> nat
    decreases n,
{
    if n == 0 {
        0
    } else {
        count_with_bytes(p, (n - 1) as nat) + if p[n - 1].bytes.len() > 0 { 1nat } else { 0nat }
    }
}

/// Replacing page `i` of `p` by `q` changes the count of the first `n`
/// pages that hold bytes by what the two pages hold.
proof fn lemma_count_update(p: Seq<Page>, i: int, q: Page, n: nat)
    requires
        0 <= i < p.len(),
        n <= p.len(),
    ensures
        count_with_bytes(p.update(i, q), n) == count_with_bytes(p, n) - (if i < n && p[i].bytes.len() > 0 { 1int } else { 0int })
            + (if i < n && q.bytes.len() > 0 { 1int } else { 0int }),
    decreases n,
{
    if n > 0 {
        lemma_count_update(p, i, q, (n - 1) as nat);
    }
}

/// A page of a tree that is not stored holds no bytes.
proof fn lemma_placeholders_empty(t: ContentTree)
    ensures
        forall|i: int| 0 <= i < t.leaves().len() && !(#[trigger] t.leaves()[i]).stored ==> t.leaves()[i].bytes.len() == 0,
    decreases t,
{
    if let ContentTree::Hashed(st) = t {
        lemma_placeholders_empty(st.left);
        lemma_placeholders_empty(st.right);
        assert forall|i: int| 0 <= i < t.leaves().len() && !(#[trigger] t.leaves()[i]).stored implies t.leaves()[i].bytes.len() == 0 by {
            if i < st.left.leaves().len() {
                assert(t.leaves()[i] == st.left.leaves()[i]);
            } else {
                assert(t.leaves()[i] == st.right.leaves()[i - st.left.leaves().len()]);
            }
        }
    }
}

/// Replacing a page of a data content keeps its count of pages with bytes
/// right: when it counted the pages of its tree that hold bytes before, it
/// does after. The other pages stay as they were; a replaced page holds the
/// new bytes, and a refused replacement leaves the content as it was.
pub proof fn lemma_update_keeps_count<H: Fn(&[u8]) -> u64>(
    c: Content,
    data_id: u16,
    data: Data,
    sha: H,
    c2: Content,
    r: Result<Data, AppError>,
)
    requires
        c matches Content::Data(_, mem, t) && mem == count_with_bytes(t.leaves(), t.leaves().len()),
        Content::data_updated(c, data_id, data, sha, c2, r),
    ensures
        c2 matches Content::Data(_, mem2, t2) && mem2 == count_with_bytes(t2.leaves(), t2.leaves().len()),
        c matches Content::Data(_, _, t) && c2 matches Content::Data(_, _, t2) && t2.leaves().len() == t.leaves().len()
            && forall|i: int| 0 <= i < t.leaves().len() && i != data_id ==> #[trigger] t2.leaves()[i] == t.leaves()[i],
        r is Ok ==> (c2 matches Content::Data(_, _, t2) && t2.leaves()[data_id as int].bytes == data.1@),
        r is Err ==> c2 == c,
{
    if let Content::Data(dt, mem, t) = c {
        if let Content::Data(dt2, mem2, t2) = c2 {
            let p = t.leaves();
            let n = p.len();
            lemma_placeholders_empty(t);
            if data_id < n {
                let leaf = p[data_id as int];
                if leaf.stored {
                    let q = crate::content_tree::stored_page(data@);
                    lemma_count_update(p, data_id as int, q, n);
                } else {
                    if r is Ok {
                        let q = crate::content_tree::stored_page((leaf.hash, data@.1));
                        lemma_count_update(p, data_id as int, q, n);
                    }
                }
            }
        }
    }
}

/// How many pages of the tree hold bytes.
fn pages_with_bytes(t: &ContentTree) -> (r: u16)
    requires
        t.wf_shape(),
    ensures
        r == count_with_bytes(t.pages(), t.pages().len()),
{
    proof {
        lemma_len_pages(*t);
    }
    let n = t.len();
    let mut count: u16 = 0;
    let mut i: u16 = 0;
    while i < n
        invariant
            t.wf_shape(),
            n == t.pages().len(),
            i <= n,
            count == count_with_bytes(t.pages(), i as nat),
            count <= i,
        decreases n - i,
    {
        proof {
            lemma_len_pages(*t);
        }
        let d = t.read(i);
        match d {
            Ok(page) => {
                if !page.is_empty() {
                    count = count + 1;
                }
            },
            Err(_) => {},
        }
        i = i + 1;
    }
    count
}

/// `tree` is what `TransformInfo::into_tree` makes of `ti` (see there).
pub open spec fn transformed<H: Fn(&[u8]) -> u64>(ti: TransformInfo, tree: ContentTree, sha: H) -> bool {
    if !ti.missing_hashes@.is_empty() || ti.data_hashes@.len() == 0 {
        tree == ContentTree::Empty(ti.root_hash)
    } else {
        tree.wf(sha) && exists|pre: int| #[trigger] ti_tree(ti, all_words(ti.data_hashes@), tree, pre, sha)
    }
}

impl ApplicationData {
    /// Turns link `content_id` into the content it links to, built from its
    /// transform info (see `TransformInfo::into_tree`): data of the info's
    /// type, counting its pages with bytes; the link, without its info, is
    /// returned. Where the info's pages do not fit a tree, the link keeps
    /// its info and `Smthg` is the answer. A content that is not a link, a
    /// link without an info and a missing content give the errors of
    /// `Datastore::take_transform_info` (which leaves a datastore of a single
    /// content empty when asked for another id).
    pub fn transform_link<H: Fn(&[u8]) -> u64>(&mut self, content_id: ContentID, sha: &H) -> (r: Result<Content, AppError>)
        requires
            hasher_total(*sha),
            old(self).contents.wf(),
            old(self).contents.links_fit(),
            content_id < old(self).contents.contents().len() ==> (old(self).contents.contents()[content_id as int] matches Content::Link(
                _,
                _,
                _,
                _,
                Some(t),
            ) ==> forall|i: int| 0 <= i < t.data_hashes@.len() ==> (#[trigger] t.data_hashes@[i]).1@.len() % 8 == 0),
        ensures
            final(self).contents.wf(),
            final(self).change_reg == old(self).change_reg,
            final(self).partial == old(self).partial,
            content_id >= old(self).contents.contents().len() ==> r == Err::<Content, AppError>(AppError::IndexingError) && (
            if old(self).contents is Filled {
                final(self).contents is Empty
            } else {
                final(self).contents == old(self).contents
            }),
            content_id < old(self).contents.contents().len() ==> {
                let o = old(self).contents.contents();
                let f = final(self).contents.contents();
                &&& f.len() == o.len()
                &&& forall|j: int| 0 <= j < o.len() && j != content_id ==> #[trigger] f[j] == o[j]
                &&& match o[content_id as int] {
                    Content::Data(..) => r == Err::<Content, AppError>(AppError::DatatypeMismatch) && f[content_id as int]
                        == o[content_id as int],
                    Content::Link(sn, c, d, t, None) => r == Err::<Content, AppError>(AppError::LinkNonTransformative)
                        && f[content_id as int] == o[content_id as int],
                    Content::Link(sn, c, d, t, Some(ti)) => {
                        ||| r == Ok::<Content, AppError>(Content::Link(sn, c, d, t, None)) && (f[content_id as int] matches Content::Data(
                            dt,
                            mem,
                            tree,
                        ) && dt == ti.d_type && transformed(ti, tree, *sha) && mem == count_with_bytes(tree.pages(), tree.pages().len()))
                        ||| r == Err::<Content, AppError>(AppError::Smthg) && (f[content_id as int] matches Content::Link(
                            sn2,
                            c2,
                            d2,
                            t2,
                            Some(ti2),
                        ) && sn2 == sn && c2 == c && d2 == d && t2 == t && ti2.same_as(&ti))
                    },
                }
            },
    {
        let ghost o = self.contents.contents();
        let ti = match self.contents.take_transform_info(content_id) {
            Ok(ti) => ti,
            Err(e) => {
                return Err(e);
            },
        };
        let ghost taken = self.contents.contents();
        let backup = ti.clone_info();
        let d_type = ti.d_type;
        match ti.into_tree(sha) {
            Some(tree) => {
                proof {
                    if !(ti.missing_hashes@.is_empty() && ti.data_hashes@.len() > 0) {
                        lemma_len_pages(tree);
                    }
                }
                let mem = pages_with_bytes(&tree);
                let new_content = Content::Data(d_type, mem, tree);
                proof {
                    assert forall|i: int| 0 <= i < taken.len() implies (#[trigger] taken[i]).link_fits() by {
                        if i != content_id {
                            assert(taken[i] == o[i]);
                        } else {
                            assert(o[i].link_fits());
                        }
                    }
                }
                self.contents.update(content_id, new_content, sha)
            },
            None => {
                let _ = self.contents.restore_transform_info(content_id, backup);
                Err(AppError::Smthg)
            },
        }
    }
}

} // verus!
