//! Answering a neighbour's requests for the contents of a swarm: the root
//! hashes of all contents, the first pages, the page hashes of a content,
//! chosen pages, or all pages of chosen contents.

use vstd::prelude::*;
use crate::application::{hashes_in_pages, ApplicationData};
use crate::datastore::Datastore;
use crate::content::{page_views, Content, ContentID, DataType};
use crate::data::Data;
use crate::error::AppError;
use crate::hashing::hasher_total;
use crate::sync_message::{ReqView, RespView, SyncRequest, SyncResponse};

verus! {

/// The views of responses.
pub open spec fn resp_views(rs: Seq<SyncResponse>) -> Seq<RespView> {
    rs.map_values(|r: SyncResponse| r@)
}

/// `grp` is group `g` of the typed root hashes of the contents `cs`: the
/// type and hash of each of contents `128 * g` on, up to 128 of them.
pub open spec fn typed_group<H: Fn(&[u8]) -> u64>(cs: Seq<Content>, sha: H, g: int, grp: Seq<(DataType, u64)>) -> bool {
    &&& grp.len() == if g < cs.len() / 128 { 128 } else { cs.len() % 128 }
    &&& forall|k: int| 0 <= k < grp.len() ==> (#[trigger] grp[k]).0 == cs[128 * g + k].spec_data_type()
        && cs[128 * g + k].hashes_to(sha, grp[k].1)
}

/// The answer to a request for the datastore: each group of typed root
/// hashes, numbered, with the number of the last.
pub open spec fn datastore_answer<H: Fn(&[u8]) -> u64>(cs: Seq<Content>, sha: H, rs: Seq<RespView>) -> bool {
    &&& rs.len() == (cs.len() + 127) / 128
    &&& forall|g: int| 0 <= g < rs.len() ==> (#[trigger] rs[g] matches RespView::Datastore(p, t, grp) && p == g && t == rs.len() - 1
        && typed_group(cs, sha, g, grp))
}

/// `b` is page 0 of content `c` as `Content::read_data` reads it.
pub open spec fn page_zero(c: Content, b: Seq<u8>) -> bool {
    match c {
        Content::Link(..) => c.link_page(b),
        Content::Data(_, _, t) => b == t.leaves()[0].bytes,
    }
}

/// The answer to a request for all first pages: page 0 of every content
/// but the first, with the content's type and number of pages.
pub open spec fn first_pages_answer(cs: Seq<Content>, rs: Seq<RespView>) -> bool {
    &&& rs.len() == if cs.len() > 0 { cs.len() - 1 } else { 0 }
    &&& forall|i: int| 0 <= i < rs.len() ==> (#[trigger] rs[i] matches RespView::Page(c, t, p, total, b) && c == i + 1 && t
        == cs[i + 1].spec_data_type() && p == 0 && total == cs[i + 1].spec_len() && page_zero(cs[i + 1], b))
}

/// The parts of page hashes held by every transformative link are whole
/// hashes and at most `u16::MAX` of them.
pub open spec fn hash_parts_ok(ds: Datastore) -> bool {
    forall|i: int| 0 <= i < ds.contents().len() ==> (#[trigger] ds.contents()[i] matches Content::Link(_, _, _, _, Some(t))
        ==> t.data_hashes@.len() <= u16::MAX && forall|k: int| 0 <= k < t.data_hashes@.len() ==> (#[trigger] t.data_hashes@[k]).1@.len()
        % 8 == 0)
}

/// `parts` are the parts of page hashes that a request for the hashes of
/// content `c_id` is answered from: for a content of type `Link`, the
/// parts a transformative link holds; for any other, those holding the
/// hashes of the content's pages (see `hashes_in_pages`).
pub open spec fn hash_parts<H: Fn(&[u8]) -> u64>(ds: Datastore, sha: H, c_id: u16, parts: Seq<Data>) -> bool {
    if ds.contents()[c_id as int].spec_data_type() == DataType::Link {
        ds.contents()[c_id as int] matches Content::Link(_, _, _, _, Some(t)) && page_views(parts) == page_views(t.data_hashes@)
    } else {
        exists|hs: Seq<u64>| #[trigger] hashes_in_pages(hs, parts) && ds.bottom_hashes_of(c_id, sha, hs)
    }
}

/// A request for the page hashes of content `c_id` is answered: there is
/// such a content, and when its type is `Link` it is a transformative link.
pub open spec fn hashes_answerable(ds: Datastore, c_id: u16) -> bool {
    &&& c_id < ds.contents().len()
    &&& ds.contents()[c_id as int].spec_data_type() == DataType::Link ==> ds.contents()[c_id as int] matches Content::Link(
        _,
        _,
        _,
        _,
        Some(_),
    )
}

/// The parts of hashes picked by the ids `ids`, in order: ids beyond `last`
/// are passed over, and a part already sent goes out empty.
pub open spec fn hash_picks(c: u16, parts: Seq<Seq<u8>>, ids: Seq<u16>, last: u16) -> Seq<RespView>
    decreases ids.len(),
{
    if ids.len() == 0 {
        Seq::empty()
    } else {
        let prev = hash_picks(c, parts, ids.drop_last(), last);
        let h = ids.last();
        if h <= last {
            prev.push(RespView::Hashes(c, h, last, if ids.drop_last().contains(h) { Seq::empty() } else { parts[h as int] }))
        } else {
            prev
        }
    }
}

/// The answer to a request for the page hashes of content `c_id`: nothing
/// unless it is answered (see `hashes_answerable`); otherwise the
/// parts of hashes (see `hash_parts`), all of them when no ids are given,
/// each numbered with the number of the last.
pub open spec fn hashes_answer<H: Fn(&[u8]) -> u64>(ds: Datastore, sha: H, c_id: u16, ids: Seq<u16>, rs: Seq<RespView>) -> bool {
    if !hashes_answerable(ds, c_id) {
        rs.len() == 0
    } else {
        exists|parts: Seq<Data>| #[trigger] hash_parts(ds, sha, c_id, parts) && (parts.len() == 0 ==> rs.len() == 0) && (parts.len()
            > 0 ==> {
            let last = (parts.len() - 1) as u16;
            let bytes = parts.map_values(|d: Data| d.1@);
            rs == if ids.len() == 0 {
                Seq::new(parts.len(), |i: int| RespView::Hashes(c_id, i as u16, last, bytes[i]))
            } else {
                hash_picks(c_id, bytes, ids, last)
            }
        })
    }
}

/// A sequence with `x` pushed holds `y` when it held `y` before or `x` is `y`.
proof fn lemma_contains_push(s: Seq<u16>, x: u16, y: u16)
    ensures
        s.push(x).contains(y) <==> (s.contains(y) || x == y),
{
    if s.push(x).contains(y) {
        let m = choose|m: int| 0 <= m < s.push(x).len() && #[trigger] s.push(x)[m] == y;
        if m < s.len() {
            assert(s[m] == y);
        }
    }
    if s.contains(y) {
        let m = choose|m: int| 0 <= m < s.len() && #[trigger] s[m] == y;
        assert(s.push(x)[m] == y);
    }
    if x == y {
        assert(s.push(x)[s.len() as int] == y);
    }
}

/// Page `p` of content `c` can be read (see `Content::read_data`): page 0
/// of a link, a page of a data content's tree.
pub open spec fn page_readable(c: Content, p: u16) -> bool {
    match c {
        Content::Link(..) => p == 0,
        Content::Data(_, _, t) => p < t.leaves().len(),
    }
}

/// `b` is page `p` of content `c` as `Content::read_data` reads it.
pub open spec fn page_bytes(c: Content, p: u16, b: Seq<u8>) -> bool {
    match c {
        Content::Link(..) => c.link_page(b),
        Content::Data(_, _, t) => b == t.leaves()[p as int].bytes,
    }
}

/// The pages among `ids` that can be read of content `c` (of number
/// `c_id` and type `t`), in order, each with the number of its last page.
pub open spec fn direct_picks(c: Content, c_id: u16, t: DataType, total: u16, ids: Seq<u16>, rs: Seq<RespView>) -> bool
    decreases ids.len(),
{
    if ids.len() == 0 {
        rs.len() == 0
    } else {
        let p = ids.last();
        if page_readable(c, p) {
            &&& rs.len() > 0
            &&& direct_picks(c, c_id, t, total, ids.drop_last(), rs.drop_last())
            &&& rs.last() matches RespView::Page(c2, t2, p2, total2, b) && c2 == c_id && t2 == t && p2 == p && total2 == total
                && page_bytes(c, p, b)
        } else {
            direct_picks(c, c_id, t, total, ids.drop_last(), rs)
        }
    }
}

/// The pages among `ids` that the transform info of link `c` holds for
/// type `d_type`, in order, each with the number of pages it announces.
pub open spec fn ti_picks(c: Content, c_id: u16, d_type: DataType, ids: Seq<u16>) -> Seq<RespView>
    decreases ids.len(),
{
    if ids.len() == 0 {
        Seq::empty()
    } else {
        let prev = ti_picks(c, c_id, d_type, ids.drop_last());
        let p = ids.last();
        match c {
            Content::Link(_, _, _, _, Some(t)) => if t.d_type == d_type && t.data@.contains_key(p) {
                prev.push(RespView::Page(c_id, d_type, p, t.size, t.data@[p].1@))
            } else {
                prev
            },
            _ => prev,
        }
    }
}

/// The answer to a request for pages `ids` of content `c_id` of type
/// `d_type`: when the content has that type and pages, the pages that can
/// be read; when it is a link with pages and another type is asked, the
/// pages its transform info holds; nothing otherwise.
pub open spec fn pages_answer(cs: Seq<Content>, c_id: u16, d_type: DataType, ids: Seq<u16>, rs: Seq<RespView>) -> bool {
    if c_id >= cs.len() {
        rs.len() == 0
    } else {
        let c = cs[c_id as int];
        let t = c.spec_data_type();
        if t == d_type && c.spec_len() > 0 {
            direct_picks(c, c_id, t, (c.spec_len() - 1) as u16, ids, rs)
        } else if t != d_type && t == DataType::Link && c.spec_len() > 0 {
            rs == ti_picks(c, c_id, d_type, ids)
        } else {
            rs.len() == 0
        }
    }
}

/// The pages of content `c_id` as a request for all its pages answers
/// them, each with its number and that of the last page: a link's page,
/// or the pages of a data content's tree (at most `u16::MAX`); nothing
/// for no such content.
pub open spec fn content_pages(cs: Seq<Content>, c_id: u16, g: Seq<RespView>) -> bool {
    if c_id >= cs.len() {
        g.len() == 0
    } else {
        let c = cs[c_id as int];
        let total = (c.spec_len() - 1) as u16;
        match c {
            Content::Link(..) => g.len() == 1 && (g[0] matches RespView::Page(c2, t, p, tot, b) && c2 == c_id && t == DataType::Link
                && p == 0 && tot == total && c.link_page(b)),
            Content::Data(dt, _, tree) => {
                &&& g.len() == if tree.leaves().len() < u16::MAX { tree.leaves().len() as int } else { u16::MAX as int }
                &&& forall|i: int| 0 <= i < g.len() ==> #[trigger] g[i] == RespView::Page(c_id, dt, i as u16, total, tree.leaves()[i].bytes)
            },
        }
    }
}

/// How many pages a request for all pages of content `c_id` answers.
pub open spec fn pages_count(cs: Seq<Content>, c_id: u16) -> int {
    if c_id >= cs.len() {
        0
    } else {
        match cs[c_id as int] {
            Content::Link(..) => 1,
            Content::Data(_, _, tree) => if tree.leaves().len() < u16::MAX { tree.leaves().len() as int } else { u16::MAX as int },
        }
    }
}

/// How many pages a request for all pages of the contents `ids` answers.
pub open spec fn pages_total(cs: Seq<Content>, ids: Seq<u16>) -> int
    decreases ids.len(),
{
    if ids.len() == 0 {
        0
    } else {
        pages_total(cs, ids.drop_last()) + pages_count(cs, ids.last())
    }
}

/// The answer to a request for all pages of the contents `ids`: the pages
/// of each (see `content_pages`), one content after the other.
pub open spec fn all_pages_answer(cs: Seq<Content>, ids: Seq<u16>, rs: Seq<RespView>) -> bool
    decreases ids.len(),
{
    if ids.len() == 0 {
        rs.len() == 0
    } else {
        let k = pages_total(cs, ids.drop_last());
        &&& 0 <= k <= rs.len()
        &&& all_pages_answer(cs, ids.drop_last(), rs.take(k))
        &&& content_pages(cs, ids.last(), rs.skip(k))
    }
}

/// The pages answered for some contents are as many as they count.
proof fn lemma_all_pages_len(cs: Seq<Content>, ids: Seq<u16>, rs: Seq<RespView>)
    requires
        all_pages_answer(cs, ids, rs),
    ensures
        rs.len() == pages_total(cs, ids),
    decreases ids.len(),
{
    if ids.len() > 0 {
        let k = pages_total(cs, ids.drop_last());
        lemma_all_pages_len(cs, ids.drop_last(), rs.take(k));
    }
}

/// Every content among `ids` that exists has a page count of at least 1.
pub open spec fn all_pages_answerable(cs: Seq<Content>, ids: Seq<u16>) -> bool {
    forall|i: int| 0 <= i < ids.len() && ids[i] < cs.len() ==> #[trigger] cs[ids[i] as int].spec_len() > 0
}

/// `rs` answers the request `req` (see the answer of each kind).
pub open spec fn answered<H: Fn(&[u8]) -> u64>(ds: Datastore, sha: H, req: ReqView, rs: Seq<RespView>) -> bool {
    match req {
        ReqView::Datastore => datastore_answer(ds.contents(), sha, rs),
        ReqView::AllFirstPages => first_pages_answer(ds.contents(), rs),
        ReqView::Hashes(c, _, ids) => hashes_answer(ds, sha, c, ids, rs),
        ReqView::Pages(c, d, ids) => pages_answer(ds.contents(), c, d, ids, rs),
        ReqView::AllPages(ids) => all_pages_answer(ds.contents(), ids, rs),
    }
}

/// The requests can be answered: a request for all first pages only while
/// the datastore is not full, and a request for all pages only of contents
/// that count a page.
pub open spec fn requests_answerable(cs: Seq<Content>, reqs: Seq<ReqView>) -> bool {
    forall|i: int| 0 <= i < reqs.len() ==> match #[trigger] reqs[i] {
        ReqView::AllFirstPages => cs.len() < u16::MAX,
        ReqView::AllPages(ids) => all_pages_answerable(cs, ids),
        _ => true,
    }
}

impl ApplicationData {
    /// The typed root hashes of all contents, in numbered groups of 128.
    pub fn answer_datastore<H: Fn(&[u8]) -> u64>(&self, sha: &H) -> (r: Vec<SyncResponse>)
        requires
            hasher_total(*sha),
            self.contents.wf(),
            self.contents.contents_ok(),
        ensures
            datastore_answer(self.contents.contents(), *sha, resp_views(r@)),
    {
        let groups = self.contents.all_typed_root_hashes(sha);
        let ghost gs = groups@;
        let ghost cs = self.contents.contents();
        proof {
            self.contents.lemma_len();
        }
        let count = groups.len();
        let mut groups = groups;
        let mut out: Vec<SyncResponse> = Vec::new();
        let mut i: usize = 0;
        while i < count
            invariant
                count == gs.len(),
                gs.len() == (cs.len() + 127) / 128,
                cs.len() <= u16::MAX,
                groups@ == gs.skip(i as int),
                i <= count,
                out@.len() == i,
                forall|g: int| 0 <= g < gs.len() ==> (#[trigger] gs[g])@.len() == if g < cs.len() / 128 { 128 } else { cs.len() % 128 },
                forall|g: int, k: int| 0 <= g < gs.len() && 0 <= k < gs[g]@.len() ==> {
                    let (t, h) = #[trigger] gs[g]@[k];
                    &&& t == cs[128 * g + k].spec_data_type()
                    &&& cs[128 * g + k].hashes_to(*sha, h)
                },
                forall|g: int| 0 <= g < i ==> ((#[trigger] out@[g])@ matches RespView::Datastore(p, t, grp) && p == g && t
                    == count - 1 && typed_group(cs, *sha, g, grp)),
            decreases count - i,
        {
            let grp = groups.remove(0);
            proof {
                assert(grp == gs[i as int]);
                assert forall|k: int| 0 <= k < grp@.len() implies (#[trigger] grp@[k]).0 == cs[128 * i + k].spec_data_type()
                    && cs[128 * i + k].hashes_to(*sha, grp@[k].1) by {
                    let (t, h) = gs[i as int]@[k];
                }
            }
            out.push(SyncResponse::Datastore(i as u16, (count - 1) as u16, grp));
            proof {
                assert(groups@ =~= gs.skip(i + 1));
            }
            i += 1;
        }
        proof {
            assert(resp_views(out@).len() == out@.len());
            assert forall|g: int| 0 <= g < resp_views(out@).len() implies (#[trigger] resp_views(out@)[g]) matches RespView::Datastore(
                p,
                t,
                grp,
            ) && p == g && t == resp_views(out@).len() - 1 && typed_group(cs, *sha, g, grp) by {
                assert(resp_views(out@)[g] == out@[g]@);
            }
        }
        out
    }

    /// Page 0 of every content but the first, with its type and number of
    /// pages.
    pub fn answer_first_pages<H: Fn(&[u8]) -> u64>(&self, sha: &H) -> (r: Vec<SyncResponse>)
        requires
            hasher_total(*sha),
            self.contents.wf(),
            self.contents.contents_ok(),
        ensures
            first_pages_answer(self.contents.contents(), resp_views(r@)),
    {
        let ghost cs = self.contents.contents();
        proof {
            self.contents.lemma_len();
        }
        let n = self.contents.len();
        let mut out: Vec<SyncResponse> = Vec::new();
        let mut c_id: u16 = 1;
        while c_id < n
            invariant
                hasher_total(*sha),
                self.contents.wf(),
                self.contents.contents_ok(),
                cs == self.contents.contents(),
                n == cs.len(),
                1 <= c_id,
                c_id <= n || (n == 0 && c_id == 1),
                out@.len() == c_id - 1,
                forall|i: int| 0 <= i < out@.len() ==> ((#[trigger] out@[i])@ matches RespView::Page(c, t, p, total, b) && c == i + 1
                    && t == cs[i + 1].spec_data_type() && p == 0 && total == cs[i + 1].spec_len() && page_zero(cs[i + 1], b)),
            decreases n - c_id,
        {
            proof {
                assert(cs[c_id as int].link_fits() && cs[c_id as int].shape_ok());
                if let Content::Data(_, _, t) = cs[c_id as int] {
                    crate::content_tree::lemma_len_pages(t);
                }
            }
            let page = match self.contents.read_data((c_id, 0), sha) {
                Ok(d) => d,
                Err(_) => Data::empty(0),
            };
            let (t, len) = match self.contents.type_and_len(c_id) {
                Ok(x) => x,
                Err(_) => (DataType::Data(0), 0),
            };
            out.push(SyncResponse::Page(c_id, t, 0, len, page));
            c_id += 1;
        }
        proof {
            assert(resp_views(out@).len() == out@.len());
            assert forall|i: int| 0 <= i < resp_views(out@).len() implies (#[trigger] resp_views(out@)[i]) matches RespView::Page(
                c,
                t,
                p,
                total,
                b,
            ) && c == i + 1 && t == cs[i + 1].spec_data_type() && p == 0 && total == cs[i + 1].spec_len() && page_zero(
                cs[i + 1],
                b,
            ) by {
                assert(resp_views(out@)[i] == out@[i]@);
            }
        }
        out
    }
    /// The parts of page hashes of content `c_id` (see `hashes_answer`).
    pub fn answer_hashes<H: Fn(&[u8]) -> u64>(&self, c_id: ContentID, ids: &Vec<u16>, sha: &H) -> (r: Vec<SyncResponse>)
        requires
            hasher_total(*sha),
            self.contents.wf(),
            self.contents.contents_ok(),
            hash_parts_ok(self.contents),
        ensures
            hashes_answer(self.contents, *sha, c_id, ids@, resp_views(r@)),
    {
        let ghost ds = self.contents;
        proof {
            ds.lemma_len();
        }
        let mut out: Vec<SyncResponse> = Vec::new();
        let source = match self.contents.type_and_len(c_id) {
            Ok((t, _len)) => {
                if t == DataType::Link {
                    self.contents.link_transform_info_hashes(c_id, t)
                } else {
                    self.get_all_page_hashes(c_id, sha)
                }
            },
            Err(_) => Err(AppError::IndexingError),
        };
        let mut hashes = match source {
            Ok(v) => v,
            Err(_) => {
                proof {
                    assert(!hashes_answerable(ds, c_id));
                    assert(resp_views(out@) =~= Seq::<RespView>::empty());
                }
                return out;
            },
        };
        let ghost parts = hashes@;
        let ghost bytes = parts.map_values(|d: Data| d.1@);
        proof {
            assert(c_id < ds.contents().len());
            assert(hash_parts(ds, *sha, c_id, parts));
            if ds.contents()[c_id as int].spec_data_type() != DataType::Link {
                let hs = choose|hs: Seq<u64>| #[trigger] hashes_in_pages(hs, parts) && ds.bottom_hashes_of(c_id, *sha, hs);
                assert(ds.contents()[c_id as int].bottom_hashes(*sha, hs));
                assert(hs.len() <= u16::MAX);
                assert(parts.len() <= 512);
            } else if let Content::Link(_, _, _, _, Some(t)) = ds.contents()[c_id as int] {
                assert(page_views(parts).len() == page_views(t.data_hashes@).len());
                assert(parts.len() <= u16::MAX);
            }
        }
        let n = hashes.len();
        if n == 0 {
            proof {
                assert(resp_views(out@) =~= Seq::<RespView>::empty());
            }
            return out;
        }
        let last: u16 = (n - 1) as u16;
        if ids.len() == 0 {
            let mut i: usize = 0;
            while i < n
                invariant
                    n == parts.len(),
                    1 <= n <= u16::MAX + 1,
                    last == n - 1,
                    hashes@ == parts,
                    bytes == parts.map_values(|d: Data| d.1@),
                    i <= n,
                    resp_views(out@) == Seq::new(i as nat, |k: int| RespView::Hashes(c_id, k as u16, last, bytes[k])),
                decreases n - i,
            {
                let part = hashes[i].clone();
                let ghost before = out@;
                out.push(SyncResponse::Hashes(c_id, i as u16, last, part));
                proof {
                    assert(resp_views(out@) =~= resp_views(before).push(out@[i as int]@));
                    assert(resp_views(out@) =~= Seq::new((i + 1) as nat, |k: int| RespView::Hashes(c_id, k as u16, last, bytes[k])));
                }
                i += 1;
            }
        } else {
            let mut j: usize = 0;
            while j < ids.len()
                invariant
                    n == parts.len(),
                    1 <= n <= u16::MAX + 1,
                    last == n - 1,
                    hashes@.len() == n,
                    bytes == parts.map_values(|d: Data| d.1@),
                    j <= ids@.len(),
                    forall|k: int| 0 <= k < n ==> (#[trigger] hashes@[k]).1@ == if ids@.take(j as int).contains(k as u16) {
                        Seq::<u8>::empty()
                    } else {
                        bytes[k]
                    },
                    resp_views(out@) == hash_picks(c_id, bytes, ids@.take(j as int), last),
                decreases ids@.len() - j,
            {
                let h = ids[j];
                proof {
                    assert(ids@.take(j + 1) =~= ids@.take(j as int).push(h));
                    assert(ids@.take(j + 1).drop_last() =~= ids@.take(j as int));
                    assert(ids@.take(j + 1).last() == h);
                }
                if h <= last {
                    let part = hashes[h as usize].clone();
                    hashes.set(h as usize, Data::empty(0));
                    let ghost before = out@;
                    out.push(SyncResponse::Hashes(c_id, h, last, part));
                    proof {
                        assert(resp_views(out@) =~= resp_views(before).push(out@[before.len() as int]@));
                        assert forall|k: int| 0 <= k < n implies (#[trigger] hashes@[k]).1@ == if ids@.take(j + 1).contains(k as u16) {
                            Seq::<u8>::empty()
                        } else {
                            bytes[k]
                        } by {
                            lemma_contains_push(ids@.take(j as int), h, k as u16);
                        }
                    }
                } else {
                    proof {
                        assert forall|k: int| 0 <= k < n implies (#[trigger] hashes@[k]).1@ == if ids@.take(j + 1).contains(k as u16) {
                            Seq::<u8>::empty()
                        } else {
                            bytes[k]
                        } by {
                            lemma_contains_push(ids@.take(j as int), h, k as u16);
                        }
                    }
                }
                j += 1;
            }
            proof {
                assert(ids@.take(ids@.len() as int) =~= ids@);
            }
        }
        out
    }
    /// Pages `ids` of content `c_id` of type `d_type` (see `pages_answer`).
    pub fn answer_pages<H: Fn(&[u8]) -> u64>(&self, c_id: ContentID, d_type: DataType, ids: &Vec<u16>, sha: &H) -> (r: Vec<SyncResponse>)
        requires
            hasher_total(*sha),
            self.contents.wf(),
            self.contents.contents_ok(),
        ensures
            pages_answer(self.contents.contents(), c_id, d_type, ids@, resp_views(r@)),
    {
        let ghost cs = self.contents.contents();
        let mut out: Vec<SyncResponse> = Vec::new();
        let (t, len) = match self.contents.type_and_len(c_id) {
            Ok(x) => x,
            Err(_) => {
                proof {
                    assert(resp_views(out@) =~= Seq::<RespView>::empty());
                }
                return out;
            },
        };
        let ghost c = cs[c_id as int];
        proof {
            assert(c.link_fits() && c.shape_ok());
            if let Content::Data(_, _, tree) = c {
                crate::content_tree::lemma_len_pages(tree);
            }
        }
        if t == d_type && len > 0 {
            let total = len - 1;
            let mut j: usize = 0;
            while j < ids.len()
                invariant
                    hasher_total(*sha),
                    self.contents.wf(),
                    self.contents.contents_ok(),
                    cs == self.contents.contents(),
                    c_id < cs.len(),
                    c == cs[c_id as int],
                    c.link_fits() && c.shape_ok(),
                    t == c.spec_data_type(),
                    j <= ids@.len(),
                    direct_picks(c, c_id, t, total, ids@.take(j as int), resp_views(out@)),
                decreases ids@.len() - j,
            {
                let p = ids[j];
                proof {
                    assert(ids@.take(j + 1).drop_last() =~= ids@.take(j as int));
                    assert(ids@.take(j + 1).last() == p);
                }
                match self.contents.read_data((c_id, p), sha) {
                    Ok(data) => {
                        let ghost before = out@;
                        out.push(SyncResponse::Page(c_id, t, p, total, data));
                        proof {
                            assert(resp_views(out@).drop_last() =~= resp_views(before));
                            assert(page_readable(c, p));
                        }
                    },
                    Err(_) => {
                        proof {
                            assert(!page_readable(c, p));
                        }
                    },
                }
                j += 1;
            }
            proof {
                assert(ids@.take(ids@.len() as int) =~= ids@);
            }
        } else if t != d_type && t == DataType::Link && len > 0 {
            let mut j: usize = 0;
            while j < ids.len()
                invariant
                    self.contents.wf(),
                    cs == self.contents.contents(),
                    c_id < cs.len(),
                    c == cs[c_id as int],
                    j <= ids@.len(),
                    resp_views(out@) == ti_picks(c, c_id, d_type, ids@.take(j as int)),
                decreases ids@.len() - j,
            {
                let p = ids[j];
                proof {
                    assert(ids@.take(j + 1).drop_last() =~= ids@.take(j as int));
                    assert(ids@.take(j + 1).last() == p);
                }
                match self.contents.read_link_data((c_id, p), d_type) {
                    Ok((data, size)) => {
                        let ghost before = out@;
                        out.push(SyncResponse::Page(c_id, d_type, p, size, data));
                        proof {
                            assert(resp_views(out@) =~= resp_views(before).push(out@[before.len() as int]@));
                        }
                    },
                    Err(_) => {},
                }
                j += 1;
            }
            proof {
                assert(ids@.take(ids@.len() as int) =~= ids@);
            }
        } else {
            proof {
                assert(resp_views(out@) =~= Seq::<RespView>::empty());
            }
        }
        out
    }
    /// All pages of content `c_id` (see `content_pages`).
    fn content_page_responses<H: Fn(&[u8]) -> u64>(&self, c_id: ContentID, sha: &H) -> (r: Vec<SyncResponse>)
        requires
            hasher_total(*sha),
            self.contents.wf(),
            self.contents.contents_ok(),
            c_id < self.contents.contents().len() ==> self.contents.contents()[c_id as int].spec_len() > 0,
        ensures
            content_pages(self.contents.contents(), c_id, resp_views(r@)),
    {
        let ghost cs = self.contents.contents();
        let mut out: Vec<SyncResponse> = Vec::new();
        let pages = match self.get_all_data(c_id, sha) {
            Ok(v) => v,
            Err(_) => {
                proof {
                    assert(resp_views(out@) =~= Seq::<RespView>::empty());
                }
                return out;
            },
        };
        if pages.len() == 0 {
            proof {
                assert(resp_views(out@) =~= Seq::<RespView>::empty());
            }
            return out;
        }
        let (t, len) = match self.contents.type_and_len(c_id) {
            Ok(x) => x,
            Err(_) => (DataType::Data(0), 1),
        };
        let total = len - 1;
        let ghost ps = pages@;
        let mut pages = pages;
        let n = pages.len();
        let mut i: usize = 0;
        while i < n
            invariant
                c_id < cs.len(),
                n == ps.len(),
                n <= u16::MAX,
                pages@ == ps.skip(i as int),
                i <= n,
                t == cs[c_id as int].spec_data_type(),
                total == (cs[c_id as int].spec_len() - 1) as u16,
                resp_views(out@) == Seq::new(i as nat, |k: int| RespView::Page(c_id, t, k as u16, total, ps[k].1@)),
            decreases n - i,
        {
            let page = pages.remove(0);
            proof {
                assert(page == ps[i as int]);
            }
            let ghost before = out@;
            out.push(SyncResponse::Page(c_id, t, i as u16, total, page));
            proof {
                assert(pages@ =~= ps.skip(i + 1));
                assert(resp_views(out@) =~= resp_views(before).push(out@[i as int]@));
                assert(resp_views(out@) =~= Seq::new((i + 1) as nat, |k: int| RespView::Page(c_id, t, k as u16, total, ps[k].1@)));
            }
            i += 1;
        }
        proof {
            let g = resp_views(out@);
            if let Content::Data(dt, _, tree) = cs[c_id as int] {
                assert forall|k: int| 0 <= k < g.len() implies #[trigger] g[k] == RespView::Page(c_id, dt, k as u16, total, tree.leaves()[k].bytes) by {
                    assert(ps[k]@ == crate::content_tree::page_data(tree.leaves()[k]));
                }
            }
        }
        out
    }

    /// All pages of each of the contents `ids` in turn (see
    /// `all_pages_answer`).
    pub fn answer_all_pages<H: Fn(&[u8]) -> u64>(&self, ids: &Vec<ContentID>, sha: &H) -> (r: Vec<SyncResponse>)
        requires
            hasher_total(*sha),
            self.contents.wf(),
            self.contents.contents_ok(),
            all_pages_answerable(self.contents.contents(), ids@),
        ensures
            all_pages_answer(self.contents.contents(), ids@, resp_views(r@)),
    {
        let ghost cs = self.contents.contents();
        let mut out: Vec<SyncResponse> = Vec::new();
        let mut j: usize = 0;
        proof {
            assert(ids@.take(0) =~= Seq::<u16>::empty());
        }
        while j < ids.len()
            invariant
                hasher_total(*sha),
                self.contents.wf(),
                self.contents.contents_ok(),
                cs == self.contents.contents(),
                all_pages_answerable(cs, ids@),
                j <= ids@.len(),
                all_pages_answer(cs, ids@.take(j as int), resp_views(out@)),
            decreases ids@.len() - j,
        {
            let c_id = ids[j];
            proof {
                if c_id < cs.len() {
                    assert(ids@[j as int] == c_id);
                    assert(cs[ids@[j as int] as int].spec_len() > 0);
                }
            }
            let group = self.content_page_responses(c_id, sha);
            let ghost before = resp_views(out@);
            let ghost g = resp_views(group@);
            let mut group = group;
            out.append(&mut group);
            proof {
                let k = before.len() as int;
                assert(resp_views(out@) =~= before + g);
                assert(resp_views(out@).take(k) =~= before);
                assert(resp_views(out@).skip(k) =~= g);
                assert(ids@.take(j + 1).drop_last() =~= ids@.take(j as int));
                assert(ids@.take(j + 1).last() == c_id);
                assert(all_pages_answer(cs, ids@.take(j + 1).drop_last(), resp_views(out@).take(k)));
                assert(content_pages(cs, ids@.take(j + 1).last(), resp_views(out@).skip(k)));
                lemma_all_pages_len(cs, ids@.take(j as int), before);
                assert(all_pages_answer(cs, ids@.take(j + 1), resp_views(out@)));
            }
            j += 1;
        }
        proof {
            assert(ids@.take(ids@.len() as int) =~= ids@);
        }
        out
    }
    /// The answers to the requests `reqs`, one group for each in order.
    pub fn answer_requests<H: Fn(&[u8]) -> u64>(&self, reqs: &Vec<SyncRequest>, sha: &H) -> (r: Vec<Vec<SyncResponse>>)
        requires
            hasher_total(*sha),
            self.contents.wf(),
            self.contents.contents_ok(),
            hash_parts_ok(self.contents),
            requests_answerable(self.contents.contents(), reqs@.map_values(|q: SyncRequest| q@)),
        ensures
            r@.len() == reqs@.len(),
            forall|i: int| 0 <= i < reqs@.len() ==> #[trigger] answered(self.contents, *sha, reqs@[i]@, resp_views(r@[i]@)),
    {
        let ghost views = reqs@.map_values(|q: SyncRequest| q@);
        let mut out: Vec<Vec<SyncResponse>> = Vec::new();
        let mut i: usize = 0;
        while i < reqs.len()
            invariant
                hasher_total(*sha),
                self.contents.wf(),
                self.contents.contents_ok(),
                hash_parts_ok(self.contents),
                views == reqs@.map_values(|q: SyncRequest| q@),
                requests_answerable(self.contents.contents(), views),
                i <= reqs@.len(),
                out@.len() == i,
                forall|k: int| 0 <= k < i ==> #[trigger] answered(self.contents, *sha, reqs@[k]@, resp_views(out@[k]@)),
            decreases reqs@.len() - i,
        {
            proof {
                assert(views[i as int] == reqs@[i as int]@);
            }
            let group = match &reqs[i] {
                SyncRequest::Datastore => self.answer_datastore(sha),
                SyncRequest::AllFirstPages => self.answer_first_pages(sha),
                SyncRequest::Hashes(c_id, _d_type, ids) => self.answer_hashes(*c_id, ids, sha),
                SyncRequest::Pages(c_id, d_type, ids) => self.answer_pages(*c_id, *d_type, ids, sha),
                SyncRequest::AllPages(ids) => self.answer_all_pages(ids, sha),
            };
            let ghost before = out@;
            out.push(group);
            proof {
                assert forall|k: int| 0 <= k < i + 1 implies #[trigger] answered(self.contents, *sha, reqs@[k]@, resp_views(out@[k]@)) by {
                    if k < i {
                        assert(out@[k] == before[k]);
                    }
                }
            }
            i += 1;
        }
        out
    }
}

} // verus!
