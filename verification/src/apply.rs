//! Applying a synchronised change to the application data: the
//! requirements before it are checked, the change is made, the requirements
//! after it are checked, and a change they refuse is undone.

use vstd::prelude::*;
use crate::application::{requirement_fails, requirement_holds, ApplicationData};
use crate::content::{link_len, link_read_from, link_readable, lemma_read_link_fits, Content, ContentID, DataType};
use crate::content_tree::{pages_after_remove, stored_page, ContentTree, Page};
use crate::content_tree::page_data;
use crate::data::Data;
use crate::datastore::{lemma_shell_fits, put_back, replaceable};
use crate::error::AppError;
use crate::hashing::{hasher_total, hashes_to, read_u64_be, u64_of};
use crate::message::{SyncMessage, SyncMessageType, SyncRequirements};

verus! {

/// What became of a synchronised change.
#[derive(Debug, PartialEq, Eq, Structural)]
pub enum SyncOutcome {
    /// A requirement before the change failed: nothing was changed.
    Refused,
    /// The change itself failed with this error.
    Failed(AppError),
    /// The change was made and every requirement after it holds.
    Applied,
    /// The change was made, a requirement after it failed, and it was undone.
    RolledBack,
    /// The change would not lead to what the requirements after it name:
    /// nothing was changed.
    Mismatch,
}

/// Every pair of `reqs` holds of the contents `cs`.
pub open spec fn all_hold<H: Fn(&[u8]) -> u64>(cs: Seq<Content>, sha: H, reqs: Seq<(u16, u64)>) -> bool {
    forall|k: int| 0 <= k < reqs.len() ==> requirement_holds(cs, sha, (#[trigger] reqs[k]).0, reqs[k].1)
}

/// Some pair of `reqs` fails of the contents `cs`.
pub open spec fn some_fails<H: Fn(&[u8]) -> u64>(cs: Seq<Content>, sha: H, reqs: Seq<(u16, u64)>) -> bool {
    exists|k: int| 0 <= k < reqs.len() && requirement_fails(cs, sha, (#[trigger] reqs[k]).0, reqs[k].1)
}

/// Content `c_id` of `after` is what `change` makes of that of `before` (put
/// back as `Datastore` puts a content back), and the others are as they were.
pub open spec fn changed_at(before: Seq<Content>, c_id: u16, after: Seq<Content>, c2: Content) -> bool {
    &&& c_id < before.len()
    &&& after.len() == before.len()
    &&& put_back(before[c_id as int], c2, after[c_id as int])
    &&& forall|j: int| 0 <= j < before.len() && j != c_id ==> #[trigger] after[j] == before[j]
}

/// `after` and `r` are what `Datastore::append_data` of `data` to content
/// `c_id` makes of `before`.
pub open spec fn data_appended<H: Fn(&[u8]) -> u64>(
    before: Seq<Content>,
    c_id: u16,
    data: Data,
    sha: H,
    after: Seq<Content>,
    r: Result<u64, AppError>,
) -> bool {
    if c_id >= before.len() {
        r == Err::<u64, AppError>(AppError::IndexingError) && after == before
    } else {
        exists|c2: Content| #[trigger] Content::pushed(before[c_id as int], data, sha, c2, r) && changed_at(before, c_id, after, c2)
    }
}

/// `after` and `r` are what `Datastore::pop_data` of content `c_id` makes
/// of `before`.
pub open spec fn data_popped<H: Fn(&[u8]) -> u64>(
    before: Seq<Content>,
    c_id: u16,
    sha: H,
    after: Seq<Content>,
    r: Result<Data, AppError>,
) -> bool {
    if c_id >= before.len() {
        r == Err::<Data, AppError>(AppError::IndexingError) && after == before
    } else {
        exists|c2: Content| #[trigger] Content::popped(before[c_id as int], sha, c2, r) && changed_at(before, c_id, after, c2)
    }
}

/// A page can be appended to content `c` and popped again: the content is
/// ready for `push_data`, and a data content's tree stays well shaped.
pub open spec fn appendable<H: Fn(&[u8]) -> u64>(c: Content, data: Data, sha: H) -> bool {
    &&& c.push_ok(data, sha)
    &&& c matches Content::Data(_, _, tree) ==> tree.append_keeps_shape(data@)
}

/// The last page after an append holds bytes only when the appended page
/// does.
proof fn lemma_last_page_bytes(before: Content, data: Data, sha: impl Fn(&[u8]) -> u64, after: Content, h: u64)
    requires
        hasher_total(sha),
        before matches Content::Data(_, _, tree) && tree.append_keeps_shape(data@),
        Content::pushed(before, data, sha, after, Ok(h)),
    ensures
        after.pop_ok(sha),
{
    if let Content::Data(_, mem, tree) = before {
        if let Content::Data(_, mem2, tree2) = after {
            let q = tree2.pages();
            assert(q == tree.pages_after_append(data@));
            assert(tree2.wf(sha));
            crate::content_tree::lemma_len_pages(tree2);
            if data.1@.len() == 0 && q.len() > 0 {
                let p = tree.pages();
                let d = data@;
                if p.len() == 0 {
                    assert(q =~= seq![crate::content_tree::placeholder(d.0)]);
                } else if tree.lands_on_leaf() {
                    if p.last().stored {
                        assert(q == p.push(crate::content_tree::stored_page(d)));
                    } else {
                        assert(q == p.push(crate::content_tree::placeholder(d.0)));
                    }
                } else {
                    assert(q == p.push(crate::content_tree::placeholder(d.0)));
                }
                assert(q.last().bytes.len() == 0);
            }
        }
    }
}

/// `c` is what `Content::from` reads from the page `data` as type `d_type`.
pub open spec fn content_read<H: Fn(&[u8]) -> u64>(d_type: DataType, data: Data, sha: H, c: Content) -> bool {
    match d_type {
        DataType::Link => link_read_from(Ok::<Content, AppError>(c), data.1@, sha),
        DataType::Data(o) => c matches Content::Data(dt, mem, tree) && dt == DataType::spec_from(o) && (data.1@.len()
            == 0 ==> mem == 0 && tree == ContentTree::Empty(data.0)) && (data.1@.len() > 0 ==> mem == 1 && tree
            == ContentTree::Filled(data)),
    }
}

/// `page` is page 0 of content `c`: a link's page, or the first leaf of a
/// data content's tree.
pub open spec fn main_page<H: Fn(&[u8]) -> u64>(c: Content, sha: H, page: Data) -> bool {
    match c {
        Content::Link(..) => c.link_page(page.1@) && hashes_to(sha, page.1@, page.0),
        Content::Data(_, _, tree) => page@ == page_data(tree.leaves()[0]),
    }
}

/// Appending a page that lands behind the last page and popping again
/// gives back the content's pages, and the popped page is the appended
/// one; the other contents stay as they were.
pub proof fn lemma_append_pop_restores<H: Fn(&[u8]) -> u64>(
    before: Seq<Content>,
    c_id: u16,
    data: Data,
    sha: H,
    mid: Seq<Content>,
    h: u64,
    after: Seq<Content>,
    p: Data,
)
    requires
        before.len() > c_id,
        before[c_id as int] matches Content::Data(_, _, tree) && tree.pages_after_append(data@)
            == tree.pages().push(stored_page(data@)),
        data_appended(before, c_id, data, sha, mid, Ok(h)),
        data_popped(mid, c_id, sha, after, Ok(p)),
    ensures
        after.len() == before.len(),
        after[c_id as int] matches Content::Data(_, _, t) && before[c_id as int] matches Content::Data(_, _, tree)
            && t.pages() == tree.pages(),
        p@ == data@,
        forall|j: int| 0 <= j < before.len() && j != c_id ==> #[trigger] after[j] == before[j],
{
    let c2 = choose|c2: Content| #[trigger] Content::pushed(before[c_id as int], data, sha, c2, Ok(h))
        && changed_at(before, c_id, mid, c2);
    let c3 = choose|c3: Content| #[trigger] Content::popped(mid[c_id as int], sha, c3, Ok(p)) && changed_at(
        mid,
        c_id,
        after,
        c3,
    );
    if let Content::Data(_, _, tree) = before[c_id as int] {
        if let Content::Data(_, _, tree2) = c2 {
            assert(mid[c_id as int] == c2);
            assert(tree2.pages() == tree.pages().push(stored_page(data@)));
            assert(tree2.pages().drop_last() =~= tree.pages());
            assert(after[c_id as int] == c3);
        }
    }
    assert forall|j: int| 0 <= j < before.len() && j != c_id implies #[trigger] after[j] == before[j] by {
        assert(after[j] == mid[j]);
    }
}

/// `after` and `r` are what `Datastore::update_data` of page `d_id` of
/// content `c_id` by `data` makes of `before`.
pub open spec fn data_replaced<H: Fn(&[u8]) -> u64>(
    before: Seq<Content>,
    c_id: u16,
    d_id: u16,
    data: Data,
    sha: H,
    after: Seq<Content>,
    r: Result<Data, AppError>,
) -> bool {
    &&& c_id < before.len()
    &&& after.len() == before.len()
    &&& Content::data_updated(before[c_id as int], d_id, data, sha, after[c_id as int], r)
    &&& forall|j: int| 0 <= j < before.len() && j != c_id ==> #[trigger] after[j] == before[j]
}

/// Page `d_id` of content `c` can be replaced by `data` and the old page
/// put back again, every link fitting a page throughout: a link's own page
/// reads back and fits a page, and whatever becomes its page of tags fits
/// too.
pub open spec fn updatable<H: Fn(&[u8]) -> u64>(c: Content, d_id: u16, data: Data, sha: H) -> bool {
    &&& c.update_data_ok(d_id, data, sha)
    &&& c matches Content::Link(sn, _, d, _, ti) ==> if d_id == 0 {
        &&& data.1@.len() <= 1024
        &&& forall|b: Seq<u8>| #[trigger] c.link_page(b) ==> link_readable(b) && b.len() <= 1024
    } else {
        &&& link_len(sn.0@, d.spec_bytes(), data.1@, ti) <= 1024
        &&& forall|b: Seq<u8>| #[trigger] c.link_page(b) ==> link_len(sn.0@, d.spec_bytes(), b, ti) <= 1024
    }
}

/// A content whose page was replaced still fits (see `updatable`), and its
/// old page can be put back.
proof fn lemma_replaced_fits<H: Fn(&[u8]) -> u64>(c: Content, d_id: u16, data: Data, sha: H, c2: Content, r: Result<Data, AppError>)
    requires
        c.link_fits(),
        c.shape_ok(),
        updatable(c, d_id, data, sha),
        Content::data_updated(c, d_id, data, sha, c2, r),
    ensures
        c2.link_fits(),
        c2.shape_ok(),
        r matches Ok(p) ==> c2.update_data_ok(d_id, p, sha),
{
    match c {
        Content::Link(sn, cid, d, t, ti) => {
            if d_id == 0 {
                if data.1@.len() >= 11 {
                    lemma_read_link_fits(c2, data.1@, sha);
                }
            }
        },
        Content::Data(dt, mem, tree) => {
            if let Content::Data(dt2, mem2, tree2) = c2 {
                crate::content_tree::lemma_len_pages(tree);
                crate::content_tree::lemma_len_pages(tree2);
            }
        },
    }
}

/// Putting the old page back leaves a content that fits.
proof fn lemma_restored_fits<H: Fn(&[u8]) -> u64>(
    c: Content,
    d_id: u16,
    data: Data,
    sha: H,
    c2: Content,
    p: Data,
    c3: Content,
    q: Result<Data, AppError>,
)
    requires
        updatable(c, d_id, data, sha),
        Content::data_updated(c, d_id, data, sha, c2, Ok(p)),
        c2.link_fits(),
        Content::data_updated(c2, d_id, p, sha, c3, q),
    ensures
        c3.link_fits(),
        c3.shape_ok(),
{
    if let Content::Link(sn, cid, d, t, ti) = c {
        if d_id == 0 {
            assert(c.link_page(p.1@));
            if p.1@.len() >= 11 {
                lemma_read_link_fits(c3, p.1@, sha);
            }
        } else {
            assert(c.link_page(p.1@));
        }
    }
}

/// `after` and `r` are what `Datastore::remove_data` of page `d_id` of
/// content `c_id` makes of `before`.
pub open spec fn data_removed<H: Fn(&[u8]) -> u64>(
    before: Seq<Content>,
    c_id: u16,
    d_id: u16,
    sha: H,
    after: Seq<Content>,
    r: Result<Data, AppError>,
) -> bool {
    if c_id >= before.len() {
        r == Err::<Data, AppError>(AppError::IndexingError) && after == before
    } else {
        exists|c2: Content| #[trigger] Content::page_removed(before[c_id as int], d_id, sha, c2, r) && changed_at(before, c_id, after, c2)
    }
}

/// `after` and `r` are what `Datastore::insert_data` of `data` at page
/// `d_id` of content `c_id` makes of `before`.
pub open spec fn data_inserted<H: Fn(&[u8]) -> u64>(
    before: Seq<Content>,
    c_id: u16,
    d_id: u16,
    data: Data,
    sha: H,
    after: Seq<Content>,
    r: Result<u64, AppError>,
) -> bool {
    if c_id >= before.len() {
        r == Err::<u64, AppError>(AppError::IndexingError) && after == before
    } else {
        exists|c2: Content| #[trigger] Content::page_inserted(before[c_id as int], d_id, data, sha, c2, r) && changed_at(before, c_id, after, c2)
    }
}

/// A page that is not the empty page of hash 0.
pub open spec fn page_present(p: Page) -> bool {
    p.hash != 0 || p.bytes.len() > 0
}

/// Page `d_id` of content `c` can be removed and inserted again with the
/// tree staying well shaped: the content is ready for `remove_data`, every
/// page before `d_id` is stored, and no page is the empty page of hash 0.
pub open spec fn removable<H: Fn(&[u8]) -> u64>(c: Content, d_id: u16, sha: H) -> bool {
    &&& c.remove_ok(d_id, sha)
    &&& c matches Content::Data(_, _, tree) ==> forall|k: int| 0 <= k < tree.pages().len() ==> {
        &&& (k < d_id ==> (#[trigger] tree.pages()[k]).stored)
        &&& page_present(tree.pages()[k])
    }
}

/// After removing a page as `removable` allows, every page is stored and
/// present, and the removed page can be inserted again.
proof fn lemma_removed_reinsertable<H: Fn(&[u8]) -> u64>(c: Content, d_id: u16, sha: H, c2: Content, p: Data)
    requires
        removable(c, d_id, sha),
        Content::page_removed(c, d_id, sha, c2, Ok(p)),
    ensures
        c2.insert_ok(d_id, p, sha),
        c2.shape_ok(),
        c2 matches Content::Data(_, _, tree2) && forall|k: int| 0 <= k < tree2.pages().len() ==> (#[trigger] tree2.pages()[k]).stored
            && page_present(tree2.pages()[k]),
        c matches Content::Data(_, _, tree) && d_id < tree.pages().len() && p@ == crate::content_tree::page_data(tree.pages()[d_id as int]),
        page_present(stored_page(p@)),
{
    if let Content::Data(_, mem, tree) = c {
        if let Content::Data(_, mem2, tree2) = c2 {
            crate::content_tree::lemma_len_pages(tree);
            crate::content_tree::lemma_len_pages(tree2);
            let ps = tree.pages();
            let qs = tree2.pages();
            assert(qs == pages_after_remove(ps, d_id as int));
            assert forall|k: int| 0 <= k < qs.len() implies (#[trigger] qs[k]).stored && page_present(qs[k]) by {
                if k < d_id {
                    assert(qs[k] == ps[k]);
                } else {
                    assert(qs[k] == crate::content_tree::restamp(ps[k + 1]));
                }
            }
            if let ContentTree::Hashed(st) = tree2 {
                assert(tree2.leaves() == qs);
                assert forall|k: int| 0 <= k < st.left.leaves().len() implies (#[trigger] st.left.leaves()[k]).stored by {
                    assert(st.left.leaves()[k] == tree2.leaves()[k]);
                }
            }
        }
    }
}

/// Inserting the removed page again keeps the tree well shaped.
proof fn lemma_reinserted_shape<H: Fn(&[u8]) -> u64>(c2: Content, d_id: u16, p: Data, sha: H, c3: Content, q: Result<u64, AppError>)
    requires
        c2.shape_ok(),
        c2 matches Content::Data(_, _, tree2) && forall|k: int| 0 <= k < tree2.pages().len() ==> (#[trigger] tree2.pages()[k]).stored
            && page_present(tree2.pages()[k]),
        page_present(stored_page(p@)),
        Content::page_inserted(c2, d_id, p, sha, c3, q),
    ensures
        c3.shape_ok(),
{
    if let Content::Data(_, _, tree2) = c2 {
        if let Content::Data(_, _, tree3) = c3 {
            if let ContentTree::Hashed(st) = tree2 {
                crate::content_tree::lemma_len_pages(tree2);
                if !(d_id > 0 && d_id >= tree2.spec_len()) {
                    let lp = st.left.leaves();
                    let rl = st.right.leaves();
                    assert forall|k: int| 0 <= k < lp.len() implies (#[trigger] lp[k]).stored && page_present(lp[k]) by {
                        assert(lp[k] == tree2.leaves()[k]);
                    }
                    assert forall|k: int| 0 <= k < rl.len() implies (#[trigger] rl[k]).stored && page_present(rl[k]) by {
                        assert(rl[k] == tree2.leaves()[lp.len() + k]);
                    }
                    crate::content_tree::lemma_len_pages(st.right);
                    crate::content_tree::lemma_len_pages(st.left);
                    let rot = crate::content_tree::insert_rotation(lp, d_id as int, stored_page(p@));
                    let carried = if d_id < lp.len() { crate::content_tree::page_data(rot.1) } else { p@ };
                    if d_id < lp.len() {
                        let nl = lp.len() as int;
                        let a = lp.take(d_id as int).push(stored_page(p@)) + lp.subrange(d_id as int, nl - 1);
                        if d_id == nl - 1 {
                            assert(a[nl - 1] == stored_page(p@));
                        } else {
                            assert(a[nl - 1] == lp[nl - 2]);
                        }
                        assert(page_present(rot.1));
                    }
                    assert(carried.0 != 0 || carried.1.len() > 0);
                    assert(st.right.pages().last().stored);
                    assert(st.right.append_keeps_shape(carried));
                    assert(st.right.pages_after_append(carried).len() == st.right.pages().len() + 1);
                }
            }
        }
    }
}

/// The page views of a tree: the hash and bytes of each page.
pub open spec fn page_views(t: ContentTree) -> Seq<(u64, Seq<u8>)> {
    t.pages().map_values(|p: Page| page_data(p))
}

/// The views of empty pages of the hashes `hs`.
pub open spec fn shells(hs: Seq<u64>) -> Seq<(u64, Seq<u8>)> {
    hs.map_values(|h: u64| (h, Seq::<u8>::empty()))
}

/// The hashes written eight bytes each, big-endian, in `b` (a shorter
/// tail is left out).
pub open spec fn shell_hashes(b: Seq<u8>) -> Seq<u64> {
    Seq::new(b.len() / 8, |i: int| u64_of(b.subrange(8 * i, 8 * i + 8)))
}

/// `c` is a data content of type `dt` counting `mem` pages with bytes, with
/// a well-formed tree whose pages read as `vs`.
pub open spec fn data_views<H: Fn(&[u8]) -> u64>(c: Content, sha: H, dt: DataType, mem: u16, vs: Seq<(u64, Seq<u8>)>) -> bool {
    c matches Content::Data(dt2, mem2, t) && dt2 == dt && mem2 == mem && t.wf(sha) && page_views(t) == vs
}

/// `after` holds the contents of `before` with content `c_id` replaced by `c`.
pub open spec fn only_at(before: Seq<Content>, c_id: u16, after: Seq<Content>) -> bool {
    &&& after.len() == before.len()
    &&& forall|j: int| 0 <= j < before.len() && j != c_id ==> #[trigger] after[j] == before[j]
}

/// Appending an empty page of a hash other than 0 adds its view at the end.
proof fn lemma_shell_appended(t: ContentTree, h: u64, t2: ContentTree)
    requires
        t.wf_shape(),
        h != 0,
        t2.pages() == t.pages_after_append((h, Seq::<u8>::empty())),
    ensures
        t.append_keeps_shape((h, Seq::<u8>::empty())),
        page_views(t2) == page_views(t).push((h, Seq::<u8>::empty())),
        t2.pages().len() == t.pages().len() + 1,
        t2.pages().last().bytes.len() == 0,
        t2.pages().drop_last() == t.pages(),
{
    let d = (h, Seq::<u8>::empty());
    let p = t.pages();
    crate::content_tree::lemma_len_pages(t);
    let q = t2.pages();
    if p.len() == 0 {
        assert(q == seq![crate::content_tree::placeholder(h)]);
    } else if t.lands_on_leaf() && p.last().stored {
        assert(q == p.push(stored_page(d)));
    } else {
        assert(q == p.push(crate::content_tree::placeholder(h)));
    }
    assert(page_views(t2) =~= page_views(t).push(d));
    assert(t2.pages().drop_last() =~= t.pages());
}

/// An empty page of a hash other than 0 can be appended to a well-formed
/// tree with its shape kept.
proof fn lemma_shell_appended_keeps(t: ContentTree, h: u64)
    requires
        t.wf_shape(),
        h != 0,
    ensures
        t.append_keeps_shape((h, Seq::<u8>::empty())),
{
}

/// The pages of a content as removing them one by one from the end finds
/// them: those of a data content's tree; a link gives none.
pub open spec fn content_views(c: Content) -> Seq<(u64, Seq<u8>)> {
    match c {
        Content::Link(..) => Seq::empty(),
        Content::Data(_, _, t) => page_views(t),
    }
}

/// `j` is the first of the pages `vs` with hash `h`.
pub open spec fn earliest(vs: Seq<(u64, Seq<u8>)>, h: u64, j: int) -> bool {
    &&& 0 <= j < vs.len()
    &&& vs[j].0 == h
    &&& forall|k: int| 0 <= k < j ==> (#[trigger] vs[k]).0 != h
}

/// The bytes of an old page that page `i` of the new hashes `hs` takes
/// over: those of the first old page of its hash, unless an earlier new
/// page has the same hash (each old page is taken over once).
pub open spec fn carried_bytes(vs: Seq<(u64, Seq<u8>)>, hs: Seq<u64>, i: int) -> Option<Seq<u8>> {
    if exists|k: int| 0 <= k < i && hs[k] == #[trigger] hs[i] {
        None
    } else if exists|j: int| #[trigger] earliest(vs, hs[i], j) {
        Some(vs[choose|j: int| #[trigger] earliest(vs, hs[i], j)].1)
    } else {
        None
    }
}

/// Page view `v` is the new page of hash `h` after taking over `carried`:
/// the carried bytes, or none where there are none or the page refused
/// them for hashing to another value.
pub open spec fn taken_over<H: Fn(&[u8]) -> u64>(v: (u64, Seq<u8>), h: u64, carried: Option<Seq<u8>>, sha: H) -> bool {
    &&& v.0 == h
    &&& match carried {
        None => v.1.len() == 0,
        Some(b) => v.1 == b || (v.1.len() == 0 && exists|g: u64| g != h && #[trigger] hashes_to(sha, b, g)),
    }
}

/// The first hash written in `data` names a content's new page 0, and
/// the hash of the old page 0 (0 when there is none) is `old_first`: a new
/// page 0 is announced (as an empty page) only when they differ.
pub open spec fn new_main_page(first: u64, old_first: u64, r: Option<Data>) -> bool {
    if first == old_first {
        r is None
    } else {
        r matches Some(d) && d.0 == first && d.1@.len() == 0
    }
}

/// A data content of type `d_type` whose pages are empty pages of the
/// hashes written in `data`.
fn shell_content<H: Fn(&[u8]) -> u64>(d_type: DataType, data: &Data, sha: &H) -> (r: Content)
    requires
        hasher_total(*sha),
        d_type is Data,
        8 <= data.1@.len() <= 1024,
        forall|i: int| 0 <= i < shell_hashes(data.1@).len() ==> #[trigger] shell_hashes(data.1@)[i] != 0,
    ensures
        r matches Content::Data(dt, mem, t) && dt == DataType::spec_from(d_type->Data_0) && mem == 0 && t.wf(*sha)
            && page_views(t) == shells(shell_hashes(data.1@)),
{
    let ghost hs = shell_hashes(data.1@);
    let n: usize = data.1.len() / 8;
    let first = read_u64_be(&data.1, 0);
    assert(first == hs[0]);
    let mut c = match Content::from(d_type, Data::empty(first), sha) {
        Ok(c) => c,
        Err(_) => Content::Data(DataType::Data(0), 0, ContentTree::empty(first)),
    };
    let ghost c0 = c;
    proof {
        if let Content::Data(_, _, t) = c0 {
            assert(t.pages() =~= seq![crate::content_tree::placeholder(first)]);
            assert(page_views(t) =~= shells(hs.take(1)));
        }
    }
    let mut i: usize = 1;
    while i < n
        invariant
            hasher_total(*sha),
            hs == shell_hashes(data.1@),
            n == hs.len(),
            n * 8 <= data.1@.len() <= 1024,
            1 <= i <= n,
            forall|k: int| 0 <= k < hs.len() ==> #[trigger] hs[k] != 0,
            d_type is Data,
            c matches Content::Data(dt, mem, t) && dt == DataType::spec_from(d_type->Data_0) && mem == 0 && t.wf(*sha)
                && page_views(t) == shells(hs.take(i as int)) && t.pages().len() == i,
        decreases n - i,
    {
        let h = read_u64_be(&data.1, 8 * i);
        assert(h == hs[i as int]);
        let page = Data::empty(h);
        assert(page@ == (h, Seq::<u8>::empty())) by {
            assert(page.1@ =~= Seq::<u8>::empty());
        }
        let ghost before = c;
        proof {
            if let Content::Data(_, _, t) = before {
                lemma_shell_appended_keeps(t, h);
                crate::content_tree::lemma_len_pages(t);
            }
        }
        let _ = c.push_data(page, sha);
        let ghost after = c;
        proof {
            if let Content::Data(_, _, t) = before {
                if let Content::Data(_, _, t2) = after {
                    assert(!t.is_full());
                    lemma_shell_appended(t, h, t2);
                    assert(shells(hs.take(i + 1)) =~= shells(hs.take(i as int)).push((h, Seq::<u8>::empty())));
                }
            }
        }
        i += 1;
    }
    proof {
        assert(hs.take(n as int) =~= hs);
    }
    c
}

/// The pages of `c` (see `content_views`), read in order.
fn old_pages<H: Fn(&[u8]) -> u64>(c: &Content, sha: &H) -> (r: Vec<Data>)
    requires
        hasher_total(*sha),
        c.link_fits(),
        c.shape_ok(),
    ensures
        r@.map_values(|d: Data| d@) == content_views(*c),
{
    let mut out: Vec<Data> = Vec::new();
    match c {
        Content::Link(..) => {
            assert(out@.map_values(|d: Data| d@) =~= Seq::<(u64, Seq<u8>)>::empty());
            out
        },
        Content::Data(_, _, t) => {
            proof {
                crate::content_tree::lemma_len_pages(*t);
            }
            let n = c.len();
            let mut i: u16 = 0;
            while i < n
                invariant
                    hasher_total(*sha),
                    c.link_fits(),
                    c.shape_ok(),
                    *c == Content::Data(c->Data_0, c->Data_1, *t),
                    n == t.pages().len(),
                    t.spec_len() == t.pages().len(),
                    !t.is_void() ==> t.pages() == t.leaves(),
                    i <= n,
                    out@.map_values(|d: Data| d@) == page_views(*t).take(i as int),
                decreases n - i,
            {
                let d = match c.read_data(i, sha) {
                    Ok(d) => d,
                    Err(_) => Data::empty(0),
                };
                proof {
                    assert(!t.is_void());
                    assert(d@ == page_views(*t)[i as int]);
                }
                let ghost before = out@;
                out.push(d);
                proof {
                    assert(out@ == before.push(d));
                    assert(out@.map_values(|d: Data| d@) =~= before.map_values(|d: Data| d@).push(d@));
                    assert(page_views(*t).take(i + 1) =~= page_views(*t).take(i as int).push(page_views(*t)[i as int]));
                }
                i += 1;
            }
            proof {
                assert(page_views(*t).take(n as int) =~= page_views(*t));
            }
            out
        },
    }
}

/// The first of the pages `vs` with hash `h`, if any.
fn find_earliest(vs: &Vec<Data>, h: u64) -> (r: Option<usize>)
    ensures
        r matches Some(j) ==> earliest(vs@.map_values(|d: Data| d@), h, j as int),
        r is None ==> forall|j: int| 0 <= j < vs@.len() ==> (#[trigger] vs@[j]).0 != h,
{
    let ghost views = vs@.map_values(|d: Data| d@);
    let mut j: usize = 0;
    while j < vs.len()
        invariant
            views == vs@.map_values(|d: Data| d@),
            j <= vs@.len(),
            forall|k: int| 0 <= k < j ==> (#[trigger] vs@[k]).0 != h,
        decreases vs@.len() - j,
    {
        if vs[j].0 == h {
            proof {
                assert forall|k: int| 0 <= k < j implies (#[trigger] views[k]).0 != h by {
                    assert(views[k] == vs@[k]@);
                }
            }
            return Some(j);
        }
        j += 1;
    }
    None
}

/// Whether one of the first `i` hashes written in `b` is also hash `i`.
fn seen_before(b: &Vec<u8>, i: usize) -> (r: bool)
    requires
        8 * i + 8 <= b@.len(),
    ensures
        r == exists|k: int| 0 <= k < i && shell_hashes(b@)[k] == #[trigger] shell_hashes(b@)[i as int],
{
    let ghost hs = shell_hashes(b@);
    let _len = b.len();
    let h = read_u64_be(b, 8 * i);
    assert(h == hs[i as int]);
    let mut k: usize = 0;
    while k < i
        invariant
            hs == shell_hashes(b@),
            8 * i + 8 <= b@.len(),
            h == hs[i as int],
            b@.len() <= usize::MAX,
            k <= i,
            forall|m: int| 0 <= m < k ==> hs[m] != h,
        decreases i - k,
    {
        let g = read_u64_be(b, 8 * k);
        assert(g == hs[k as int]);
        if g == h {
            return true;
        }
        k += 1;
    }
    false
}

/// `c` is the content that `data`'s hashes make for type `d_type`: a data
/// content counting no page with bytes, whose tree holds an empty page of
/// each hash in order.
pub open spec fn shell_made<H: Fn(&[u8]) -> u64>(d_type: DataType, data: Data, sha: H, c: Content) -> bool {
    c matches Content::Data(dt, mem, t) && dt == DataType::spec_from(d_type->Data_0) && mem == 0 && t.wf(sha) && page_views(t)
        == shells(shell_hashes(data.1@))
}

/// The hash of a content's old page 0 as `content_views` finds it (0 when
/// there is none).
pub open spec fn first_view_hash(c: Content) -> u64 {
    if content_views(c).len() > 0 {
        content_views(c)[0].0
    } else {
        0
    }
}

/// A tree with the same nodes and counts as another has its shape and its
/// number of leaves.
proof fn lemma_mirror_shape(a: ContentTree, b: ContentTree)
    requires
        a.mirrors(b),
    ensures
        a.wf_shape() == b.wf_shape(),
        a.leaves().len() == b.leaves().len(),
        a.is_void() == b.is_void(),
    decreases a,
{
    if let ContentTree::Hashed(x) = a {
        if let ContentTree::Hashed(y) = b {
            lemma_mirror_shape(x.left, y.left);
            lemma_mirror_shape(x.right, y.right);
        }
    }
}

/// Page `d_id` of data content `c` can be removed (all that `remove_ok`
/// asks but the count of pages with bytes): the tree's hashes are right,
/// it holds such a page and is not a single placeholder, and below an
/// inner node every page from it on but the last is stored.
pub open spec fn page_removable<H: Fn(&[u8]) -> u64>(c: Content, d_id: u16, sha: H) -> bool {
    c matches Content::Data(_, _, tree) && tree.hashes_ok(sha) && !(tree is Empty) && d_id < tree.pages().len() && (tree is Hashed ==> forall|k: int|
        d_id <= k < tree.pages().len() - 1 ==> (#[trigger] tree.pages()[k]).stored)
}

/// `after` is what appending an empty page of each hash of `hs` makes of
/// content `c`: for data, its pages followed by those of the hashes; a
/// link stays as it is.
pub open spec fn shells_pushed<H: Fn(&[u8]) -> u64>(c: Content, hs: Seq<u64>, sha: H, after: Content) -> bool {
    match c {
        Content::Link(..) => after == c,
        Content::Data(dt, mem, t) => data_views(after, sha, dt, mem, page_views(t) + shells(hs)),
    }
}

impl ApplicationData {
    /// Appends page `data` to content `c_id` as a received message asks:
    /// when every requirement before it holds, the page is appended; when a
    /// requirement after it then fails, the last page is popped again.
    pub fn apply_append_data<H: Fn(&[u8]) -> u64>(
        &mut self,
        c_id: ContentID,
        data: Data,
        reqs: &SyncRequirements,
        sha: &H,
    ) -> (r: SyncOutcome)
        requires
            hasher_total(*sha),
            old(self).contents.wf(),
            old(self).contents.contents_ok(),
            c_id < old(self).contents.contents().len() ==> appendable(old(self).contents.contents()[c_id as int], data, *sha),
        ensures
            final(self).contents.wf(),
            final(self).contents.contents_ok(),
            final(self).change_reg == old(self).change_reg,
            final(self).partial == old(self).partial,
            r is Refused ==> some_fails(old(self).contents.contents(), *sha, reqs.pre@)
                && final(self).contents == old(self).contents,
            !(r is Refused) ==> all_hold(old(self).contents.contents(), *sha, reqs.pre@),
            r matches SyncOutcome::Failed(e) ==> data_appended(
                old(self).contents.contents(), c_id, data, *sha, final(self).contents.contents(), Err(e)),
            r is Applied ==> exists|h: u64| #[trigger] data_appended(
                old(self).contents.contents(), c_id, data, *sha, final(self).contents.contents(), Ok(h))
                && all_hold(final(self).contents.contents(), *sha, reqs.post@),
            r is RolledBack ==> exists|mid: Seq<Content>, h: u64, p: Result<Data, AppError>|
                #[trigger] data_appended(old(self).contents.contents(), c_id, data, *sha, mid, Ok(h))
                && some_fails(mid, *sha, reqs.post@)
                && #[trigger] data_popped(mid, c_id, *sha, final(self).contents.contents(), p),
    {
        if !reqs.pre_validate(c_id, self, sha) {
            return SyncOutcome::Refused;
        }
        let ghost before = self.contents.contents();
        let res = self.contents.append_data(c_id, data, sha);
        let ghost mid = self.contents.contents();
        match res {
            Err(e) => {
                proof {
                    assert(data_appended(before, c_id, data, *sha, mid, res));
                    if c_id < before.len() {
                        assert forall|i: int| 0 <= i < mid.len() implies (#[trigger] mid[i]).shape_ok() by {
                            if i == c_id {
                                let c2 = choose|c2: Content| #[trigger] Content::pushed(before[c_id as int], data, *sha, c2, res)
                                    && put_back(before[c_id as int], c2, mid[c_id as int]);
                            }
                        }
                    }
                }
                SyncOutcome::Failed(e)
            },
            Ok(h) => {
                proof {
                    assert(data_appended(before, c_id, data, *sha, mid, Ok(h)));
                    let c2 = choose|c2: Content| #[trigger] Content::pushed(before[c_id as int], data, *sha, c2, res)
                        && put_back(before[c_id as int], c2, mid[c_id as int]);
                    assert forall|i: int| 0 <= i < mid.len() implies (#[trigger] mid[i]).shape_ok() by {
                        if i != c_id {
                            assert(mid[i] == before[i]);
                        }
                    }
                    lemma_last_page_bytes(before[c_id as int], data, *sha, c2, h);
                }
                if reqs.post_validate(c_id, self, sha) {
                    SyncOutcome::Applied
                } else {
                    let popped = self.contents.pop_data(c_id, sha);
                    proof {
                        let fin = self.contents.contents();
                        assert(data_popped(mid, c_id, *sha, fin, popped));
                        let c3 = choose|c3: Content| #[trigger] Content::popped(mid[c_id as int], *sha, c3, popped)
                            && put_back(mid[c_id as int], c3, fin[c_id as int]);
                        assert forall|i: int| 0 <= i < fin.len() implies (#[trigger] fin[i]).shape_ok() by {
                            if i != c_id {
                                assert(fin[i] == mid[i]);
                            }
                        }
                    }
                    SyncOutcome::RolledBack
                }
            },
        }
    }
    /// Adds a content read from page `data` as a received message asks:
    /// when every requirement before it holds and the single requirement
    /// after it names the next content id and the new content's hash, the
    /// content is appended, and its id, type and page 0 are returned.
    pub fn apply_append_content<H: Fn(&[u8]) -> u64>(
        &mut self,
        d_type: DataType,
        data: Data,
        reqs: &SyncRequirements,
        sha: &H,
    ) -> (r: Result<(ContentID, DataType, Data), SyncOutcome>)
        requires
            hasher_total(*sha),
            old(self).contents.wf(),
            old(self).contents.contents_ok(),
            old(self).contents.contents().len() < u16::MAX,
            d_type == DataType::Link ==> link_readable(data.1@) && 11 <= data.1@.len() <= 1024,
        ensures
            final(self).contents.wf(),
            final(self).contents.contents_ok(),
            final(self).change_reg == old(self).change_reg,
            final(self).partial == old(self).partial,
            r matches Err(o) ==> (o is Refused || o is Mismatch) && final(self).contents == old(self).contents,
            r == Err::<(ContentID, DataType, Data), SyncOutcome>(SyncOutcome::Refused) ==> some_fails(
                old(self).contents.contents(), *sha, reqs.pre@),
            r != Err::<(ContentID, DataType, Data), SyncOutcome>(SyncOutcome::Refused) ==> all_hold(
                old(self).contents.contents(), *sha, reqs.pre@),
            r == Err::<(ContentID, DataType, Data), SyncOutcome>(SyncOutcome::Mismatch) ==> reqs.post@.len() != 1
                || reqs.post@[0].0 != old(self).contents.contents().len()
                || exists|c: Content, g: u64| #[trigger] content_read(d_type, data, *sha, c) && g != reqs.post@[0].1
                    && #[trigger] c.hashes_to(*sha, g),
            r matches Ok((id, t, page)) ==> {
                &&& id == old(self).contents.contents().len()
                &&& reqs.post@.len() == 1
                &&& reqs.post@[0].0 == id
                &&& exists|c: Content| #[trigger] content_read(d_type, data, *sha, c) && c.hashes_to(*sha, reqs.post@[0].1)
                    && final(self).contents.contents() == old(self).contents.contents().push(c)
                    && t == c.spec_data_type() && main_page(c, *sha, page)
            },
    {
        let next_id = self.contents.len();
        if !reqs.pre_validate(next_id, self, sha) {
            return Err(SyncOutcome::Refused);
        }
        if reqs.post.len() != 1 {
            return Err(SyncOutcome::Mismatch);
        }
        let content = match Content::from(d_type, data, sha) {
            Ok(c) => c,
            Err(_) => {
                return Err(SyncOutcome::Mismatch);
            },
        };
        proof {
            assert(content_read(d_type, data, *sha, content));
            if d_type == DataType::Link {
                lemma_read_link_fits(content, data.1@, *sha);
            }
        }
        let (recv_id, recv_hash) = reqs.post[0];
        let hash = content.hash(sha);
        if recv_id != next_id || recv_hash != hash {
            proof {
                assert(content.hashes_to(*sha, hash));
                assert(content_read(d_type, data, *sha, content));
            }
            return Err(SyncOutcome::Mismatch);
        }
        let t = content.data_type();
        let main = match content.read_data(0, sha) {
            Ok(d) => d,
            Err(_) => Data::empty(0),
        };
        let ghost before = self.contents.contents();
        let ghost added = content;
        let _ = self.contents.append(content, sha);
        proof {
            let after = self.contents.contents();
            assert forall|i: int| 0 <= i < after.len() implies (#[trigger] after[i]).link_fits() && after[i].shape_ok() by {
                if i < before.len() {
                    assert(after[i] == before[i]);
                }
            }
            assert(main_page(added, *sha, main));
        }
        Ok((recv_id, t, main))
    }
    /// The message that asks the swarm to add a content read from `data`:
    /// before it no content has the next id (hash 0), after it the content
    /// there has `data`'s hash. None when the datastore is full.
    pub fn plan_append_content(&self, d_type: DataType, data: Data) -> (r: Option<SyncMessage>)
        requires
            self.contents.wf(),
        ensures
            self.contents.contents().len() >= u16::MAX ==> r is None,
            self.contents.contents().len() < u16::MAX ==> (r matches Some(m) && {
                let id = self.contents.contents().len() as u16;
                &&& m.m_type == SyncMessageType::AppendContent(d_type)
                &&& m.requirements.pre@ == seq![(id, 0u64)]
                &&& m.requirements.post@ == seq![(id, data.0)]
                &&& m.data == data
            }),
    {
        proof {
            self.contents.lemma_len();
        }
        let next_id = self.contents.len();
        if next_id == u16::MAX {
            return None;
        }
        let pre = vec![(next_id, 0u64)];
        let post = vec![(next_id, data.get_hash())];
        Some(SyncMessage::new(SyncMessageType::AppendContent(d_type), SyncRequirements { pre, post }, data))
    }

    /// The message that asks the swarm to append page `data` to content
    /// `c_id`: the page is appended here to learn the hash after it, and
    /// popped again; the message carries the popped page.
    pub fn plan_append_data<H: Fn(&[u8]) -> u64>(&mut self, c_id: ContentID, data: Data, sha: &H) -> (r: SyncMessage)
        requires
            hasher_total(*sha),
            old(self).contents.wf(),
            old(self).contents.contents_ok(),
            c_id < old(self).contents.contents().len(),
            appendable(old(self).contents.contents()[c_id as int], data, *sha),
            old(self).contents.contents()[c_id as int] matches Content::Data(_, _, tree) && !tree.is_full()
                && !(tree.is_void() && data.1@.len() == 0 && data.0 == 0),
        ensures
            final(self).contents.wf(),
            final(self).contents.contents_ok(),
            final(self).change_reg == old(self).change_reg,
            final(self).partial == old(self).partial,
            r.m_type == SyncMessageType::AppendData(c_id),
            r.requirements.pre@.len() == 1,
            r.requirements.pre@[0].0 == c_id,
            old(self).contents.contents()[c_id as int].hashes_to(*sha, r.requirements.pre@[0].1),
            r.requirements.post@.len() == 1,
            r.requirements.post@[0].0 == c_id,
            exists|mid: Seq<Content>| #[trigger] data_appended(
                old(self).contents.contents(), c_id, data, *sha, mid, Ok(r.requirements.post@[0].1))
                && data_popped(mid, c_id, *sha, final(self).contents.contents(), Ok(r.data)),
    {
        let ghost before = self.contents.contents();
        let pre_hash = match self.contents.get_root_content_typed_hash(c_id, sha) {
            Ok((_t, h)) => h,
            Err(_) => 0,
        };
        let res = self.contents.append_data(c_id, data, sha);
        let ghost mid = self.contents.contents();
        let post_hash = match res {
            Ok(h) => h,
            Err(_) => 0,
        };
        proof {
            assert(data_appended(before, c_id, data, *sha, mid, res));
            let c2 = choose|c2: Content| #[trigger] Content::pushed(before[c_id as int], data, *sha, c2, res)
                && put_back(before[c_id as int], c2, mid[c_id as int]);
            assert forall|i: int| 0 <= i < mid.len() implies (#[trigger] mid[i]).shape_ok() by {
                if i != c_id {
                    assert(mid[i] == before[i]);
                }
            }
            assert(res is Ok);
            lemma_last_page_bytes(before[c_id as int], data, *sha, c2, post_hash);
            if let Content::Data(_, _, tree) = before[c_id as int] {
                crate::content_tree::lemma_len_pages(tree);
                if let Content::Data(_, _, tree2) = c2 {
                    crate::content_tree::lemma_len_pages(tree2);
                    assert(tree2.pages().len() > 0);
                    assert(!tree2.is_void());
                }
            }
            assert(mid[c_id as int] == c2);
        }
        let popped = self.contents.pop_data(c_id, sha);
        let page = match popped {
            Ok(d) => d,
            Err(_) => Data::empty(0),
        };
        proof {
            let fin = self.contents.contents();
            assert(data_popped(mid, c_id, *sha, fin, popped));
            let c3 = choose|c3: Content| #[trigger] Content::popped(mid[c_id as int], *sha, c3, popped)
                && put_back(mid[c_id as int], c3, fin[c_id as int]);
            assert forall|i: int| 0 <= i < fin.len() implies (#[trigger] fin[i]).shape_ok() by {
                if i != c_id {
                    assert(fin[i] == mid[i]);
                }
            }
            assert(popped is Ok);
            assert(data_appended(before, c_id, data, *sha, mid, Ok(post_hash)));
        }
        let reqs = SyncRequirements { pre: vec![(c_id, pre_hash)], post: vec![(c_id, post_hash)] };
        assert(reqs.post@[0].1 == post_hash);
        assert(data_popped(mid, c_id, *sha, self.contents.contents(), Ok(page)));
        SyncMessage::new(SyncMessageType::AppendData(c_id), reqs, page)
    }
    /// Replaces page `d_id` of content `c_id` by `data` as a received
    /// message asks: when every requirement before it holds, the page is
    /// replaced; when a requirement after it then fails, the old page is
    /// put back. Once applied, the content's type and, for page 0, the new
    /// page are returned.
    pub fn apply_update_data<H: Fn(&[u8]) -> u64>(
        &mut self,
        c_id: ContentID,
        d_id: u16,
        data: Data,
        reqs: &SyncRequirements,
        sha: &H,
    ) -> (r: Result<(DataType, Option<Data>), SyncOutcome>)
        requires
            hasher_total(*sha),
            old(self).contents.wf(),
            old(self).contents.contents_ok(),
            c_id < old(self).contents.contents().len(),
            updatable(old(self).contents.contents()[c_id as int], d_id, data, *sha),
        ensures
            final(self).contents.wf(),
            final(self).contents.contents_ok(),
            final(self).change_reg == old(self).change_reg,
            final(self).partial == old(self).partial,
            r matches Err(o) ==> o is Refused || o is Failed || o is RolledBack,
            r == Err::<(DataType, Option<Data>), SyncOutcome>(SyncOutcome::Refused) ==> some_fails(
                old(self).contents.contents(), *sha, reqs.pre@) && final(self).contents == old(self).contents,
            r != Err::<(DataType, Option<Data>), SyncOutcome>(SyncOutcome::Refused) ==> all_hold(
                old(self).contents.contents(), *sha, reqs.pre@),
            r matches Err(SyncOutcome::Failed(e)) ==> data_replaced(
                old(self).contents.contents(), c_id, d_id, data, *sha, final(self).contents.contents(), Err(e)),
            r matches Ok((t, main)) ==> {
                &&& t == old(self).contents.contents()[c_id as int].spec_data_type()
                &&& d_id == 0 ==> (main matches Some(m) && m@ == data@)
                &&& d_id != 0 ==> main is None
                &&& exists|p: Data| #[trigger] data_replaced(
                    old(self).contents.contents(), c_id, d_id, data, *sha, final(self).contents.contents(), Ok(p))
                &&& all_hold(final(self).contents.contents(), *sha, reqs.post@)
            },
            r == Err::<(DataType, Option<Data>), SyncOutcome>(SyncOutcome::RolledBack) ==> exists|
                mid: Seq<Content>,
                p: Data,
                q: Result<Data, AppError>,
            | #[trigger] data_replaced(old(self).contents.contents(), c_id, d_id, data, *sha, mid, Ok(p))
                && some_fails(mid, *sha, reqs.post@)
                && #[trigger] data_replaced(mid, c_id, d_id, p, *sha, final(self).contents.contents(), q),
    {
        let t = match self.contents.type_and_len(c_id) {
            Ok((t, _len)) => t,
            Err(_) => DataType::Data(0),
        };
        if !reqs.pre_validate(c_id, self, sha) {
            return Err(SyncOutcome::Refused);
        }
        let main = if d_id == 0 { Some(data.clone()) } else { None };
        let ghost before = self.contents.contents();
        let res = self.contents.update_data((c_id, d_id), data, sha);
        let ghost mid = self.contents.contents();
        proof {
            assert(data_replaced(before, c_id, d_id, data, *sha, mid, res));
            lemma_replaced_fits(before[c_id as int], d_id, data, *sha, mid[c_id as int], res);
            assert forall|i: int| 0 <= i < mid.len() implies (#[trigger] mid[i]).link_fits() && mid[i].shape_ok() by {
                if i != c_id {
                    assert(mid[i] == before[i]);
                }
            }
        }
        match res {
            Err(e) => Err(SyncOutcome::Failed(e)),
            Ok(old_page) => {
                if reqs.post_validate(c_id, self, sha) {
                    Ok((t, main))
                } else {
                    let ghost p = old_page;
                    let back = self.contents.update_data((c_id, d_id), old_page, sha);
                    proof {
                        let fin = self.contents.contents();
                        assert(data_replaced(mid, c_id, d_id, p, *sha, fin, back));
                        lemma_restored_fits(before[c_id as int], d_id, data, *sha, mid[c_id as int], p, fin[c_id as int], back);
                        assert forall|i: int| 0 <= i < fin.len() implies (#[trigger] fin[i]).link_fits() && fin[i].shape_ok() by {
                            if i != c_id {
                                assert(fin[i] == mid[i]);
                            }
                        }
                    }
                    Err(SyncOutcome::RolledBack)
                }
            },
        }
    }
    /// Removes page `d_id` of content `c_id` as a received message asks:
    /// when every requirement before it holds, the page is removed; when a
    /// requirement after it then fails, the removed page is inserted again
    /// at `d_id`.
    pub fn apply_remove_data<H: Fn(&[u8]) -> u64>(
        &mut self,
        c_id: ContentID,
        d_id: u16,
        reqs: &SyncRequirements,
        sha: &H,
    ) -> (r: SyncOutcome)
        requires
            hasher_total(*sha),
            old(self).contents.wf(),
            old(self).contents.contents_ok(),
            c_id < old(self).contents.contents().len() ==> removable(old(self).contents.contents()[c_id as int], d_id, *sha),
        ensures
            final(self).contents.wf(),
            final(self).contents.contents_ok(),
            final(self).change_reg == old(self).change_reg,
            final(self).partial == old(self).partial,
            !(r is Mismatch),
            r is Refused ==> some_fails(old(self).contents.contents(), *sha, reqs.pre@)
                && final(self).contents == old(self).contents,
            !(r is Refused) ==> all_hold(old(self).contents.contents(), *sha, reqs.pre@),
            r matches SyncOutcome::Failed(e) ==> data_removed(
                old(self).contents.contents(), c_id, d_id, *sha, final(self).contents.contents(), Err(e)),
            r is Applied ==> exists|p: Data| #[trigger] data_removed(
                old(self).contents.contents(), c_id, d_id, *sha, final(self).contents.contents(), Ok(p))
                && all_hold(final(self).contents.contents(), *sha, reqs.post@),
            r is RolledBack ==> exists|mid: Seq<Content>, p: Data, q: Result<u64, AppError>|
                #[trigger] data_removed(old(self).contents.contents(), c_id, d_id, *sha, mid, Ok(p))
                && some_fails(mid, *sha, reqs.post@)
                && #[trigger] data_inserted(mid, c_id, d_id, p, *sha, final(self).contents.contents(), q),
    {
        if !reqs.pre_validate(c_id, self, sha) {
            return SyncOutcome::Refused;
        }
        let ghost before = self.contents.contents();
        let res = self.contents.remove_data(c_id, d_id, sha);
        let ghost mid = self.contents.contents();
        proof {
            assert(data_removed(before, c_id, d_id, *sha, mid, res));
            if c_id < before.len() {
                let c2 = choose|c2: Content| #[trigger] Content::page_removed(before[c_id as int], d_id, *sha, c2, res)
                    && put_back(before[c_id as int], c2, mid[c_id as int]);
                if res is Ok {
                    lemma_removed_reinsertable(before[c_id as int], d_id, *sha, c2, res->Ok_0);
                    assert(mid[c_id as int] == c2);
                } else if let Content::Data(_, _, tree) = before[c_id as int] {
                    if let Content::Data(_, _, tree2) = c2 {
                        assert(tree2.wf(*sha));
                    }
                }
                assert forall|i: int| 0 <= i < mid.len() implies (#[trigger] mid[i]).shape_ok() by {
                    if i != c_id {
                        assert(mid[i] == before[i]);
                    }
                }
            }
        }
        match res {
            Err(e) => SyncOutcome::Failed(e),
            Ok(removed) => {
                if reqs.post_validate(c_id, self, sha) {
                    SyncOutcome::Applied
                } else {
                    let ghost p = removed;
                    let back = self.contents.insert_data(c_id, d_id, removed, sha);
                    proof {
                        let fin = self.contents.contents();
                        assert(data_inserted(mid, c_id, d_id, p, *sha, fin, back));
                        let c2 = choose|c2: Content| #[trigger] Content::page_removed(before[c_id as int], d_id, *sha, c2, res)
                            && put_back(before[c_id as int], c2, mid[c_id as int]);
                        lemma_removed_reinsertable(before[c_id as int], d_id, *sha, c2, p);
                        let c3 = choose|c3: Content| #[trigger] Content::page_inserted(mid[c_id as int], d_id, p, *sha, c3, back)
                            && put_back(mid[c_id as int], c3, fin[c_id as int]);
                        lemma_reinserted_shape(mid[c_id as int], d_id, p, *sha, c3, back);
                        assert forall|i: int| 0 <= i < fin.len() implies (#[trigger] fin[i]).shape_ok() by {
                            if i != c_id {
                                assert(fin[i] == mid[i]);
                            }
                        }
                    }
                    SyncOutcome::RolledBack
                }
            },
        }
    }
    /// Pops the last `k` pages of data content `c_id`, pages without bytes.
    fn pop_pages<H: Fn(&[u8]) -> u64>(&mut self, c_id: ContentID, k: usize, sha: &H)
        requires
            hasher_total(*sha),
            old(self).contents.wf(),
            old(self).contents.contents_ok(),
            c_id < old(self).contents.contents().len(),
            old(self).contents.contents()[c_id as int] matches Content::Data(_, _, t) && t.wf(*sha) && k <= t.pages().len()
                && forall|i: int| t.pages().len() - k <= i < t.pages().len() ==> (#[trigger] t.pages()[i]).bytes.len() == 0,
        ensures
            final(self).contents.wf(),
            final(self).contents.contents_ok(),
            final(self).change_reg == old(self).change_reg,
            final(self).partial == old(self).partial,
            only_at(old(self).contents.contents(), c_id, final(self).contents.contents()),
            old(self).contents.contents()[c_id as int] matches Content::Data(dt, mem, t) && final(self).contents.contents()[c_id as int]
                matches Content::Data(dt2, mem2, t2) && dt2 == dt && mem2 == mem && t2.wf(*sha) && t2.pages() == t.pages().take(
                t.pages().len() - k),
    {
        let ghost start = self.contents.contents();
        let mut j: usize = 0;
        while j < k
            invariant
                hasher_total(*sha),
                self.contents.wf(),
                self.contents.contents_ok(),
                self.change_reg == old(self).change_reg,
                self.partial == old(self).partial,
                start == old(self).contents.contents(),
                j <= k,
                c_id < start.len(),
                only_at(start, c_id, self.contents.contents()),
                start[c_id as int] matches Content::Data(dt, mem, t) && self.contents.contents()[c_id as int]
                    matches Content::Data(dt2, mem2, t2) && dt2 == dt && mem2 == mem && t2.wf(*sha) && k <= t.pages().len()
                    && t2.pages() == t.pages().take(t.pages().len() - j) && forall|i: int|
                    t.pages().len() - k <= i < t.pages().len() ==> (#[trigger] t.pages()[i]).bytes.len() == 0,
            decreases k - j,
        {
            let ghost cur = self.contents.contents();
            proof {
                if let Content::Data(_, _, t) = start[c_id as int] {
                    if let Content::Data(_, _, t2) = cur[c_id as int] {
                        crate::content_tree::lemma_len_pages(t2);
                        let n = t.pages().len();
                        assert(t2.pages().last() == t.pages()[n - j - 1]);
                    }
                }
            }
            let res = self.contents.pop_data(c_id, sha);
            proof {
                let fin = self.contents.contents();
                let c3 = choose|c3: Content| #[trigger] Content::popped(cur[c_id as int], *sha, c3, res) && put_back(
                    cur[c_id as int],
                    c3,
                    fin[c_id as int],
                );
                if let Content::Data(_, _, t) = start[c_id as int] {
                    if let Content::Data(_, _, t2) = cur[c_id as int] {
                        crate::content_tree::lemma_len_pages(t2);
                        assert(!t2.is_void());
                        if let Content::Data(_, _, t3) = c3 {
                            let n = t.pages().len();
                            assert(t3.pages() =~= t.pages().take(n - (j + 1)));
                        }
                    }
                }
                assert forall|i: int| 0 <= i < fin.len() implies (#[trigger] fin[i]).shape_ok() by {
                    if i != c_id {
                        assert(fin[i] == cur[i]);
                    }
                }
                assert forall|i: int| 0 <= i < start.len() && i != c_id implies #[trigger] fin[i] == start[i] by {
                    assert(fin[i] == cur[i]);
                }
            }
            j += 1;
        }
    }
    /// Appends to content `c_id` an empty page for each hash written in
    /// `data` (eight bytes each, big-endian) as a received message asks:
    /// when every requirement before it holds, the pages are appended in
    /// order; when one cannot be, or a requirement after them fails, the
    /// pages appended are popped again.
    pub fn apply_append_shelled_datas<H: Fn(&[u8]) -> u64>(
        &mut self,
        c_id: ContentID,
        data: Data,
        reqs: &SyncRequirements,
        sha: &H,
    ) -> (r: SyncOutcome)
        requires
            hasher_total(*sha),
            old(self).contents.wf(),
            old(self).contents.contents_ok(),
            c_id < old(self).contents.contents().len() ==> (old(self).contents.contents()[c_id as int] matches Content::Data(
                _,
                _,
                t,
            ) ==> t.hashes_ok(*sha)),
            forall|i: int| 0 <= i < shell_hashes(data.1@).len() ==> #[trigger] shell_hashes(data.1@)[i] != 0,
        ensures
            final(self).contents.wf(),
            final(self).contents.contents_ok(),
            final(self).change_reg == old(self).change_reg,
            final(self).partial == old(self).partial,
            !(r is Mismatch),
            r is Refused ==> some_fails(old(self).contents.contents(), *sha, reqs.pre@)
                && final(self).contents == old(self).contents,
            !(r is Refused) ==> all_hold(old(self).contents.contents(), *sha, reqs.pre@),
            ({
                let before = old(self).contents.contents();
                let after = final(self).contents.contents();
                let hs = shell_hashes(data.1@);
                if c_id < before.len() && before[c_id as int] is Data {
                    let dt = before[c_id as int]->Data_0;
                    let mem = before[c_id as int]->Data_1;
                    let vs = page_views(before[c_id as int]->Data_2);
                    &&& r is Applied ==> only_at(before, c_id, after) && data_views(after[c_id as int], *sha, dt, mem, vs + shells(hs))
                        && all_hold(after, *sha, reqs.post@)
                    &&& r is RolledBack ==> (exists|mid: Seq<Content>| only_at(before, c_id, mid)
                        && #[trigger] data_views(mid[c_id as int], *sha, dt, mem, vs + shells(hs))
                        && some_fails(mid, *sha, reqs.post@)) && only_at(before, c_id, after)
                        && data_views(after[c_id as int], *sha, dt, mem, vs)
                    &&& r matches SyncOutcome::Failed(e) ==> e == AppError::ContentFull && only_at(before, c_id, after)
                        && data_views(after[c_id as int], *sha, dt, mem, vs)
                } else {
                    &&& hs.len() == 0 && !(r is Refused) ==> after == before && (r is Applied || r is RolledBack) && (r is Applied
                        ==> all_hold(after, *sha, reqs.post@)) && (r is RolledBack ==> some_fails(after, *sha, reqs.post@))
                    &&& hs.len() > 0 && !(r is Refused) ==> (r matches SyncOutcome::Failed(e) && exists|d: Data|
                        d.0 == hs[0] && d.1@.len() == 0 && #[trigger] data_appended(before, c_id, d, *sha, after, Err(e)))
                }
            }),
    {
        if !reqs.pre_validate(c_id, self, sha) {
            return SyncOutcome::Refused;
        }
        let ghost before = self.contents.contents();
        let ghost hs = shell_hashes(data.1@);
        let ghost is_data = c_id < before.len() && before[c_id as int] is Data;
        let n: usize = data.1.len() / 8;
        let mut added: usize = 0;
        let mut failure: Option<AppError> = None;
        while added < n && failure.is_none()
            invariant
                hasher_total(*sha),
                self.contents.wf(),
                self.contents.contents_ok(),
                self.change_reg == old(self).change_reg,
                self.partial == old(self).partial,
                before == old(self).contents.contents(),
                hs == shell_hashes(data.1@),
                n == hs.len(),
                n * 8 <= data.1@.len(),
                added <= n,
                forall|i: int| 0 <= i < hs.len() ==> #[trigger] hs[i] != 0,
                is_data == (c_id < before.len() && before[c_id as int] is Data),
                is_data ==> {
                    &&& failure is Some ==> failure == Some(AppError::ContentFull)
                    &&& only_at(before, c_id, self.contents.contents())
                    &&& before[c_id as int] matches Content::Data(dt, mem, t) && data_views(
                        self.contents.contents()[c_id as int],
                        *sha,
                        dt,
                        mem,
                        page_views(t) + shells(hs.take(added as int)),
                    )
                    &&& self.contents.contents()[c_id as int] matches Content::Data(_, _, t2) && (added > 0 ==> t2.pages().len() > 0
                        && t2.pages().last().bytes.len() == 0) && forall|i: int| t2.pages().len() - added <= i < t2.pages().len()
                        ==> (#[trigger] t2.pages()[i]).bytes.len() == 0
                    &&& before[c_id as int] matches Content::Data(_, _, t) && self.contents.contents()[c_id as int] matches Content::Data(_, _, t2)
                        && t2.pages().len() == t.pages().len() + added && t2.pages().take(t.pages().len() as int) == t.pages()
                },
                !is_data ==> {
                    &&& added == 0
                    &&& failure is None ==> self.contents.contents() == before
                    &&& failure matches Some(e) ==> n > 0 && exists|d: Data| d.0 == hs[0] && d.1@.len() == 0
                        && #[trigger] data_appended(before, c_id, d, *sha, self.contents.contents(), Err(e))
                },
            decreases n - added, if failure is None { 1int } else { 0int },
        {
            let h = read_u64_be(&data.1, 8 * added);
            assert(data.1@.subrange(8 * added as int, 8 * added as int + 8) == data.1@.subrange(8 * added as int, 8 * added + 8));
            assert(h == hs[added as int]);
            let page = Data::empty(h);
            assert(page@ == (h, Seq::<u8>::empty())) by {
                assert(page.1@ =~= Seq::<u8>::empty());
            }
            let ghost cur = self.contents.contents();
            proof {
                if is_data {
                    if let Content::Data(_, _, t2) = cur[c_id as int] {
                        lemma_shell_appended_keeps(t2, h);
                    }
                }
            }
            let res = self.contents.append_data(c_id, page, sha);
            proof {
                let fin = self.contents.contents();
                assert(data_appended(cur, c_id, page, *sha, fin, res));
                if c_id < cur.len() {
                    let c2 = choose|c2: Content| #[trigger] Content::pushed(cur[c_id as int], page, *sha, c2, res)
                        && put_back(cur[c_id as int], c2, fin[c_id as int]);
                    if is_data {
                        if let Content::Data(_, _, t2) = cur[c_id as int] {
                            if let Content::Data(_, _, t3) = c2 {
                                if res is Ok {
                                    lemma_shell_appended(t2, h, t3);
                                    if let Content::Data(_, _, t) = before[c_id as int] {
                                        assert(t3.pages().take(t.pages().len() as int) =~= t2.pages().take(t.pages().len() as int));
                                    }
                                    assert(hs.take(added + 1) == hs.take(added as int).push(h));
                                    assert(shells(hs.take(added + 1)) =~= shells(hs.take(added as int)).push((h, Seq::<u8>::empty())));
                                    if let Content::Data(_, _, t) = before[c_id as int] {
                                        assert(page_views(t) + shells(hs.take(added + 1)) =~= (page_views(t) + shells(hs.take(added as int))).push((h, Seq::<u8>::empty())));
                                    }
                                    assert forall|i: int| t3.pages().len() - (added + 1) <= i < t3.pages().len() implies (#[trigger] t3.pages()[i]).bytes.len() == 0 by {
                                        if i < t3.pages().len() - 1 {
                                            assert(t3.pages()[i] == t2.pages()[i]);
                                        }
                                    }
                                }
                            }
                        }
                    }
                    assert forall|i: int| 0 <= i < fin.len() implies (#[trigger] fin[i]).shape_ok() by {
                        if i != c_id {
                            assert(fin[i] == cur[i]);
                        }
                    }
                    assert forall|i: int| 0 <= i < before.len() && i != c_id implies #[trigger] fin[i] == before[i] by {
                        assert(fin[i] == cur[i]);
                    }
                }
                if !is_data {
                    assert(added == 0);
                    assert(res is Err);
                }
            }
            match res {
                Ok(_) => {
                    added += 1;
                },
                Err(e) => {
                    failure = Some(e);
                },
            }
        }
        match failure {
            Some(e) => {
                if added > 0 {
                    self.pop_pages(c_id, added, sha);
                    proof {
                        let fin = self.contents.contents();
                        if let Content::Data(_, _, t) = before[c_id as int] {
                            if let Content::Data(_, _, t3) = fin[c_id as int] {
                                assert(t3.pages() =~= t.pages());
                            }
                        }
                    }
                } else {
                    proof {
                        if is_data {
                            assert(hs.take(0) =~= Seq::<u64>::empty());
                            assert(shells(hs.take(0)) =~= Seq::<(u64, Seq<u8>)>::empty());
                            if let Content::Data(_, _, t) = before[c_id as int] {
                                assert(page_views(t) + shells(hs.take(0)) =~= page_views(t));
                            }
                        }
                    }
                }
                SyncOutcome::Failed(e)
            },
            None => {
                proof {
                    assert(added == n);
                    assert(hs.take(n as int) =~= hs);
                }
                if reqs.post_validate(c_id, self, sha) {
                    SyncOutcome::Applied
                } else {
                    let ghost mid = self.contents.contents();
                    if added > 0 {
                        self.pop_pages(c_id, added, sha);
                        proof {
                            let fin = self.contents.contents();
                            if let Content::Data(_, _, t) = before[c_id as int] {
                                if let Content::Data(_, _, t3) = fin[c_id as int] {
                                    assert(t3.pages() =~= t.pages());
                                }
                            }
                            assert(data_views(mid[c_id as int], *sha, before[c_id as int]->Data_0, before[c_id as int]->Data_1,
                                page_views(before[c_id as int]->Data_2) + shells(hs)));
                        }
                    } else {
                        proof {
                            if is_data {
                                assert(shells(hs) =~= Seq::<(u64, Seq<u8>)>::empty());
                                if let Content::Data(_, _, t) = before[c_id as int] {
                                    assert(page_views(t) + shells(hs) =~= page_views(t));
                                }
                                assert(data_views(mid[c_id as int], *sha, before[c_id as int]->Data_0, before[c_id as int]->Data_1,
                                    page_views(before[c_id as int]->Data_2) + shells(hs)));
                            }
                        }
                    }
                    SyncOutcome::RolledBack
                }
            },
        }
    }
    /// Gives each page of data content `c_id`, empty pages of the hashes
    /// written in `data`, the bytes of the old page it takes over (see
    /// `carried_bytes`).
    fn take_over_pages<H: Fn(&[u8]) -> u64>(&mut self, c_id: ContentID, olds: &Vec<Data>, data: &Data, sha: &H)
        requires
            hasher_total(*sha),
            old(self).contents.wf(),
            old(self).contents.contents_ok(),
            c_id < old(self).contents.contents().len(),
            8 <= data.1@.len() <= 1024,
            old(self).contents.contents()[c_id as int] matches Content::Data(_, mem, t) && mem == 0 && t.wf(*sha)
                && page_views(t) == shells(shell_hashes(data.1@)),
        ensures
            final(self).contents.wf(),
            final(self).contents.contents_ok(),
            final(self).change_reg == old(self).change_reg,
            final(self).partial == old(self).partial,
            only_at(old(self).contents.contents(), c_id, final(self).contents.contents()),
            ({
                let hs = shell_hashes(data.1@);
                let vs = olds@.map_values(|d: Data| d@);
                old(self).contents.contents()[c_id as int] matches Content::Data(dt, _, _) && final(self).contents.contents()[c_id as int]
                    matches Content::Data(dt2, _, t2) && dt2 == dt && t2.wf(*sha) && t2.pages().len() == hs.len()
                    && forall|i: int| 0 <= i < hs.len() ==> #[trigger] taken_over(page_views(t2)[i], hs[i], carried_bytes(vs, hs, i), *sha)
            }),
    {
        let ghost start = self.contents.contents();
        let ghost hs = shell_hashes(data.1@);
        let ghost vs = olds@.map_values(|d: Data| d@);
        let n: usize = data.1.len() / 8;
        proof {
            if let Content::Data(_, _, t) = start[c_id as int] {
                assert(page_views(t).len() == t.pages().len());
                assert(shells(hs).len() == hs.len());
                assert forall|i: int| 0 <= i < n implies #[trigger] page_views(t)[i] == (hs[i], Seq::<u8>::empty()) by {
                    assert(shells(hs)[i] == (hs[i], Seq::<u8>::empty()));
                }
            }
        }
        let mut d: usize = 0;
        while d < n
            invariant
                hasher_total(*sha),
                self.contents.wf(),
                self.contents.contents_ok(),
                self.change_reg == old(self).change_reg,
                self.partial == old(self).partial,
                start == old(self).contents.contents(),
                c_id < start.len(),
                hs == shell_hashes(data.1@),
                vs == olds@.map_values(|d: Data| d@),
                n == hs.len(),
                8 * n <= data.1@.len() <= 1024,
                d <= n,
                only_at(start, c_id, self.contents.contents()),
                start[c_id as int] matches Content::Data(dt, _, _) && self.contents.contents()[c_id as int] matches Content::Data(
                    dt2,
                    mem,
                    t2,
                ) && dt2 == dt && t2.wf(*sha) && mem <= d && t2.pages().len() == n && (forall|i: int|
                    0 <= i < d ==> #[trigger] taken_over(page_views(t2)[i], hs[i], carried_bytes(vs, hs, i), *sha)) && (forall|i: int|
                    d <= i < n ==> #[trigger] page_views(t2)[i] == (hs[i], Seq::<u8>::empty())),
            decreases n - d,
        {
            let ghost cur = self.contents.contents();
            let seen = seen_before(&data.1, d);
            if !seen {
                let h = read_u64_be(&data.1, 8 * d);
                assert(h == hs[d as int]);
                match find_earliest(olds, h) {
                    Some(j) => {
                        let page = olds[j].clone();
                        proof {
                            assert(page@ == vs[j as int]);
                            if let Content::Data(_, _, t2) = cur[c_id as int] {
                                crate::content_tree::lemma_len_pages(t2);
                                assert(page_views(t2)[d as int] == crate::content_tree::page_data(t2.leaves()[d as int]));
                            }
                        }
                        let res = self.contents.update_data((c_id, d as u16), page, sha);
                        proof {
                            let fin = self.contents.contents();
                            let j2 = choose|j2: int| #[trigger] earliest(vs, hs[d as int], j2);
                            assert(earliest(vs, hs[d as int], j as int));
                            if j2 < j {
                                assert(vs[j2].0 != h);
                            } else if j < j2 {
                                assert(vs[j as int].0 != h);
                            }
                            assert(carried_bytes(vs, hs, d as int) == Some(vs[j as int].1));
                            if let Content::Data(_, _, t2) = cur[c_id as int] {
                                if let Content::Data(_, _, t3) = fin[c_id as int] {
                                    crate::content_tree::lemma_len_pages(t2);
                                    crate::content_tree::lemma_len_pages(t3);
                                    assert forall|i: int| 0 <= i < n && i != d implies #[trigger] page_views(t3)[i] == page_views(t2)[i] by {
                                        assert(t3.leaves()[i] == t2.leaves()[i]);
                                    }
                                    assert(taken_over(page_views(t3)[d as int], hs[d as int], carried_bytes(vs, hs, d as int), *sha));
                                }
                            }
                            assert forall|i: int| 0 <= i < fin.len() implies (#[trigger] fin[i]).link_fits() && fin[i].shape_ok() by {
                                if i != c_id {
                                    assert(fin[i] == cur[i]);
                                }
                            }
                            assert forall|i: int| 0 <= i < start.len() && i != c_id implies #[trigger] self.contents.contents()[i] == start[i] by {
                                assert(fin[i] == cur[i]);
                            }
                        }
                    },
                    None => {
                        proof {
                            assert(!exists|j2: int| #[trigger] earliest(vs, hs[d as int], j2)) by {
                                if exists|j2: int| #[trigger] earliest(vs, hs[d as int], j2) {
                                    let j2 = choose|j2: int| #[trigger] earliest(vs, hs[d as int], j2);
                                    assert(olds@[j2].0 != h);
                                    assert(vs[j2] == olds@[j2]@);
                                }
                            }
                            assert(carried_bytes(vs, hs, d as int) is None);
                        }
                    },
                }
            } else {
                proof {
                    assert(carried_bytes(vs, hs, d as int) is None);
                }
            }
            d += 1;
        }
    }
    /// Changes content `c_id` into a data content of type `d_type` whose
    /// pages are the hashes written in `data`, as a received message asks:
    /// when every requirement before it holds, the content is replaced by
    /// empty pages of those hashes; when a requirement after it fails, the
    /// old content is put back; otherwise each new page takes over the
    /// bytes of an old page of its hash (see `carried_bytes`), and the new
    /// page 0 is returned when its hash differs from the old one's.
    pub fn apply_change_content<H: Fn(&[u8]) -> u64>(
        &mut self,
        c_id: ContentID,
        d_type: DataType,
        data: Data,
        reqs: &SyncRequirements,
        sha: &H,
    ) -> (r: Result<Option<Data>, SyncOutcome>)
        requires
            hasher_total(*sha),
            old(self).contents.wf(),
            old(self).contents.contents_ok(),
            d_type is Data,
            8 <= data.1@.len() <= 1024,
            forall|i: int| 0 <= i < shell_hashes(data.1@).len() ==> #[trigger] shell_hashes(data.1@)[i] != 0,
        ensures
            final(self).contents.wf(),
            final(self).contents.contents_ok(),
            final(self).change_reg == old(self).change_reg,
            final(self).partial == old(self).partial,
            r matches Err(o) ==> o is Refused || o is Failed || o is RolledBack,
            r matches Err(o) && !(o is RolledBack) ==> final(self).contents.contents() == old(self).contents.contents(),
            r == Err::<Option<Data>, SyncOutcome>(SyncOutcome::Refused) ==> some_fails(
                old(self).contents.contents(), *sha, reqs.pre@) && final(self).contents == old(self).contents,
            r != Err::<Option<Data>, SyncOutcome>(SyncOutcome::Refused) ==> all_hold(
                old(self).contents.contents(), *sha, reqs.pre@),
            r matches Err(SyncOutcome::Failed(e)) ==> if c_id < old(self).contents.contents().len() {
                let oc = old(self).contents.contents()[c_id as int];
                ||| oc matches Content::Link(_, _, _, _, Some(_)) && e == AppError::Smthg
                ||| oc is Data && oc.spec_data_type() != DataType::spec_from(d_type->Data_0) && e == AppError::DatatypeMismatch
            } else {
                e == AppError::IndexingError
            },
            r == Err::<Option<Data>, SyncOutcome>(SyncOutcome::RolledBack) ==> c_id < old(self).contents.contents().len()
                && exists|sc: Content| #[trigger] shell_made(d_type, data, *sha, sc) && some_fails(
                old(self).contents.contents().update(c_id as int, sc), *sha, reqs.post@)
                && final(self).contents.contents() == if replaceable(sc, old(self).contents.contents()[c_id as int]) {
                    old(self).contents.contents()
                } else {
                    old(self).contents.contents().update(c_id as int, sc)
                },
            r matches Ok(main) ==> {
                let before = old(self).contents.contents();
                let after = final(self).contents.contents();
                let hs = shell_hashes(data.1@);
                &&& c_id < before.len()
                &&& exists|sc: Content| #[trigger] shell_made(d_type, data, *sha, sc) && all_hold(
                    before.update(c_id as int, sc), *sha, reqs.post@)
                &&& only_at(before, c_id, after)
                &&& after[c_id as int] matches Content::Data(dt, _, t) && dt == DataType::spec_from(d_type->Data_0) && t.wf(*sha)
                    && t.pages().len() == hs.len() && forall|i: int| 0 <= i < hs.len() ==> #[trigger] taken_over(
                    page_views(t)[i],
                    hs[i],
                    carried_bytes(content_views(before[c_id as int]), hs, i),
                    *sha,
                )
                &&& new_main_page(hs[0], first_view_hash(before[c_id as int]), main)
            },
    {
        if !reqs.pre_validate(c_id, self, sha) {
            return Err(SyncOutcome::Refused);
        }
        let ghost before = self.contents.contents();
        let new_content = shell_content(d_type, &data, sha);
        let ghost sc = new_content;
        let res = self.contents.update(c_id, new_content, sha);
        let ghost mid = self.contents.contents();
        match res {
            Err(e) => Err(SyncOutcome::Failed(e)),
            Ok(old_c) => {
                proof {
                    assert(mid == before.update(c_id as int, sc));
                    assert(old_c == before[c_id as int]);
                    assert(shell_made(d_type, data, *sha, sc));
                    assert forall|i: int| 0 <= i < mid.len() implies (#[trigger] mid[i]).link_fits() && mid[i].shape_ok() by {
                        if i != c_id {
                            assert(mid[i] == before[i]);
                        }
                    }
                }
                if !reqs.post_validate(c_id, self, sha) {
                    let _ = self.contents.update(c_id, old_c, sha);
                    proof {
                        if replaceable(sc, before[c_id as int]) {
                            assert(self.contents.contents() =~= before);
                        }
                    }
                    Err(SyncOutcome::RolledBack)
                } else {
                    let olds = old_pages(&old_c, sha);
                    let first_old = if olds.len() > 0 { olds[0].0 } else { 0 };
                    proof {
                        if olds@.len() > 0 {
                            assert(olds@.map_values(|d: Data| d@)[0] == olds@[0]@);
                        }
                        assert(first_old == first_view_hash(before[c_id as int]));
                    }
                    self.take_over_pages(c_id, &olds, &data, sha);
                    let first = read_u64_be(&data.1, 0);
                    let main = if first_old == first { None } else { Some(Data::empty(first)) };
                    proof {
                        let after = self.contents.contents();
                        let hs = shell_hashes(data.1@);
                        assert(first == hs[0]);
                        assert(olds@.map_values(|d: Data| d@) == content_views(before[c_id as int]));
                        assert(new_main_page(hs[0], first_view_hash(before[c_id as int]), main));
                        assert(forall|i: int| 0 <= i < before.len() && i != c_id ==> #[trigger] after[i] == mid[i]);
                        assert forall|i: int| 0 <= i < before.len() && i != c_id implies #[trigger] after[i] == before[i] by {
                            assert(after[i] == mid[i]);
                        }
                    }
                    Ok(main)
                }
            },
        }
    }
    /// The message that asks the swarm to remove page `d_id` of content
    /// `c_id`: the page is removed from a shell of the content (see
    /// `Datastore::shell`) to learn the hash after it; the message carries
    /// an empty page of hash 0.
    pub fn plan_remove_data<H: Fn(&[u8]) -> u64>(&self, c_id: ContentID, d_id: u16, sha: &H) -> (r: SyncMessage)
        requires
            hasher_total(*sha),
            self.contents.wf(),
            self.contents.contents_ok(),
            c_id < self.contents.contents().len(),
            page_removable(self.contents.contents()[c_id as int], d_id, *sha),
        ensures
            r.m_type == SyncMessageType::RemoveData(c_id, d_id),
            r.requirements.pre@.len() == 1,
            r.requirements.pre@[0].0 == c_id,
            self.contents.contents()[c_id as int].hashes_to(*sha, r.requirements.pre@[0].1),
            r.requirements.post@.len() == 1,
            r.requirements.post@[0].0 == c_id,
            exists|sh: Content, after: Content, p: Data| #[trigger] sh.shell_of(self.contents.contents()[c_id as int])
                && #[trigger] Content::page_removed(sh, d_id, *sha, after, Ok(p)) && after.hashes_to(*sha, r.requirements.post@[0].1),
            r.data@ == (0u64, Seq::<u8>::empty()),
    {
        let ghost orig = self.contents.contents()[c_id as int];
        let mut shell = match self.contents.shell(c_id) {
            Ok(c) => c,
            Err(_) => Content::Data(DataType::Data(0), 0, ContentTree::empty(0)),
        };
        let ghost sh = shell;
        proof {
            assert(orig.shape_ok());
            if let Content::Data(_, _, tree) = orig {
                if let Content::Data(_, _, t2) = sh {
                    lemma_mirror_shape(t2, tree);
                    crate::content_tree::lemma_mirror_hashes(t2, tree, *sha);
                    crate::content_tree::lemma_len_pages(tree);
                    crate::content_tree::lemma_len_pages(t2);
                    assert forall|k: int| 0 <= k < t2.pages().len() implies (#[trigger] t2.pages()[k]).stored == tree.pages()[k].stored
                        && t2.pages()[k].bytes.len() == 0 by {
                        assert(t2.leaves()[k] == crate::content_tree::blank(tree.leaves()[k]));
                    }
                }
            }
        }
        let pre_hash = shell.hash(sha);
        let res = shell.remove_data(d_id, sha);
        let ghost after = shell;
        let post_hash = shell.hash(sha);
        proof {
            if let Content::Data(_, _, tree) = orig {
                if let Content::Data(_, _, t2) = sh {
                    crate::content_tree::lemma_len_pages(t2);
                    assert(!(t2 is Empty));
                }
            }
            assert(res is Ok);
            assert(sh.shell_of(orig));
            assert(Content::page_removed(sh, d_id, *sha, after, Ok(res->Ok_0)));
        }
        let reqs = SyncRequirements { pre: vec![(c_id, pre_hash)], post: vec![(c_id, post_hash)] };
        let empty = Data::empty(0);
        assert(empty@ == (0u64, Seq::<u8>::empty())) by {
            assert(empty.1@ =~= Seq::<u8>::empty());
        }
        SyncMessage::new(SyncMessageType::RemoveData(c_id, d_id), reqs, empty)
    }
    /// The message that asks the swarm to replace page `d_id` of content
    /// `c_id` by `data`: an empty page of `data`'s hash is put in its place
    /// here to learn the hash after it, and the old page put back.
    pub fn plan_update_data<H: Fn(&[u8]) -> u64>(&mut self, c_id: ContentID, d_id: u16, data: Data, sha: &H) -> (r: SyncMessage)
        requires
            hasher_total(*sha),
            old(self).contents.wf(),
            old(self).contents.contents_ok(),
            c_id < old(self).contents.contents().len(),
            forall|e: Data| e.0 == data.0 && e.1@.len() == 0 ==> #[trigger] updatable(old(self).contents.contents()[c_id as int], d_id, e, *sha),
            match old(self).contents.contents()[c_id as int] {
                Content::Link(..) => d_id == 1,
                Content::Data(_, _, tree) => d_id < tree.leaves().len() && tree.leaves()[d_id as int].stored,
            },
        ensures
            final(self).contents.wf(),
            final(self).contents.contents_ok(),
            final(self).change_reg == old(self).change_reg,
            final(self).partial == old(self).partial,
            r.m_type == SyncMessageType::UpdateData(c_id, d_id),
            r.requirements.pre@.len() == 1,
            r.requirements.pre@[0].0 == c_id,
            old(self).contents.contents()[c_id as int].hashes_to(*sha, r.requirements.pre@[0].1),
            r.requirements.post@.len() == 1,
            r.requirements.post@[0].0 == c_id,
            r.data@ == data@,
            exists|e: Data, mid: Seq<Content>, p: Data, q: Result<Data, AppError>| e.0 == data.0 && e.1@.len() == 0
                && #[trigger] data_replaced(old(self).contents.contents(), c_id, d_id, e, *sha, mid, Ok(p))
                && mid[c_id as int].hashes_to(*sha, r.requirements.post@[0].1)
                && #[trigger] data_replaced(mid, c_id, d_id, p, *sha, final(self).contents.contents(), q),
    {
        let ghost before = self.contents.contents();
        let pre_hash = match self.contents.get_root_content_typed_hash(c_id, sha) {
            Ok((_t, h)) => h,
            Err(_) => 0,
        };
        let shell = Data::empty(data.get_hash());
        proof {
            assert(updatable(before[c_id as int], d_id, shell, *sha));
        }
        let res = self.contents.update_data((c_id, d_id), shell, sha);
        let ghost mid = self.contents.contents();
        proof {
            lemma_replaced_fits(before[c_id as int], d_id, shell, *sha, mid[c_id as int], res);
            assert forall|i: int| 0 <= i < mid.len() implies (#[trigger] mid[i]).link_fits() && mid[i].shape_ok() by {
                if i != c_id {
                    assert(mid[i] == before[i]);
                }
            }
            assert(res is Ok);
        }
        let post_hash = match self.contents.get_root_content_typed_hash(c_id, sha) {
            Ok((_t, h)) => h,
            Err(_) => 0,
        };
        let prev = match res {
            Ok(p) => p,
            Err(_) => Data::empty(0),
        };
        let ghost p = prev;
        let back = self.contents.update_data((c_id, d_id), prev, sha);
        proof {
            let fin = self.contents.contents();
            assert(data_replaced(before, c_id, d_id, shell, *sha, mid, Ok(p)));
            assert(data_replaced(mid, c_id, d_id, p, *sha, fin, back));
            lemma_restored_fits(before[c_id as int], d_id, shell, *sha, mid[c_id as int], p, fin[c_id as int], back);
            assert forall|i: int| 0 <= i < fin.len() implies (#[trigger] fin[i]).link_fits() && fin[i].shape_ok() by {
                if i != c_id {
                    assert(fin[i] == mid[i]);
                }
            }
        }
        let reqs = SyncRequirements { pre: vec![(c_id, pre_hash)], post: vec![(c_id, post_hash)] };
        SyncMessage::new(SyncMessageType::UpdateData(c_id, d_id), reqs, data)
    }
    /// The messages that ask the swarm to append to content `c_id` empty
    /// pages of the hashes written in `hash_data`, and then to fill them
    /// with the pages `data_vec`: the pages are appended to a shell of the
    /// content (see `Datastore::shell`) to learn the hash after them, which
    /// every message but the first requires before and after. No content
    /// `c_id`, no messages.
    pub fn plan_append_shelled_datas<H: Fn(&[u8]) -> u64>(
        &self,
        c_id: ContentID,
        hash_data: Data,
        data_vec: Vec<Data>,
        sha: &H,
    ) -> (r: Vec<SyncMessage>)
        requires
            hasher_total(*sha),
            self.contents.wf(),
            self.contents.contents_ok(),
            forall|i: int| 0 <= i < shell_hashes(hash_data.1@).len() ==> #[trigger] shell_hashes(hash_data.1@)[i] != 0,
            c_id < self.contents.contents().len() ==> {
                let c = self.contents.contents()[c_id as int];
                &&& c matches Content::Data(_, _, t) ==> t.hashes_ok(*sha)
                &&& c.spec_len() + shell_hashes(hash_data.1@).len() <= u16::MAX
                &&& c.spec_len() + data_vec@.len() <= u16::MAX
            },
        ensures
            c_id >= self.contents.contents().len() ==> r@.len() == 0,
            c_id < self.contents.contents().len() ==> {
                let c = self.contents.contents()[c_id as int];
                let h1 = r@[0].requirements.post@[0].1;
                &&& r@.len() == data_vec@.len() + 1
                &&& r@[0].m_type == SyncMessageType::AppendShelledDatas(c_id)
                &&& r@[0].requirements.pre@.len() == 1
                &&& r@[0].requirements.pre@[0].0 == c_id
                &&& c.hashes_to(*sha, r@[0].requirements.pre@[0].1)
                &&& r@[0].requirements.post@.len() == 1
                &&& r@[0].requirements.post@[0].0 == c_id
                &&& r@[0].data@ == hash_data@
                &&& exists|sc: Content, sc2: Content| #[trigger] sc.shell_of(c) && #[trigger] shells_pushed(
                    sc,
                    shell_hashes(hash_data.1@),
                    *sha,
                    sc2,
                ) && sc2.hashes_to(*sha, h1)
                &&& forall|i: int| 0 <= i < data_vec@.len() ==> {
                    &&& (#[trigger] r@[i + 1]).m_type == SyncMessageType::UpdateData(c_id, (c.spec_len() + i) as u16)
                    &&& r@[i + 1].requirements.pre@ == seq![(c_id, h1)]
                    &&& r@[i + 1].requirements.post@ == seq![(c_id, h1)]
                    &&& r@[i + 1].data@ == data_vec@[i]@
                }
            },
    {
        let mut out: Vec<SyncMessage> = Vec::new();
        let pre_hash = match self.content_root_hash(c_id, sha) {
            Ok((_t, h)) => h,
            Err(_) => {
                return out;
            },
        };
        let ghost orig = self.contents.contents()[c_id as int];
        let mut c = match self.contents.shell(c_id) {
            Ok(c) => c,
            Err(_) => Content::Data(DataType::Data(0), 0, ContentTree::empty(0)),
        };
        let ghost sc = c;
        proof {
            assert(orig.link_fits() && orig.shape_ok());
            lemma_shell_fits(sc, orig);
            if let Content::Data(_, _, tree) = orig {
                if let Content::Data(_, _, t2) = sc {
                    lemma_mirror_shape(t2, tree);
                    crate::content_tree::lemma_mirror_hashes(t2, tree, *sha);
                    crate::content_tree::lemma_len_pages(t2);
                    crate::content_tree::lemma_len_pages(tree);
                    assert(shells(shell_hashes(hash_data.1@).take(0)) =~= Seq::<(u64, Seq<u8>)>::empty());
                    assert(page_views(t2) + shells(shell_hashes(hash_data.1@).take(0)) =~= page_views(t2));
                }
            }
        }
        let next: u16 = c.len();
        let ghost hs = shell_hashes(hash_data.1@);
        let n: usize = hash_data.1.len() / 8;
        let mut i: usize = 0;
        while i < n
            invariant
                hasher_total(*sha),
                hs == shell_hashes(hash_data.1@),
                n == hs.len(),
                8 * n <= hash_data.1@.len(),
                i <= n,
                forall|k: int| 0 <= k < hs.len() ==> #[trigger] hs[k] != 0,
                c.link_fits(),
                sc.spec_len() + hs.len() <= u16::MAX,
                sc matches Content::Data(_, _, t0) ==> t0.wf(*sha) && t0.spec_len() == t0.pages().len(),
                match sc {
                    Content::Link(..) => c == sc,
                    Content::Data(dt, mem, t0) => data_views(c, *sha, dt, mem, page_views(t0) + shells(hs.take(i as int)))
                        && c->Data_2.pages().len() == t0.pages().len() + i,
                },
            decreases n - i,
        {
            let h = read_u64_be(&hash_data.1, 8 * i);
            assert(h == hs[i as int]);
            let page = Data::empty(h);
            assert(page@ == (h, Seq::<u8>::empty())) by {
                assert(page.1@ =~= Seq::<u8>::empty());
            }
            let ghost cur = c;
            proof {
                if let Content::Data(_, _, t) = cur {
                    lemma_shell_appended_keeps(t, h);
                    crate::content_tree::lemma_len_pages(t);
                }
            }
            let _ = c.push_data(page, sha);
            let ghost nxt = c;
            proof {
                if let Content::Data(_, _, t0) = sc {
                    if let Content::Data(_, _, t) = cur {
                        if let Content::Data(_, _, t2) = nxt {
                            assert(!t.is_full());
                            lemma_shell_appended(t, h, t2);
                            assert(shells(hs.take(i + 1)) =~= shells(hs.take(i as int)).push((h, Seq::<u8>::empty())));
                            assert(page_views(t0) + shells(hs.take(i + 1)) =~= (page_views(t0) + shells(hs.take(i as int))).push((h, Seq::<u8>::empty())));
                        }
                    }
                }
            }
            i += 1;
        }
        proof {
            assert(hs.take(n as int) =~= hs);
            assert(sc.shell_of(orig));
            assert(shells_pushed(sc, hs, *sha, c));
            assert(sc.spec_len() == orig.spec_len());
        }
        let post_hash = c.hash(sha);
        let first = SyncMessage::new(
            SyncMessageType::AppendShelledDatas(c_id),
            SyncRequirements { pre: vec![(c_id, pre_hash)], post: vec![(c_id, post_hash)] },
            hash_data,
        );
        out.push(first);
        let ghost dv = data_vec@;
        let mut data_vec = data_vec;
        let m = data_vec.len();
        let mut j: usize = 0;
        while j < m
            invariant
                m == dv.len(),
                data_vec@ == dv.skip(j as int),
                j <= m,
                next as int + m <= u16::MAX,
                out@.len() == j + 1,
                out@[0].requirements.post@ == seq![(c_id, post_hash)],
                out@[0].m_type == SyncMessageType::AppendShelledDatas(c_id),
                out@[0].requirements.pre@ == seq![(c_id, pre_hash)],
                out@[0].data@ == hash_data@,
                forall|k: int| 0 <= k < j ==> {
                    &&& (#[trigger] out@[k + 1]).m_type == SyncMessageType::UpdateData(c_id, (next + k) as u16)
                    &&& out@[k + 1].requirements.pre@ == seq![(c_id, post_hash)]
                    &&& out@[k + 1].requirements.post@ == seq![(c_id, post_hash)]
                    &&& out@[k + 1].data@ == dv[k]@
                },
            decreases m - j,
        {
            let d = data_vec.remove(0);
            proof {
                assert(d == dv[j as int]);
                assert(data_vec@ =~= dv.skip(j + 1));
            }
            let msg = SyncMessage::new(
                SyncMessageType::UpdateData(c_id, next + j as u16),
                SyncRequirements { pre: vec![(c_id, post_hash)], post: vec![(c_id, post_hash)] },
                d,
            );
            let ghost before = out@;
            out.push(msg);
            proof {
                assert forall|k: int| 0 <= k < j + 1 implies {
                    &&& (#[trigger] out@[k + 1]).m_type == SyncMessageType::UpdateData(c_id, (next + k) as u16)
                    &&& out@[k + 1].requirements.pre@ == seq![(c_id, post_hash)]
                    &&& out@[k + 1].requirements.post@ == seq![(c_id, post_hash)]
                    &&& out@[k + 1].data@ == dv[k]@
                } by {
                    if k < j {
                        assert(out@[k + 1] == before[k + 1]);
                    }
                }
            }
            j += 1;
        }
        out
    }
}

} // verus!
