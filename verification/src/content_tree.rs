//! A content tree: the pages of one content held as the leaves of a binary
//! tree whose inner nodes carry the hash of their two children's hashes.

use vstd::prelude::*;
use crate::data::Data;
use crate::error::{AppError, SubtreeError};
use crate::hashing::{double_hash, hasher_total, hashes_to, is_pair_hash};

verus! {

/// A tree of pages: no page (`Empty(0)`), a single page known only by its
/// hash (`Empty(h)`), a single stored page (`Filled`), or an inner node.
#[derive(Debug)]
pub enum ContentTree {
    Empty(u64),
    Filled(Data),
    Hashed(Box<Subtree>),
}

/// An inner node: the number of pages below it, its hash and its children.
#[derive(Debug)]
pub struct Subtree {
    pub data_count: u16,
    pub hash: u64,
    pub left: ContentTree,
    pub right: ContentTree,
}

/// A page as the tree holds it: stored with its bytes, or a placeholder
/// known only by its hash.
pub struct Page {
    pub stored: bool,
    pub hash: u64,
    pub bytes: Seq<u8>,
}

/// The page that stands for a stored page `d`.
pub open spec fn stored_page(d: (u64, Seq<u8>)) -> Page {
    Page { stored: true, hash: d.0, bytes: d.1 }
}

/// The placeholder page of hash `h`.
pub open spec fn placeholder(h: u64) -> Page {
    Page { stored: false, hash: h, bytes: Seq::empty() }
}

/// The value of a page as it is read: its hash and its bytes.
pub open spec fn page_data(p: Page) -> (u64, Seq<u8>) {
    (p.hash, p.bytes)
}

impl ContentTree {
    /// `Empty(0)`: the tree that holds no page.
    pub open spec fn is_void(self) -> bool {
        self matches ContentTree::Empty(h) && h == 0
    }

    /// The pages at the leaves, left to right.
    pub open spec fn leaves(self) -> Seq<Page>
        decreases self,
    {
        match self {
            ContentTree::Empty(h) => seq![placeholder(h)],
            ContentTree::Filled(d) => seq![stored_page(d@)],
            ContentTree::Hashed(st) => st.left.leaves() + st.right.leaves(),
        }
    }

    /// The pages of the tree: none for `Empty(0)`, the leaves otherwise.
    pub open spec fn pages(self) -> Seq<Page> {
        if self.is_void() {
            Seq::empty()
        } else {
            self.leaves()
        }
    }

    /// The hash at the root.
    pub open spec fn root_hash(self) -> u64 {
        match self {
            ContentTree::Empty(h) => h,
            ContentTree::Filled(d) => d.0,
            ContentTree::Hashed(st) => st.hash,
        }
    }

    /// Every inner node counts the pages below it and has children that are
    /// not `Empty(0)`.
    pub open spec fn wf_shape(self) -> bool
        decreases self,
    {
        match self {
            ContentTree::Hashed(st) => {
                &&& st.left.wf_shape()
                &&& st.right.wf_shape()
                &&& !st.left.is_void()
                &&& !st.right.is_void()
                &&& st.data_count == st.left.leaves().len() + st.right.leaves().len()
            },
            _ => true,
        }
    }

    /// Every inner node's hash is the hash of its children's hashes.
    pub open spec fn hashes_ok<H: Fn(&[u8]) -> u64>(self, sha: H) -> bool
        decreases self,
    {
        match self {
            ContentTree::Hashed(st) => {
                &&& st.left.hashes_ok(sha)
                &&& st.right.hashes_ok(sha)
                &&& is_pair_hash(sha, st.left.root_hash(), st.right.root_hash(), st.hash)
            },
            _ => true,
        }
    }

    /// Well formed: shape and hashes.
    pub open spec fn wf<H: Fn(&[u8]) -> u64>(self, sha: H) -> bool {
        self.wf_shape() && self.hashes_ok(sha)
    }

    /// An inner node that holds `u16::MAX` pages: nothing more can be appended.
    pub open spec fn is_full(self) -> bool {
        self is Hashed && self.spec_len() == u16::MAX
    }

    /// An appended page reaches an existing leaf (and is paired with it)
    /// rather than a new node above a power-of-two subtree.
    pub open spec fn lands_on_leaf(self) -> bool
        decreases self,
    {
        match self {
            ContentTree::Hashed(st) => if st.data_count > 1 && st.data_count & ((st.data_count
                - 1) as u16) == 0 {
                false
            } else {
                st.right.lands_on_leaf()
            },
            _ => true,
        }
    }

    /// The pages after appending page `d`. A page with bytes that reaches a
    /// trailing placeholder takes its place; an empty page is stored when it
    /// is paired with a stored leaf and a placeholder otherwise; an empty
    /// page of hash 0 appended to no page leaves no page.
    pub open spec fn pages_after_append(self, d: (u64, Seq<u8>)) -> Seq<Page> {
        let p = self.pages();
        let empty = d.1.len() == 0;
        if p.len() == 0 {
            if empty {
                if d.0 == 0 {
                    Seq::empty()
                } else {
                    seq![placeholder(d.0)]
                }
            } else {
                seq![stored_page(d)]
            }
        } else if self.lands_on_leaf() {
            if p.last().stored {
                p.push(stored_page(d))
            } else if empty {
                p.push(placeholder(d.0))
            } else {
                p.drop_last().push(stored_page(d))
            }
        } else {
            p.push(if empty { placeholder(d.0) } else { stored_page(d) })
        }
    }

    /// Appending `d` keeps the tree well formed: unless a page with bytes
    /// replaces a trailing placeholder below an inner node, or an empty page
    /// of hash 0 lands as a placeholder behind other pages.
    pub open spec fn append_keeps_shape(self, d: (u64, Seq<u8>)) -> bool {
        let p = self.pages();
        let empty = d.1.len() == 0;
        &&& !(self is Hashed && self.lands_on_leaf() && !p.last().stored && !empty)
        &&& !(p.len() >= 1 && empty && d.0 == 0 && !(self.lands_on_leaf() && p.last().stored))
    }

    /// Same nodes with the same hashes and counts; pages may differ in bytes.
    pub open spec fn mirrors(self, other: ContentTree) -> bool
        decreases self,
    {
        match self {
            ContentTree::Empty(h) => other == ContentTree::Empty(h),
            ContentTree::Filled(d) => other matches ContentTree::Filled(e) && e.0 == d.0,
            ContentTree::Hashed(a) => other matches ContentTree::Hashed(b) && a.data_count
                == b.data_count && a.hash == b.hash && a.left.mirrors(b.left) && a.right.mirrors(
                b.right,
            ),
        }
    }

    /// The number of pages as `len` reports it.
    pub open spec fn spec_len(self) -> nat {
        match self {
            ContentTree::Empty(h) => if h == 0 { 0 } else { 1 },
            ContentTree::Filled(_) => 1,
            ContentTree::Hashed(st) => st.data_count as nat,
        }
    }
}

impl ContentTree {
    /// What `replace` of page `idx` by `new_data` does: `before` becomes `after` and `r` is returned.
    pub open spec fn replaced<H: Fn(&[u8]) -> u64>(before: ContentTree, idx: u16, new_data: Data, sha: H, after: ContentTree, r: Result<Data, AppError>) -> bool {
        &&& (after.wf(sha))
        &&& (idx >= before.leaves().len() ==> r == Err::<Data, AppError>(AppError::IndexingError)
                && after == before)
        &&& (idx < before.leaves().len() && before.leaves()[idx as int].stored ==> (r matches Ok(d)
                && d@ == page_data(before.leaves()[idx as int]) && after.leaves()
                == before.leaves().update(idx as int, stored_page(new_data@))))
        &&& (idx < before.leaves().len() && !before.leaves()[idx as int].stored ==> match r {
                Ok(d) => d@ == (0u64, Seq::<u8>::empty()) && hashes_to(
                    sha,
                    new_data@.1,
                    before.leaves()[idx as int].hash,
                ) && after.leaves() == before.leaves().update(
                    idx as int,
                    stored_page((before.leaves()[idx as int].hash, new_data@.1)),
                ),
                Err(e) => e == AppError::HashMismatch && after == before && exists|g: u64| g != before.leaves()[idx as int].hash
                    && #[trigger] hashes_to(sha, new_data@.1, g),
            })
        &&& (!before.is_void() ==> !after.is_void())
    }

    /// What `insert` of page `data` at `idx` does: `before` becomes `after` and `r` is returned.
    pub open spec fn inserted<H: Fn(&[u8]) -> u64>(before: ContentTree, idx: u16, data: Data, sha: H, after: ContentTree, r: Result<u64, AppError>) -> bool {
        &&& (idx > 0 && idx >= before.spec_len() ==> r == Err::<u64, AppError>(AppError::IndexingError)
                && after == before)
        &&& (!(idx > 0 && idx >= before.spec_len()) ==> match before {
                ContentTree::Empty(_) => r == Ok::<u64, AppError>(data.0) && after == ContentTree::Filled(data),
                ContentTree::Filled(od) => {
                    &&& r == Ok::<u64, AppError>(after.root_hash())
                    &&& after.wf(sha)
                    &&& after.leaves().len() == 2
                    &&& after.leaves()[0] == stored_page(data@)
                    &&& after.leaves()[1].stored
                    &&& after.leaves()[1].bytes == od.1@
                    &&& hashes_to(sha, od.1@, after.leaves()[1].hash)
                },
                ContentTree::Hashed(st) => {
                    let lp = st.left.leaves();
                    let rot = insert_rotation(lp, idx as int, stored_page(data@));
                    let carried = if idx < lp.len() { page_data(rot.1) } else { data@ };
                    &&& after matches ContentTree::Hashed(fst) && r matches Ok(h) && is_pair_hash(
                        sha,
                        fst.left.root_hash(),
                        fst.right.root_hash(),
                        h,
                    ) && fst.data_count == st.data_count + 1
                    &&& after.leaves() == (if idx < lp.len() { rot.0 } else { lp }) + st.right.pages_after_append(carried)
                    &&& after.hashes_ok(sha)
                    &&& st.right.append_keeps_shape(carried) && st.right.pages_after_append(carried).len()
                        == st.right.pages().len() + 1 ==> after.wf_shape()
                },
            })
    }

    /// What `remove_data` of page `idx` does: `before` becomes `after` and `r` is returned.
    pub open spec fn removed<H: Fn(&[u8]) -> u64>(before: ContentTree, idx: u16, sha: H, after: ContentTree, r: Result<Data, AppError>) -> bool {
        &&& (after.wf(sha))
        &&& (before is Empty ==> r == Err::<Data, AppError>(AppError::ContentEmpty) && after.is_void())
        &&& (!(before is Empty) && idx >= before.pages().len() ==> r == Err::<Data, AppError>(
                AppError::IndexingError) && after == before)
        &&& (!(before is Empty) && idx < before.pages().len() ==> (r matches Ok(d) && d@ == page_data(
                before.pages()[idx as int]) && after.pages() == pages_after_remove(before.pages(), idx as int)))
    }
}

/// In a well-shaped tree the reported length is the number of pages, and a
/// tree that is not `Empty(0)` has as pages its leaves, at least one.
pub proof fn lemma_len_pages(t: ContentTree)
    requires
        t.wf_shape(),
    ensures
        t.spec_len() == t.pages().len(),
        t.leaves().len() >= 1,
        !t.is_void() ==> t.pages() == t.leaves(),
        t.pages().len() <= u16::MAX,
    decreases t,
{
    if let ContentTree::Hashed(st) = t {
        lemma_len_pages(st.left);
        lemma_len_pages(st.right);
    }
}

/// Trees with the same nodes and hashes have their hashes right together.
pub proof fn lemma_mirror_hashes<H: Fn(&[u8]) -> u64>(a: ContentTree, b: ContentTree, sha: H)
    requires
        a.mirrors(b),
    ensures
        a.hashes_ok(sha) == b.hashes_ok(sha),
        a.root_hash() == b.root_hash(),
    decreases a,
{
    if let ContentTree::Hashed(x) = a {
        if let ContentTree::Hashed(y) = b {
            lemma_mirror_hashes(x.left, y.left, sha);
            lemma_mirror_hashes(x.right, y.right, sha);
        }
    }
}

impl Subtree {
    /// Another page can be appended below this node.
    pub fn can_grow(&self) -> (r: bool)
        ensures
            r == (self.data_count < u16::MAX),
    {
        self.data_count < u16::MAX
    }

    /// The node holds a power of two pages, at least two: an appended page
    /// goes into a new node above it.
    pub fn should_extend(&self) -> (r: bool)
        ensures
            r == (self.data_count > 1 && self.data_count & ((self.data_count - 1) as u16) == 0),
    {
        self.data_count > 1 && (self.data_count & (self.data_count - 1)) == 0
    }

    pub fn len(&self) -> (r: u16)
        ensures
            r == self.data_count,
    {
        self.data_count
    }

    pub fn is_empty(&self) -> (r: bool)
        ensures
            r == (self.data_count == 0),
    {
        self.data_count == 0
    }

    /// Recomputes the node's hash from its children's hashes.
    pub fn hash<H: Fn(&[u8]) -> u64>(&mut self, sha: &H) -> (r: u64)
        requires
            hasher_total(*sha),
        ensures
            final(self).data_count == old(self).data_count,
            final(self).left == old(self).left,
            final(self).right == old(self).right,
            final(self).hash == r,
            is_pair_hash(*sha, old(self).left.root_hash(), old(self).right.root_hash(), r),
    {
        let l = self.left.hash();
        let rh = self.right.hash();
        self.hash = double_hash(l, rh, sha);
        self.hash
    }
}

impl ContentTree {
    pub fn new(data: Data) -> (r: Self)
        ensures
            r == ContentTree::Filled(data),
    {
        ContentTree::Filled(data)
    }

    pub fn empty(hash: u64) -> (r: Self)
        ensures
            r == ContentTree::Empty(hash),
    {
        ContentTree::Empty(hash)
    }

    /// The tree holds no page (it is `Empty(0)`).
    pub fn is_empty(&self) -> (r: bool)
        ensures
            r == self.is_void(),
    {
        match self {
            ContentTree::Empty(h) => *h == 0,
            _ => false,
        }
    }

    pub fn len(&self) -> (r: u16)
        ensures
            r == self.spec_len(),
            self.wf_shape() ==> r == self.pages().len(),
    {
        proof {
            if self.wf_shape() {
                lemma_len_pages(*self);
            }
        }
        match self {
            ContentTree::Empty(h) => if *h == 0 { 0 } else { 1 },
            ContentTree::Filled(_d) => 1,
            ContentTree::Hashed(sub_tree) => sub_tree.data_count,
        }
    }

    /// The hash at the root.
    pub fn hash(&self) -> (r: u64)
        ensures
            r == self.root_hash(),
    {
        match self {
            ContentTree::Empty(hash) => *hash,
            ContentTree::Filled(data) => data.get_hash(),
            ContentTree::Hashed(sub_tree) => sub_tree.hash,
        }
    }
}


impl ContentTree {
    /// Appends a page at the end (see `pages_after_append`) and returns the
    /// new root hash; a full inner node (`u16::MAX` pages) refuses the page.
    pub fn append<H: Fn(&[u8]) -> u64>(&mut self, data: Data, sha: &H) -> (r: Result<u64, AppError>)
        requires
            old(self).wf_shape(),
            old(self).hashes_ok(*sha),
            hasher_total(*sha),
        ensures
            old(self).is_full() ==> r == Err::<u64, AppError>(
                AppError::ContentFull,
            ) && *final(self) == *old(self),
            !old(self).is_full() ==> {
                &&& r == Ok::<u64, AppError>(final(self).root_hash())
                &&& final(self).pages() == old(self).pages_after_append(data@)
                &&& final(self).hashes_ok(*sha)
                &&& old(self).append_keeps_shape(data@) ==> final(self).wf_shape()
                &&& !old(self).is_void() ==> !final(self).is_void()
            },
        decreases *old(self),
    {
        let hash = data.get_hash();
        let mut cur = ContentTree::Empty(0);
        std::mem::swap(self, &mut cur);
        proof {
            lemma_len_pages(cur);
        }
        match cur {
            ContentTree::Filled(existing) => {
                let first_hash = existing.get_hash();
                let d_hash = double_hash(first_hash, hash, sha);
                *self = ContentTree::Hashed(
                    Box::new(
                        Subtree {
                            data_count: 2,
                            hash: d_hash,
                            left: ContentTree::Filled(existing),
                            right: ContentTree::Filled(data),
                        },
                    ),
                );
                proof {
                    let ghost l = ContentTree::Filled(existing);
                    let ghost r = ContentTree::Filled(data);
                    assert(l.leaves() == seq![stored_page(existing@)]);
                    assert(r.leaves() == seq![stored_page(data@)]);
                    assert(r.wf_shape() && r.hashes_ok(*sha));
                    assert(l.wf_shape() && l.hashes_ok(*sha));
                    assert(cur.pages() == seq![stored_page(existing@)]);
                    assert(self.leaves() =~= cur.pages().push(stored_page(data@)));
                }
                Ok(d_hash)
            },
            ContentTree::Hashed(boxed) => {
                let mut st = *boxed;
                proof {
                    lemma_len_pages(st.left);
                    lemma_len_pages(st.right);
                }
                if st.can_grow() {
                    if st.should_extend() {
                        let data_count = st.len() + 1;
                        let d_hash = double_hash(st.hash, hash, sha);
                        let right = if data.is_empty() {
                            ContentTree::Empty(data.get_hash())
                        } else {
                            ContentTree::Filled(data)
                        };
                        let ghost rv = right;
                        *self = ContentTree::Hashed(
                            Box::new(
                                Subtree {
                                    data_count,
                                    hash: d_hash,
                                    left: ContentTree::Hashed(Box::new(st)),
                                    right,
                                },
                            ),
                        );
                        proof {
                            assert(rv.wf_shape() && rv.hashes_ok(*sha));
                            assert(self.leaves() =~= cur.pages() + rv.leaves());
                        }
                        Ok(d_hash)
                    } else {
                        proof {
                            let ghost rt = st.right;
                            assert(cur.pages() == st.left.leaves() + rt.pages());
                            assert(cur.lands_on_leaf() == rt.lands_on_leaf());
                            assert(cur.pages().last() == rt.pages().last());
                            assert(cur.pages().drop_last() =~= st.left.leaves() + rt.pages().drop_last());
                            assert(cur.pages().push(stored_page(data@)) =~= st.left.leaves() + rt.pages().push(stored_page(data@)));
                            assert(cur.pages().push(placeholder(data@.0)) =~= st.left.leaves() + rt.pages().push(placeholder(data@.0)));
                            assert(cur.pages().drop_last().push(stored_page(data@)) =~= st.left.leaves() + rt.pages().drop_last().push(stored_page(data@)));
                        }
                        st.data_count = st.data_count + 1;
                        let res = st.right.append(data, sha);
                        match res {
                            Ok(_h) => {
                                let h = st.hash(sha);
                                *self = ContentTree::Hashed(Box::new(st));
                                Ok(h)
                            },
                            Err(e) => {
                                *self = ContentTree::Hashed(Box::new(st));
                                Err(e)
                            },
                        }
                    }
                } else {
                    *self = ContentTree::Hashed(Box::new(st));
                    Err(AppError::ContentFull)
                }
            },
            ContentTree::Empty(h) => {
                if data.is_empty() {
                    if h == 0 {
                        let new_hash = data.get_hash();
                        *self = ContentTree::Empty(new_hash);
                        Ok(new_hash)
                    } else {
                        let dh = double_hash(h, data.get_hash(), sha);
                        *self = ContentTree::Hashed(
                            Box::new(
                                Subtree {
                                    data_count: 2,
                                    hash: dh,
                                    left: ContentTree::Empty(h),
                                    right: ContentTree::Empty(data.get_hash()),
                                },
                            ),
                        );
                        proof {
                            let ghost r = ContentTree::Empty(data@.0);
                            assert(r.leaves() == seq![placeholder(data@.0)]);
                            assert(r.wf_shape() && r.hashes_ok(*sha));
                            assert(ContentTree::Empty(h).leaves() == seq![placeholder(h)]);
                            assert(self.leaves() =~= cur.pages().push(placeholder(data@.0)));
                        }
                        Ok(dh)
                    }
                } else {
                    *self = ContentTree::Filled(data);
                    proof {
                        assert(self.pages() =~= cur.pages_after_append(data@));
                    }
                    Ok(hash)
                }
            },
        }
    }
}


impl ContentTree {
    /// The hash of page `data_id`.
    pub fn get_data_hash(&self, data_id: u16) -> (r: Result<u64, AppError>)
        requires
            self.wf_shape(),
        ensures
            data_id < self.leaves().len() ==> r == Ok::<u64, AppError>(self.leaves()[data_id as int].hash),
            data_id >= self.leaves().len() ==> r == Err::<u64, AppError>(AppError::IndexingError),
        decreases self,
    {
        match self {
            ContentTree::Empty(hash) => {
                if data_id == 0 {
                    Ok(*hash)
                } else {
                    Err(AppError::IndexingError)
                }
            },
            ContentTree::Filled(data) => {
                if data_id == 0 {
                    Ok(data.get_hash())
                } else {
                    Err(AppError::IndexingError)
                }
            },
            ContentTree::Hashed(sub_tree) => {
                proof {
                    lemma_len_pages(sub_tree.left);
                    lemma_len_pages(sub_tree.right);
                }
                if data_id >= sub_tree.data_count {
                    Err(AppError::IndexingError)
                } else {
                    let left_count = sub_tree.left.len();
                    if data_id >= left_count {
                        sub_tree.right.get_data_hash(data_id - left_count)
                    } else {
                        sub_tree.left.get_data_hash(data_id)
                    }
                }
            },
        }
    }

    /// Page `idx`: a stored page as stored, a placeholder as an empty page of
    /// its hash.
    pub fn read(&self, idx: u16) -> (r: Result<Data, AppError>)
        requires
            self.wf_shape(),
        ensures
            idx < self.leaves().len() ==> (r matches Ok(d) && d@ == page_data(self.leaves()[idx as int])),
            idx >= self.leaves().len() ==> r == Err::<Data, AppError>(AppError::IndexingError),
        decreases self,
    {
        match self {
            ContentTree::Filled(data) => {
                if idx == 0 {
                    Ok(data.clone())
                } else {
                    Err(AppError::IndexingError)
                }
            },
            ContentTree::Hashed(sub_tree) => {
                proof {
                    lemma_len_pages(sub_tree.left);
                    lemma_len_pages(sub_tree.right);
                }
                if idx >= sub_tree.data_count {
                    Err(AppError::IndexingError)
                } else {
                    let left_count = sub_tree.left.len();
                    if idx >= left_count {
                        sub_tree.right.read(idx - left_count)
                    } else {
                        sub_tree.left.read(idx)
                    }
                }
            },
            ContentTree::Empty(h) => {
                if idx == 0 {
                    Ok(Data::empty(*h))
                } else {
                    Err(AppError::IndexingError)
                }
            },
        }
    }

    /// Replaces page `idx` with `new_data`. A stored page is replaced and
    /// returned; a placeholder is filled only when the hash of `new_data`'s
    /// bytes equals its hash, and then an empty page of hash 0 is returned.
    pub fn replace<H: Fn(&[u8]) -> u64>(&mut self, idx: u16, new_data: Data, sha: &H) -> (r:
        Result<Data, AppError>)
        requires
            old(self).wf(*sha),
            hasher_total(*sha),
        ensures
            final(self).wf(*sha),
            idx >= old(self).leaves().len() ==> r == Err::<Data, AppError>(AppError::IndexingError)
                && *final(self) == *old(self),
            idx < old(self).leaves().len() && old(self).leaves()[idx as int].stored ==> (r matches Ok(d)
                && d@ == page_data(old(self).leaves()[idx as int]) && final(self).leaves()
                == old(self).leaves().update(idx as int, stored_page(new_data@))),
            idx < old(self).leaves().len() && !old(self).leaves()[idx as int].stored ==> match r {
                Ok(d) => d@ == (0u64, Seq::<u8>::empty()) && hashes_to(
                    *sha,
                    new_data@.1,
                    old(self).leaves()[idx as int].hash,
                ) && final(self).leaves() == old(self).leaves().update(
                    idx as int,
                    stored_page((old(self).leaves()[idx as int].hash, new_data@.1)),
                ),
                Err(e) => e == AppError::HashMismatch && *final(self) == *old(self) && exists|g: u64| g
                    != old(self).leaves()[idx as int].hash && #[trigger] hashes_to(*sha, new_data@.1, g),
            },
            !old(self).is_void() ==> !final(self).is_void(),
        decreases *old(self),
    {
        let mut new_data = new_data;
        let mut cur = ContentTree::Empty(0);
        std::mem::swap(self, &mut cur);
        match cur {
            ContentTree::Filled(data) => {
                if idx == 0 {
                    *self = ContentTree::Filled(new_data);
                    Ok(data)
                } else {
                    *self = ContentTree::Filled(data);
                    Err(AppError::IndexingError)
                }
            },
            ContentTree::Hashed(boxed) => {
                let mut st = *boxed;
                proof {
                    lemma_len_pages(st.left);
                    lemma_len_pages(st.right);
                }
                if idx >= st.data_count {
                    *self = ContentTree::Hashed(Box::new(st));
                    return Err(AppError::IndexingError);
                }
                let left_count = st.left.len();
                let ghost l0 = st.left;
                let ghost r0 = st.right;
                let result = if idx >= left_count {
                    st.right.replace(idx - left_count, new_data, sha)
                } else {
                    st.left.replace(idx, new_data, sha)
                };
                match result {
                    Ok(data) => {
                        st.hash(sha);
                        *self = ContentTree::Hashed(Box::new(st));
                        proof {
                            if idx >= left_count {
                                assert(self.leaves() =~= l0.leaves() + st.right.leaves());
                                assert(cur.leaves().update(idx as int, stored_page(new_data@)) =~= l0.leaves() + r0.leaves().update(idx - left_count, stored_page(new_data@)));
                                assert(cur.leaves().update(idx as int, stored_page((cur.leaves()[idx as int].hash, new_data@.1))) =~= l0.leaves() + r0.leaves().update(idx - left_count, stored_page((r0.leaves()[idx - left_count].hash, new_data@.1))));
                            } else {
                                assert(cur.leaves().update(idx as int, stored_page(new_data@)) =~= l0.leaves().update(idx as int, stored_page(new_data@)) + r0.leaves());
                                assert(cur.leaves().update(idx as int, stored_page((cur.leaves()[idx as int].hash, new_data@.1))) =~= l0.leaves().update(idx as int, stored_page((l0.leaves()[idx as int].hash, new_data@.1))) + r0.leaves());
                            }
                        }
                        Ok(data)
                    },
                    Err(e) => {
                        *self = ContentTree::Hashed(Box::new(st));
                        Err(e)
                    },
                }
            },
            ContentTree::Empty(hash) => {
                let new_hash = new_data.hash(sha);
                if idx == 0 && hash == new_hash {
                    *self = ContentTree::Filled(new_data);
                    proof {
                        assert(self.leaves() =~= cur.leaves().update(0, stored_page((hash, new_data@.1))));
                    }
                    Ok(Data::empty(0))
                } else if idx != 0 {
                    *self = ContentTree::Empty(hash);
                    Err(AppError::IndexingError)
                } else {
                    *self = ContentTree::Empty(hash);
                    Err(AppError::HashMismatch)
                }
            },
        }
    }
}


impl ContentTree {
    /// Takes the last page out. A tree of one page becomes `Empty(0)`; a
    /// node whose right side is used up is replaced by its left side.
    pub(crate) fn pop<H: Fn(&[u8]) -> u64>(&mut self, sha: &H) -> (r: Result<Data, AppError>)
        requires
            old(self).wf(*sha),
            hasher_total(*sha),
        ensures
            final(self).wf(*sha),
            old(self).is_void() ==> (r matches Ok(d) && d@ == (0u64, Seq::<u8>::empty())
                && final(self).is_void()),
            !old(self).is_void() ==> (r matches Ok(d) && d@ == page_data(old(self).pages().last())
                && final(self).pages() == old(self).pages().drop_last()),
            *old(self) is Hashed ==> !final(self).is_void(),
        decreases *old(self),
    {
        let mut cur = ContentTree::Empty(0);
        std::mem::swap(self, &mut cur);
        proof {
            lemma_len_pages(cur);
        }
        match cur {
            ContentTree::Empty(hash) => Ok(Data::empty(hash)),
            ContentTree::Filled(data) => Ok(data),
            ContentTree::Hashed(boxed) => {
                let mut st = *boxed;
                proof {
                    lemma_len_pages(st.left);
                    lemma_len_pages(st.right);
                }
                if st.data_count == 0 {
                    return Err(AppError::ContentEmpty);
                }
                if !st.right.is_empty() {
                    st.data_count = st.data_count - 1;
                    let ghost r0 = st.right;
                    let res = st.right.pop(sha);
                    proof {
                        lemma_len_pages(st.right);
                    }
                    match res {
                        Ok(data) => {
                            if st.right.is_empty() {
                                let ghost left0 = st.left;
                                *self = match st.left {
                                    ContentTree::Hashed(mut b) => {
                                        let ghost b0 = *b;
                                        proof {
                                            assert(left0.wf_shape() && left0.hashes_ok(*sha));
                                            assert(b0.left.wf_shape() && b0.right.wf_shape());
                                            assert(b0.left.hashes_ok(*sha) && b0.right.hashes_ok(*sha));
                                        }
                                        b.hash(sha);
                                        ContentTree::Hashed(b)
                                    },
                                    other => other,
                                };
                                proof {
                                    assert(cur.pages().drop_last() =~= self.pages());
                                }
                                Ok(data)
                            } else {
                                st.hash(sha);
                                *self = ContentTree::Hashed(Box::new(st));
                                proof {
                                    assert(cur.pages().drop_last() =~= st.left.leaves() + r0.pages().drop_last());
                                }
                                Ok(data)
                            }
                        },
                        Err(e) => {
                            *self = ContentTree::Hashed(Box::new(st));
                            Err(e)
                        },
                    }
                } else {
                    st.data_count = st.data_count - 1;
                    let res = st.left.pop(sha);
                    match res {
                        Ok(data) => {
                            if !st.left.is_empty() {
                                *self = st.left;
                            }
                            Ok(data)
                        },
                        Err(e) => {
                            *self = ContentTree::Hashed(Box::new(st));
                            Err(e)
                        },
                    }
                }
            },
        }
    }
}

impl Subtree {
    /// This node as a tree.
    pub open spec fn as_tree(self) -> ContentTree {
        ContentTree::Hashed(Box::new(self))
    }

    /// The hash of page `idx` below this node.
    pub fn get_data_hash(&self, idx: u16) -> (r: Result<u64, AppError>)
        requires
            self.as_tree().wf_shape(),
        ensures
            idx < self.as_tree().leaves().len() ==> r == Ok::<u64, AppError>(self.as_tree().leaves()[idx as int].hash),
            idx >= self.as_tree().leaves().len() ==> r == Err::<u64, AppError>(AppError::IndexingError),
    {
        proof {
            lemma_len_pages(self.left);
            lemma_len_pages(self.right);
        }
        if idx >= self.data_count {
            Err(AppError::IndexingError)
        } else {
            let left_count = self.left.len();
            if idx >= left_count {
                self.right.get_data_hash(idx - left_count)
            } else {
                self.left.get_data_hash(idx)
            }
        }
    }

    /// Page `idx` below this node.
    pub fn read(&self, idx: u16) -> (r: Result<Data, AppError>)
        requires
            self.as_tree().wf_shape(),
        ensures
            idx < self.as_tree().leaves().len() ==> (r matches Ok(d) && d@ == page_data(self.as_tree().leaves()[idx as int])),
            idx >= self.as_tree().leaves().len() ==> r == Err::<Data, AppError>(AppError::IndexingError),
    {
        proof {
            lemma_len_pages(self.left);
            lemma_len_pages(self.right);
        }
        if idx >= self.data_count {
            Err(AppError::IndexingError)
        } else {
            let left_count = self.left.len();
            if idx >= left_count {
                self.right.read(idx - left_count)
            } else {
                self.left.read(idx)
            }
        }
    }

    /// Replaces page `idx` below this node, as `ContentTree::replace` does,
    /// and recomputes this node's hash.
    pub fn replace<H: Fn(&[u8]) -> u64>(&mut self, idx: u16, new_data: Data, sha: &H) -> (r:
        Result<Data, AppError>)
        requires
            old(self).as_tree().wf(*sha),
            hasher_total(*sha),
        ensures
            final(self).as_tree().wf(*sha),
            final(self).data_count == old(self).data_count,
            idx < old(self).left.leaves().len() ==> final(self).right == old(self).right,
            idx >= old(self).left.leaves().len() ==> final(self).left == old(self).left,
            r is Err ==> final(self).as_tree().leaves() == old(self).as_tree().leaves(),
            idx >= old(self).as_tree().leaves().len() ==> r == Err::<Data, AppError>(AppError::IndexingError),
            idx < old(self).as_tree().leaves().len() && old(self).as_tree().leaves()[idx as int].stored ==> (r matches Ok(d)
                && d@ == page_data(old(self).as_tree().leaves()[idx as int]) && final(self).as_tree().leaves()
                == old(self).as_tree().leaves().update(idx as int, stored_page(new_data@))),
            idx < old(self).as_tree().leaves().len() && !old(self).as_tree().leaves()[idx as int].stored ==> match r {
                Ok(d) => d@ == (0u64, Seq::<u8>::empty()) && hashes_to(
                    *sha,
                    new_data@.1,
                    old(self).as_tree().leaves()[idx as int].hash,
                ) && final(self).as_tree().leaves() == old(self).as_tree().leaves().update(
                    idx as int,
                    stored_page((old(self).as_tree().leaves()[idx as int].hash, new_data@.1)),
                ),
                Err(e) => e == AppError::HashMismatch,
            },
    {
        proof {
            lemma_len_pages(self.left);
            lemma_len_pages(self.right);
        }
        if idx >= self.data_count {
            return Err(AppError::IndexingError);
        }
        let left_count = self.left.len();
        let ghost l0 = self.left;
        let ghost r0 = self.right;
        let ghost t0 = self.as_tree();
        if idx >= left_count {
            let result = self.right.replace(idx - left_count, new_data, sha);
            if result.is_ok() {
                self.hash(sha);
            }
            proof {
                assert(t0.leaves().update(idx as int, stored_page(new_data@)) =~= l0.leaves() + r0.leaves().update(idx - left_count, stored_page(new_data@)));
                assert(t0.leaves().update(idx as int, stored_page((t0.leaves()[idx as int].hash, new_data@.1))) =~= l0.leaves() + r0.leaves().update(idx - left_count, stored_page((r0.leaves()[idx - left_count].hash, new_data@.1))));
            }
            result
        } else {
            let result = self.left.replace(idx, new_data, sha);
            if result.is_ok() {
                self.hash(sha);
            }
            proof {
                assert(t0.leaves().update(idx as int, stored_page(new_data@)) =~= l0.leaves().update(idx as int, stored_page(new_data@)) + r0.leaves());
                assert(t0.leaves().update(idx as int, stored_page((t0.leaves()[idx as int].hash, new_data@.1))) =~= l0.leaves().update(idx as int, stored_page((l0.leaves()[idx as int].hash, new_data@.1))) + r0.leaves());
            }
            result
        }
    }

    /// Appends a page to the right side of this node, without a new node
    /// above it, counts it and recomputes this node's hash.
    pub fn append<H: Fn(&[u8]) -> u64>(&mut self, data: Data, sha: &H) -> (r: Result<u64, AppError>)
        requires
            old(self).as_tree().wf(*sha),
            old(self).data_count < u16::MAX,
            hasher_total(*sha),
        ensures
            r == Ok::<u64, AppError>(final(self).hash),
            final(self).data_count == old(self).data_count + 1,
            final(self).left == old(self).left,
            final(self).right.pages() == old(self).right.pages_after_append(data@),
            final(self).as_tree().hashes_ok(*sha),
            old(self).right.append_keeps_shape(data@) && final(self).right.pages().len()
                == old(self).right.pages().len() + 1 ==> final(self).as_tree().wf_shape(),
            !final(self).right.is_void(),
    {
        proof {
            lemma_len_pages(self.left);
            lemma_len_pages(self.right);
        }
        self.data_count = self.data_count + 1;
        let right_hash_res = self.right.append(data, sha);
        match right_hash_res {
            Ok(_hash) => Ok(self.hash(sha)),
            Err(e) => Err(e),
        }
    }

    /// Takes the last page out of the right side of this node. When the right
    /// side was a single page it is used up: the page comes back as
    /// `RightLeafEmpty` and the right side is left as `Empty(0)`.
    pub fn pop<H: Fn(&[u8]) -> u64>(&mut self, sha: &H) -> (r: Result<Data, SubtreeError>)
        requires
            old(self).as_tree().wf(*sha),
            hasher_total(*sha),
        ensures
            final(self).data_count == old(self).data_count - 1,
            final(self).left == old(self).left,
            !(old(self).right is Hashed) ==> (r matches Err(SubtreeError::RightLeafEmpty(d)) && d@
                == page_data(old(self).as_tree().pages().last()) && final(self).right.is_void()),
            old(self).right is Hashed ==> (r matches Ok(d) && d@ == page_data(old(self).as_tree().pages().last())
                && final(self).as_tree().wf(*sha) && final(self).as_tree().pages()
                == old(self).as_tree().pages().drop_last()),
    {
        proof {
            lemma_len_pages(self.left);
            lemma_len_pages(self.right);
        }
        let ghost r0 = self.right;
        if self.data_count == 0 {
            Err(SubtreeError::Empty)
        } else if !self.right.is_empty() {
            self.data_count = self.data_count - 1;
            let pop_result = self.right.pop(sha);
            proof {
                lemma_len_pages(self.right);
            }
            match pop_result {
                Ok(data) => {
                    if self.right.is_empty() {
                        Err(SubtreeError::RightLeafEmpty(data))
                    } else {
                        self.hash(sha);
                        proof {
                            assert(self.as_tree().pages() =~= self.left.leaves() + r0.pages().drop_last());
                        }
                        Ok(data)
                    }
                },
                Err(app_error) => match app_error {
                    AppError::ContentEmpty => Err(SubtreeError::Empty),
                    _ => Err(SubtreeError::DatatypeMismatch),
                },
            }
        } else {
            self.data_count = self.data_count - 1;
            let pop_result = self.left.pop(sha);
            match pop_result {
                Ok(data) => {
                    if self.left.is_empty() {
                        Err(SubtreeError::BothLeavesEmpty(data))
                    } else {
                        Err(SubtreeError::RightLeafEmpty(data))
                    }
                },
                Err(app_error) => match app_error {
                    AppError::ContentEmpty => Err(SubtreeError::Empty),
                    _ => Err(SubtreeError::DatatypeMismatch),
                },
            }
        }
    }
}


/// A page with its bytes dropped.
pub open spec fn blank(q: Page) -> Page {
    Page { stored: q.stored, hash: q.hash, bytes: Seq::empty() }
}

/// A page as it is after being written back as a stored page.
pub open spec fn restamp(p: Page) -> Page {
    Page { stored: true, hash: p.hash, bytes: p.bytes }
}

/// The pages after removing page `idx` by shifting every later page down one
/// place; each shifted page is written back as a stored page.
pub open spec fn pages_after_remove(p: Seq<Page>, idx: int) -> Seq<Page> {
    p.take(idx) + p.skip(idx + 1).map_values(|q: Page| restamp(q))
}

/// How an inner node's insertion of page `d` at `idx` (on its left side of
/// pages `lp`) rotates that side: `d` goes in at `idx` pushing later pages
/// one place on; then the page pushed off the end is written at the front,
/// pushing every page on again. Returns the new left pages and the page
/// pushed off the end at last, which is then appended on the right side.
pub open spec fn insert_rotation(lp: Seq<Page>, idx: int, d: Page) -> (Seq<Page>, Page) {
    let nl = lp.len() as int;
    let a = lp.take(idx).push(d) + lp.subrange(idx, nl - 1);
    (seq![lp[nl - 1]] + a.take(nl - 1), a[nl - 1])
}

impl Subtree {
    /// Every page on the left side is stored.
    pub open spec fn left_all_stored(self) -> bool {
        forall|k: int| 0 <= k < self.left.leaves().len() ==> (#[trigger] self.left.leaves()[k]).stored
    }

    /// Inserts page `data` at `idx`. When `idx` falls on the left side, the
    /// left side is rotated (see `insert_rotation`) and the page pushed off
    /// its end is appended on the right; otherwise `data` itself is appended
    /// on the right. Returns the node's hash after the append.
    pub fn insert<H: Fn(&[u8]) -> u64>(&mut self, idx: u16, data: Data, sha: &H) -> (r: Result<u64, AppError>)
        requires
            old(self).as_tree().wf(*sha),
            old(self).data_count < u16::MAX,
            idx < old(self).left.leaves().len() ==> old(self).left_all_stored(),
            hasher_total(*sha),
        ensures
            idx >= old(self).data_count ==> r == Err::<u64, AppError>(AppError::IndexingError) && *final(self) == *old(self),
            idx < old(self).data_count ==> {
                let lp = old(self).left.leaves();
                let rot = insert_rotation(lp, idx as int, stored_page(data@));
                let carried = if idx < lp.len() { page_data(rot.1) } else { data@ };
                &&& r matches Ok(h) && is_pair_hash(*sha, final(self).left.root_hash(), final(self).right.root_hash(), h)
                &&& final(self).data_count == old(self).data_count + 1
                &&& !final(self).right.is_void()
                &&& final(self).left.leaves() == if idx < lp.len() { rot.0 } else { lp }
                &&& final(self).right.pages() == old(self).right.pages_after_append(carried)
                &&& final(self).as_tree().hashes_ok(*sha)
                &&& old(self).right.append_keeps_shape(carried) && final(self).right.pages().len()
                    == old(self).right.pages().len() + 1 ==> final(self).as_tree().wf_shape()
            },
    {
        proof {
            lemma_len_pages(self.left);
            lemma_len_pages(self.right);
        }
        if idx >= self.data_count {
            return Err(AppError::IndexingError);
        }
        let left_count = self.left.len();
        let right_count = self.left.len();
        let mut data = data;
        let ghost lp = self.left.leaves();
        let ghost rp = self.right.leaves();
        let ghost r0 = self.right;
        let ghost d = stored_page(data@);
        if idx < left_count {
            let ghost a = lp.take(idx as int).push(d) + lp.subrange(idx as int, left_count - 1);
            let mut i = idx;
            while i < left_count
                invariant
                    self.as_tree().wf(*sha),
                    hasher_total(*sha),
                    self.right == r0,
                    self.left.leaves().len() == left_count,
                    self.data_count == old(self).data_count,
                    left_count == lp.len(),
                    idx <= i <= left_count,
                    forall|k: int| 0 <= k < lp.len() ==> (#[trigger] lp[k]).stored,
                    d.stored,
                    self.as_tree().leaves() == (if i == idx { lp } else { lp.take(idx as int).push(d) + lp.subrange(idx as int, i - 1) + lp.skip(i as int) }) + rp,
                    data@ == page_data(if i == idx { d } else { lp[i - 1] }),
                decreases left_count - i,
            {
                let ghost before = self.as_tree().leaves();
                proof {
                    lemma_len_pages(self.left);
                    assert(before[i as int] == lp[i as int]);
                }
                let res = self.replace(i, data, sha);
                match res {
                    Ok(old_data) => {
                        data = old_data;
                    },
                    Err(_) => {
                        return Err(AppError::IndexingError);
                    },
                }
                proof {
                    let prev = if i == idx { d } else { lp[i - 1] };
                    assert(stored_page(page_data(prev)) == prev);
                    assert(before.update(i as int, prev) =~= (lp.take(idx as int).push(d) + lp.subrange(idx as int, i as int) + lp.skip(i + 1)) + rp);
                }
                i = i + 1;
            }
            proof {
                assert(lp.take(idx as int).push(d) + lp.subrange(idx as int, left_count - 1) + lp.skip(left_count as int) =~= a);
            }
            let mut j: u16 = 0;
            while j < right_count
                invariant
                    self.as_tree().wf(*sha),
                    hasher_total(*sha),
                    self.right == r0,
                    self.left.leaves().len() == left_count,
                    self.data_count == old(self).data_count,
                    left_count == lp.len(),
                    right_count == left_count,
                    a.len() == lp.len(),
                    forall|k: int| 0 <= k < a.len() ==> (#[trigger] a[k]).stored,
                    lp[left_count - 1].stored,
                    0 <= j <= left_count,
                    self.as_tree().leaves() == (if j == 0 { a } else { seq![lp[left_count - 1]] + a.take(j - 1) + a.skip(j as int) }) + rp,
                    data@ == page_data(if j == 0 { lp[left_count - 1] } else { a[j - 1] }),
                decreases right_count - j,
            {
                let ghost before = self.as_tree().leaves();
                proof {
                    assert(before[j as int] == a[j as int]);
                }
                let res = self.replace(j, data, sha);
                match res {
                    Ok(old_data) => {
                        data = old_data;
                    },
                    Err(_) => {
                        return Err(AppError::IndexingError);
                    },
                }
                proof {
                    let prev = if j == 0 { lp[left_count - 1] } else { a[j - 1] };
                    assert(stored_page(page_data(prev)) == prev);
                    assert(before.update(j as int, prev) =~= (seq![lp[left_count - 1]] + a.take(j as int) + a.skip(j + 1)) + rp);
                }
                j = j + 1;
            }
            proof {
                assert(seq![lp[left_count - 1]] + a.take(left_count - 1) + a.skip(left_count as int) =~= seq![lp[left_count - 1]] + a.take(left_count - 1));
            }
        } else {
            let mut i = idx;
            while i < right_count
                invariant
                    idx >= right_count,
                decreases right_count - i,
            {
                i = i + 1;
            }
        }
        let ghost before_append = self.as_tree().leaves();
        proof {
            lemma_len_pages(self.left);
            assert(self.left.leaves() =~= before_append.take(left_count as int));
        }
        let result = self.append(data, sha);
        self.hash(sha);
        result
    }
}


impl ContentTree {
    /// Inserting at `idx` can go ahead without a panic: an inner node is
    /// not full, and when `idx` falls on its left side every page there is
    /// stored.
    pub open spec fn insert_ok(self, idx: u16) -> bool {
        match self {
            ContentTree::Hashed(st) => st.data_count < u16::MAX && (idx < st.left.leaves().len()
                ==> st.left_all_stored()),
            _ => true,
        }
    }

    /// Inserts page `data` at `idx` (`idx` may be 0 on a tree of one page or
    /// none): into `Empty` it becomes the only page; before a single stored
    /// page it makes a node of the two, the old page rehashed; below an
    /// inner node see `Subtree::insert`.
    pub fn insert<H: Fn(&[u8]) -> u64>(&mut self, idx: u16, data: Data, sha: &H) -> (r: Result<u64, AppError>)
        requires
            old(self).wf(*sha),
            old(self).insert_ok(idx),
            hasher_total(*sha),
        ensures
            idx > 0 && idx >= old(self).spec_len() ==> r == Err::<u64, AppError>(AppError::IndexingError)
                && *final(self) == *old(self),
            !(idx > 0 && idx >= old(self).spec_len()) ==> match *old(self) {
                ContentTree::Empty(_) => r == Ok::<u64, AppError>(data.0) && *final(self) == ContentTree::Filled(data),
                ContentTree::Filled(od) => {
                    &&& r == Ok::<u64, AppError>(final(self).root_hash())
                    &&& final(self).wf(*sha)
                    &&& final(self).leaves().len() == 2
                    &&& final(self).leaves()[0] == stored_page(data@)
                    &&& final(self).leaves()[1].stored
                    &&& final(self).leaves()[1].bytes == od.1@
                    &&& hashes_to(*sha, od.1@, final(self).leaves()[1].hash)
                },
                ContentTree::Hashed(st) => {
                    let lp = st.left.leaves();
                    let rot = insert_rotation(lp, idx as int, stored_page(data@));
                    let carried = if idx < lp.len() { page_data(rot.1) } else { data@ };
                    &&& *final(self) matches ContentTree::Hashed(fst) && r matches Ok(h) && is_pair_hash(
                        *sha,
                        fst.left.root_hash(),
                        fst.right.root_hash(),
                        h,
                    ) && fst.data_count == st.data_count + 1
                    &&& final(self).leaves() == (if idx < lp.len() { rot.0 } else { lp }) + st.right.pages_after_append(carried)
                    &&& final(self).hashes_ok(*sha)
                    &&& st.right.append_keeps_shape(carried) && st.right.pages_after_append(carried).len()
                        == st.right.pages().len() + 1 ==> final(self).wf_shape()
                },
            },
    {
        if idx > 0 && idx >= self.len() {
            return Err(AppError::IndexingError);
        }
        let remove_last = self.len() == u16::MAX;
        let mut cur = ContentTree::Empty(0);
        std::mem::swap(self, &mut cur);
        let result = match cur {
            ContentTree::Empty(_hash) => {
                let hash = data.get_hash();
                *self = ContentTree::Filled(data);
                Ok(hash)
            },
            ContentTree::Filled(old_data) => {
                let mut old_data = old_data;
                let left_hash = data.get_hash();
                let right_hash = old_data.hash(sha);
                let hash = double_hash(left_hash, right_hash, sha);
                *self = ContentTree::Hashed(
                    Box::new(
                        Subtree {
                            data_count: 2,
                            hash,
                            left: ContentTree::Filled(data),
                            right: ContentTree::Filled(old_data.clone()),
                        },
                    ),
                );
                let ghost t = *self;
                proof {
                    if let ContentTree::Hashed(st) = t {
                        assert(st.left.wf_shape() && st.right.wf_shape());
                        assert(st.left.hashes_ok(*sha) && st.right.hashes_ok(*sha));
                        assert(st.left.leaves() == seq![stored_page(data@)]);
                        assert(st.right.leaves().len() == 1);
                    }
                }
                Ok(hash)
            },
            ContentTree::Hashed(boxed) => {
                let mut st = *boxed;
                proof {
                    lemma_len_pages(st.left);
                    lemma_len_pages(st.right);
                }
                let res = st.insert(idx, data, sha);
                *self = ContentTree::Hashed(Box::new(st));
                res
            },
        };
        if remove_last && result.is_ok() {
            let _ = self.pop(sha);
        }
        result
    }

    /// Removes page `idx`, shifting later pages down one place (see
    /// `pages_after_remove`), and returns it. A tree of one placeholder or
    /// none is left as `Empty(0)` with `ContentEmpty`.
    pub fn remove_data<H: Fn(&[u8]) -> u64>(&mut self, idx: u16, sha: &H) -> (r: Result<Data, AppError>)
        requires
            old(self).wf(*sha),
            hasher_total(*sha),
            *old(self) is Hashed && idx < old(self).pages().len() ==> forall|k: int|
                idx <= k < old(self).pages().len() - 1 ==> (#[trigger] old(self).pages()[k]).stored,
        ensures
            final(self).wf(*sha),
            *old(self) is Empty ==> r == Err::<Data, AppError>(AppError::ContentEmpty) && final(self).is_void(),
            !(*old(self) is Empty) && idx >= old(self).pages().len() ==> r == Err::<Data, AppError>(
                AppError::IndexingError,
            ) && *final(self) == *old(self),
            !(*old(self) is Empty) && idx < old(self).pages().len() ==> (r matches Ok(d) && d@ == page_data(
                old(self).pages()[idx as int],
            ) && final(self).pages() == pages_after_remove(old(self).pages(), idx as int)),
    {
        let mut cur = ContentTree::Empty(0);
        std::mem::swap(self, &mut cur);
        proof {
            lemma_len_pages(cur);
        }
        match cur {
            ContentTree::Empty(_hash) => Err(AppError::ContentEmpty),
            ContentTree::Filled(d) => {
                if idx == 0 {
                    proof {
                        assert(pages_after_remove(cur.pages(), 0) =~= Seq::<Page>::empty());
                    }
                    Ok(d)
                } else {
                    *self = ContentTree::Filled(d);
                    Err(AppError::IndexingError)
                }
            },
            ContentTree::Hashed(boxed) => {
                let chunks_count = boxed.data_count;
                if idx >= chunks_count {
                    *self = ContentTree::Hashed(boxed);
                    return Err(AppError::IndexingError);
                }
                *self = ContentTree::Hashed(boxed);
                let ghost p = cur.pages();
                let popped = self.pop(sha);
                match popped {
                    Ok(last) => {
                        let mut data = last;
                        let mut i = chunks_count - 1;
                        proof {
                            assert(p.take(i as int) + p.skip(i + 1).map_values(|q: Page| restamp(q)) =~= p.drop_last());
                        }
                        while i > idx
                            invariant
                                self.wf(*sha),
                                hasher_total(*sha),
                                !self.is_void(),
                                p.len() == chunks_count,
                                idx <= i < chunks_count,
                                forall|k: int| idx <= k < p.len() - 1 ==> (#[trigger] p[k]).stored,
                                self.pages() == p.take(i as int) + p.skip(i + 1).map_values(|q: Page| restamp(q)),
                                data@ == page_data(p[i as int]),
                            decreases i,
                        {
                            i = i - 1;
                            let ghost before = self.pages();
                            proof {
                                lemma_len_pages(*self);
                                assert(before[i as int] == p[i as int]);
                            }
                            let res = self.replace(i, data, sha);
                            match res {
                                Ok(old_data) => {
                                    data = old_data;
                                },
                                Err(_) => {
                                    return Err(AppError::IndexingError);
                                },
                            }
                            proof {
                                assert(stored_page(page_data(p[i + 1])) == restamp(p[i + 1]));
                                assert(before.update(i as int, restamp(p[i + 1])) =~= p.take(i as int) + p.skip(i + 1).map_values(|q: Page| restamp(q)));
                            }
                        }
                        Ok(data)
                    },
                    Err(e) => Err(e),
                }
            },
        }
    }

    /// The same tree with every stored page's bytes dropped, hashes kept.
    pub fn shell(&self) -> (r: Self)
        ensures
            r.leaves().len() == self.leaves().len(),
            forall|i: int| 0 <= i < r.leaves().len() ==> #[trigger] r.leaves()[i] == blank(self.leaves()[i]),
            r.root_hash() == self.root_hash(),
            r.spec_len() == self.spec_len(),
            self.wf_shape() ==> r.wf_shape(),
            r.mirrors(*self),
        decreases self,
    {
        match self {
            ContentTree::Empty(hash) => {
                let r = ContentTree::Empty(*hash);
                r
            },
            ContentTree::Filled(data) => {
                let r = ContentTree::Filled(Data::empty(data.get_hash()));
                proof {
                    assert(r.leaves()[0].bytes =~= Seq::<u8>::empty());
                }
                r
            },
            ContentTree::Hashed(sub_tree) => {
                let left = sub_tree.left.shell();
                let right = sub_tree.right.shell();
                let r = ContentTree::Hashed(
                    Box::new(
                        Subtree { data_count: sub_tree.data_count, hash: sub_tree.hash, left, right },
                    ),
                );
                r
            },
        }
    }
}


impl ContentTree {
    /// A tree of the given pages, appended in turn to an empty tree.
    pub fn from<H: Fn(&[u8]) -> u64>(data_vec: Vec<Data>, sha: &H) -> (r: Self)
        requires
            hasher_total(*sha),
            data_vec@.len() <= u16::MAX,
            forall|i: int| 0 <= i < data_vec@.len() ==> (#[trigger] data_vec@[i]).1@.len() > 0,
        ensures
            r.wf(*sha),
            r.pages().len() == data_vec@.len(),
            forall|i: int| 0 <= i < data_vec@.len() ==> #[trigger] r.pages()[i] == stored_page(data_vec@[i]@),
    {
        let mut tree = ContentTree::empty(0);
        let mut data_vec = data_vec;
        let ghost orig = data_vec@;
        let n = data_vec.len();
        let mut i: usize = 0;
        while i < n
            invariant
                hasher_total(*sha),
                n == orig.len(),
                n <= u16::MAX,
                i <= n,
                data_vec@ == orig.skip(i as int),
                forall|k: int| 0 <= k < n ==> (#[trigger] orig[k]).1@.len() > 0,
                tree.wf(*sha),
                tree.pages().len() == i,
                forall|k: int| 0 <= k < i ==> #[trigger] tree.pages()[k] == stored_page(orig[k]@),
            decreases n - i,
        {
            let data = data_vec.remove(0);
            proof {
                lemma_len_pages(tree);
                assert(data@ == orig[i as int]@);
                assert(data_vec@ =~= orig.skip(i + 1));
            }
            let ghost t0 = tree;
            let _ = tree.append(data, sha);
            proof {
                assert(tree.pages() =~= t0.pages().push(stored_page(data@)));
            }
            i += 1;
        }
        tree
    }
}

} // verus!
