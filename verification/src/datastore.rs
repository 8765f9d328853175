//! The datastore: the contents of a swarm, numbered from 0, held as the
//! leaves of an append-only binary tree whose inner nodes carry the hash of
//! their children's hashes.

use vstd::prelude::*;
use crate::app_type::AppType;
use crate::content::{Content, ContentID, DataType, TransformInfo};
use crate::content_tree::{page_data, ContentTree};
use crate::data::Data;
use crate::error::AppError;
use crate::hashing::{double_hash, hasher_total, is_pair_hash};

verus! {

/// The contents of a swarm: none (only while being rebuilt), one content,
/// or an inner node.
#[derive(Debug)]
pub enum Datastore {
    Empty,
    Filled(Content),
    Hashed(Box<Substore>),
}

/// An inner node of the datastore: the number of contents below it, its
/// hash and its children.
#[derive(Debug)]
pub struct Substore {
    data_count: u16,
    hash: u64,
    left: Datastore,
    right: Datastore,
}

impl Datastore {
    /// The contents, left to right.
    pub closed spec fn contents(self) -> Seq<Content>
        decreases self,
    {
        match self {
            Datastore::Empty => Seq::empty(),
            Datastore::Filled(c) => seq![c],
            Datastore::Hashed(st) => st.left.contents() + st.right.contents(),
        }
    }

    /// Every inner node counts the contents below it, and none of its
    /// children is `Empty`.
    pub closed spec fn wf(self) -> bool
        decreases self,
    {
        match self {
            Datastore::Hashed(st) => {
                &&& st.left.wf()
                &&& st.right.wf()
                &&& !(st.left is Empty)
                &&& !(st.right is Empty)
                &&& st.data_count == st.left.contents().len() + st.right.contents().len()
            },
            _ => true,
        }
    }

    /// Every link among the contents fits a page.
    pub open spec fn links_fit(self) -> bool {
        forall|i: int| 0 <= i < self.contents().len() ==> (#[trigger] self.contents()[i]).link_fits()
    }

    /// Every content's link fits a page and every data content's tree is
    /// well shaped.
    pub open spec fn contents_ok(self) -> bool {
        forall|i: int| 0 <= i < self.contents().len() ==> {
            &&& (#[trigger] self.contents()[i]).link_fits()
            &&& self.contents()[i].shape_ok()
        }
    }

    /// `h` is the hash at the root: 0 for no content, the hash of the
    /// single content, or the hash the inner node carries.
    pub closed spec fn hash_is<H: Fn(&[u8]) -> u64>(self, sha: H, h: u64) -> bool {
        match self {
            Datastore::Empty => h == 0,
            Datastore::Filled(c) => c.hashes_to(sha, h),
            Datastore::Hashed(st) => h == st.hash,
        }
    }

    /// The root's hash is the hash of its children's hashes.
    pub closed spec fn root_fresh<H: Fn(&[u8]) -> u64>(self, sha: H) -> bool {
        match self {
            Datastore::Hashed(st) => exists|hl: u64, hr: u64|
                #![trigger st.left.hash_is(sha, hl), st.right.hash_is(sha, hr)]
                st.left.hash_is(sha, hl) && st.right.hash_is(sha, hr) && is_pair_hash(sha, hl, hr, st.hash),
            _ => true,
        }
    }

    /// The contents are at most `u16::MAX` in a well-formed datastore.
    pub proof fn lemma_len(self)
        requires
            self.wf(),
        ensures
            self.contents().len() <= u16::MAX,
            !(self is Empty) ==> self.contents().len() >= 1,
            self is Empty ==> self.contents().len() == 0,
            self is Filled ==> self.contents().len() == 1,
        decreases self,
    {
        if let Datastore::Hashed(st) = self {
            st.left.lemma_len();
            st.right.lemma_len();
        }
    }

    /// The contents of an inner node are those of its left child followed
    /// by those of its right child.
    proof fn lemma_children(self)
        requires
            self is Hashed,
        ensures
            match self {
                Datastore::Hashed(st) => {
                    &&& self.contents().len() == st.left.contents().len() + st.right.contents().len()
                    &&& forall|i: int| 0 <= i < st.left.contents().len() ==> #[trigger] st.left.contents()[i]
                        == self.contents()[i]
                    &&& forall|i: int| 0 <= i < st.right.contents().len() ==> #[trigger] st.right.contents()[i]
                        == self.contents()[st.left.contents().len() + i]
                },
                _ => true,
            },
    {
    }

    /// A datastore of one content: data of type 0 whose single page holds
    /// the application type's byte.
    pub fn new<H: Fn(&[u8]) -> u64>(app_type: AppType, sha: &H) -> (r: Datastore)
        requires
            hasher_total(*sha),
        ensures
            r.wf(),
            r.contents().len() == 1,
            r.contents()[0] matches Content::Data(dt, mem, tree) && dt == DataType::Data(0) && mem == 1
                && tree.wf(*sha) && tree.pages().len() == 1 && tree.pages()[0].stored
                && tree.pages()[0].bytes == seq![app_type.spec_byte()],
    {
        let mut content_tree = ContentTree::empty(0);
        let mut v: Vec<u8> = Vec::new();
        v.push(app_type.byte());
        let page = match Data::new(v, sha) {
            Ok(d) => d,
            Err(_) => {
                assert(false);
                Data::empty(0)
            },
        };
        let _ = content_tree.append(page, sha);
        Datastore::Filled(Content::Data(DataType::Data(0), 1, content_tree))
    }

    /// The number of contents.
    pub fn len(&self) -> (r: u16)
        requires
            self.wf(),
        ensures
            r == self.contents().len(),
    {
        proof {
            self.lemma_len();
        }
        match self {
            Datastore::Empty => 0,
            Datastore::Filled(_c) => 1,
            Datastore::Hashed(s_store) => s_store.data_count,
        }
    }

    /// The type and number of pages of content `c_id`.
    pub fn type_and_len(&self, c_id: ContentID) -> (r: Result<(DataType, u16), AppError>)
        requires
            self.wf(),
        ensures
            c_id < self.contents().len() ==> r == Ok::<(DataType, u16), AppError>(
                (self.contents()[c_id as int].spec_data_type(), self.contents()[c_id as int].spec_len()),
            ),
            c_id >= self.contents().len() ==> r == Err::<(DataType, u16), AppError>(AppError::IndexingError),
        decreases self,
    {
        match self {
            Datastore::Empty => Err(AppError::IndexingError),
            Datastore::Filled(content) => {
                if c_id == 0 {
                    Ok((content.data_type(), content.len()))
                } else {
                    Err(AppError::IndexingError)
                }
            },
            Datastore::Hashed(s_store) => {
                proof {
                    s_store.left.lemma_len();
                    s_store.right.lemma_len();
                }
                if c_id >= s_store.data_count {
                    return Err(AppError::IndexingError);
                }
                let left_len = s_store.left.len();
                if c_id >= left_len {
                    s_store.right.type_and_len(c_id - left_len)
                } else {
                    s_store.left.type_and_len(c_id)
                }
            },
        }
    }

    /// Takes content `c_id` out, leaving its shell (see `Content::shell`)
    /// in its place.
    pub fn take(&mut self, c_id: ContentID) -> (r: Result<Content, AppError>)
        requires
            old(self).wf(),
        ensures
            final(self).wf(),
            final(self).contents().len() == old(self).contents().len(),
            c_id < old(self).contents().len() ==> {
                &&& r == Ok::<Content, AppError>(old(self).contents()[c_id as int])
                &&& final(self).contents()[c_id as int].shell_of(old(self).contents()[c_id as int])
                &&& forall|j: int| 0 <= j < old(self).contents().len() && j != c_id ==> #[trigger] final(self).contents()[j]
                    == old(self).contents()[j]
            },
            c_id >= old(self).contents().len() ==> r == Err::<Content, AppError>(AppError::IndexingError)
                && *final(self) == *old(self),
            *old(self) is Hashed ==> *final(self) is Hashed,
        decreases *old(self),
    {
        let mut myself = Datastore::Empty;
        std::mem::swap(self, &mut myself);
        match myself {
            Datastore::Empty => Err(AppError::IndexingError),
            Datastore::Filled(old_content) => {
                if c_id == 0 {
                    let new_content = old_content.shell();
                    *self = Datastore::Filled(new_content);
                    Ok(old_content)
                } else {
                    *self = Datastore::Filled(old_content);
                    Err(AppError::IndexingError)
                }
            },
            Datastore::Hashed(s_store) => {
                let mut st = *s_store;
                proof {
                    st.left.lemma_len();
                    st.right.lemma_len();
                }
                if c_id >= st.data_count {
                    *self = Datastore::Hashed(Box::new(st));
                    return Err(AppError::IndexingError);
                }
                let ghost lc = st.left.contents();
                let ghost rc = st.right.contents();
                let left_len = st.left.len();
                let result = if c_id >= left_len {
                    st.right.take(c_id - left_len)
                } else {
                    st.left.take(c_id)
                };
                proof {
                    let nc = st.left.contents() + st.right.contents();
                    let oc = lc + rc;
                    assert forall|j: int| 0 <= j < oc.len() && j != c_id implies #[trigger] nc[j] == oc[j] by {
                        if j < lc.len() {
                        } else {
                        }
                    }
                }
                *self = Datastore::Hashed(Box::new(st));
                result
            },
        }
    }

    /// The shell of content `c_id` (see `Content::shell`).
    pub fn shell(&self, c_id: ContentID) -> (r: Result<Content, AppError>)
        requires
            self.wf(),
        ensures
            c_id < self.contents().len() ==> (r matches Ok(c) && c.shell_of(self.contents()[c_id as int])),
            c_id >= self.contents().len() ==> r == Err::<Content, AppError>(AppError::IndexingError),
        decreases self,
    {
        match self {
            Datastore::Empty => Err(AppError::IndexingError),
            Datastore::Filled(content) => {
                if c_id == 0 {
                    Ok(content.shell())
                } else {
                    Err(AppError::IndexingError)
                }
            },
            Datastore::Hashed(s_store) => {
                proof {
                    s_store.left.lemma_len();
                    s_store.right.lemma_len();
                }
                if c_id >= s_store.data_count {
                    return Err(AppError::IndexingError);
                }
                let left_len = s_store.left.len();
                if c_id >= left_len {
                    s_store.right.shell(c_id - left_len)
                } else {
                    s_store.left.shell(c_id)
                }
            },
        }
    }

    /// The hash at the root (0 when there is no content).
    pub fn hash<H: Fn(&[u8]) -> u64>(&self, sha: &H) -> (r: u64)
        requires
            hasher_total(*sha),
            self.wf(),
            self.links_fit(),
        ensures
            self.hash_is(*sha, r),
    {
        match self {
            Datastore::Empty => 0,
            Datastore::Filled(content) => {
                assert(self.contents()[0] == *content);
                content.hash(sha)
            },
            Datastore::Hashed(s_store) => s_store.hash,
        }
    }

    /// Adds `content` as the last content (along the right side of the
    /// tree), rehashing the nodes on the way; a datastore of `u16::MAX`
    /// contents is full.
    pub fn append<H: Fn(&[u8]) -> u64>(&mut self, content: Content, sha: &H) -> (r: Result<u64, AppError>)
        requires
            hasher_total(*sha),
            old(self).wf(),
            old(self).links_fit(),
            content.link_fits(),
        ensures
            final(self).wf(),
            final(self).links_fit(),
            old(self).contents().len() < u16::MAX ==> {
                &&& r matches Ok(h) && final(self).hash_is(*sha, h)
                &&& final(self).contents() == old(self).contents().push(content)
                &&& final(self).root_fresh(*sha)
            },
            old(self).contents().len() >= u16::MAX ==> r == Err::<u64, AppError>(AppError::DatastoreFull)
                && *final(self) == *old(self),
        decreases *old(self),
    {
        let mut myself = Datastore::Empty;
        std::mem::swap(self, &mut myself);
        proof {
            myself.lemma_len();
        }
        match myself {
            Datastore::Empty => {
                let hash = content.hash(sha);
                *self = Datastore::Filled(content);
                assert(self.contents() =~= seq![content]);
                assert(self.wf());
                Ok(hash)
            },
            Datastore::Filled(prev_content) => {
                assert(myself.contents()[0] == prev_content);
                let hl = prev_content.hash(sha);
                let hr = content.hash(sha);
                let hash = double_hash(hl, hr, sha);
                let substore = Substore {
                    data_count: 2,
                    hash,
                    left: Datastore::Filled(prev_content),
                    right: Datastore::Filled(content),
                };
                assert(substore.left.contents() == seq![prev_content]);
                assert(substore.right.contents() == seq![content]);
                assert(substore.left.wf() && substore.right.wf());
                *self = Datastore::Hashed(Box::new(substore));
                proof {
                    assert(self.contents() =~= myself.contents().push(content));
                    let ghost me = *self;
                    if let Datastore::Hashed(st) = me {
                        assert(st.left.hash_is(*sha, hl));
                        assert(st.right.hash_is(*sha, hr));
                    }
                }
                Ok(hash)
            },
            Datastore::Hashed(s_store) => {
                let mut st = *s_store;
                proof {
                    st.left.lemma_len();
                    st.right.lemma_len();
                }
                if st.data_count < u16::MAX {
                    let ghost lc = st.left.contents();
                    let ghost rc = st.right.contents();
                    assert forall|i: int| 0 <= i < rc.len() implies (#[trigger] rc[i]).link_fits() by {
                        assert(myself.contents()[lc.len() + i] == rc[i]);
                    }
                    let result = st.right.append(content, sha);
                    match result {
                        Ok(_h) => {
                            st.data_count = st.data_count + 1;
                            proof {
                                assert forall|i: int| 0 <= i < lc.len() implies (#[trigger] lc[i]).link_fits() by {
                                    assert(myself.contents()[i] == lc[i]);
                                }
                            }
                            let hl = st.left.hash(sha);
                            let hr = st.right.hash(sha);
                            st.hash = double_hash(hl, hr, sha);
                            let h = st.hash;
                            *self = Datastore::Hashed(Box::new(st));
                            proof {
                                assert(self.contents() =~= myself.contents().push(content));
                                assert(self.contents() =~= lc + st.right.contents());
                                assert forall|i: int| 0 <= i < self.contents().len() implies (#[trigger] self.contents()[i]).link_fits() by {
                                    if i < lc.len() {
                                        assert(self.contents()[i] == lc[i]);
                                        assert(myself.contents()[i] == lc[i]);
                                    } else {
                                        assert(self.contents()[i] == st.right.contents()[i - lc.len()]);
                                    }
                                }
                            }
                            Ok(h)
                        },
                        Err(e) => {
                            assert(false);
                            *self = Datastore::Hashed(Box::new(st));
                            Err(e)
                        },
                    }
                } else {
                    *self = Datastore::Hashed(Box::new(st));
                    Err(AppError::DatastoreFull)
                }
            },
        }
    }

    /// Content `c_id`, if there is one.
    pub fn get(&self, c_id: ContentID) -> (r: Option<&Content>)
        requires
            self.wf(),
        ensures
            c_id < self.contents().len() ==> r == Some(&self.contents()[c_id as int]),
            c_id >= self.contents().len() ==> r is None,
        decreases self,
    {
        match self {
            Datastore::Empty => None,
            Datastore::Filled(content) => {
                if c_id == 0 {
                    Some(content)
                } else {
                    None
                }
            },
            Datastore::Hashed(s_store) => {
                proof {
                    s_store.left.lemma_len();
                    s_store.right.lemma_len();
                }
                if c_id >= s_store.data_count {
                    return None;
                }
                let left_len = s_store.left.len();
                if c_id >= left_len {
                    s_store.right.get(c_id - left_len)
                } else {
                    s_store.left.get(c_id)
                }
            },
        }
    }

    /// Page `data_id` of content `c_id` (see `Content::read_data`).
    pub fn read_data<H: Fn(&[u8]) -> u64>(&self, ids: (ContentID, u16), sha: &H) -> (r: Result<Data, AppError>)
        requires
            hasher_total(*sha),
            self.wf(),
            self.contents_ok(),
        ensures
            ({
                let (c_id, data_id) = ids;
                &&& c_id >= self.contents().len() ==> r == Err::<Data, AppError>(AppError::IndexingError)
                &&& c_id < self.contents().len() ==> match self.contents()[c_id as int] {
                    Content::Link(..) => if data_id == 0 {
                        r matches Ok(d) && self.contents()[c_id as int].link_page(d.1@) && crate::hashing::hashes_to(
                            *sha,
                            d.1@,
                            d.0,
                        )
                    } else {
                        r == Err::<Data, AppError>(AppError::IndexingError)
                    },
                    Content::Data(_, _, tree) => {
                        &&& data_id < tree.leaves().len() ==> (r matches Ok(d) && d@ == page_data(
                            tree.leaves()[data_id as int],
                        ))
                        &&& data_id >= tree.leaves().len() ==> r == Err::<Data, AppError>(AppError::IndexingError)
                    },
                }
            }),
    {
        let (c_id, data_id) = ids;
        match self.get(c_id) {
            Some(content) => content.read_data(data_id, sha),
            None => Err(AppError::IndexingError),
        }
    }

    /// A page held by the transform info of link `c_id` (see
    /// `Content::read_link_data`).
    pub fn read_link_data(&self, ids: (ContentID, u16), d_type: DataType) -> (r: Result<(Data, u16), AppError>)
        requires
            self.wf(),
        ensures
            ({
                let (c_id, data_id) = ids;
                &&& c_id >= self.contents().len() ==> r == Err::<(Data, u16), AppError>(AppError::IndexingError)
                &&& c_id < self.contents().len() ==> match self.contents()[c_id as int] {
                    Content::Link(_, _, _, _, ti) => match ti {
                        Some(t) => if d_type == t.d_type {
                            if t.data@.contains_key(data_id) {
                                r matches Ok((d, n)) && d@ == t.data@[data_id]@ && n == t.size
                            } else {
                                r == Err::<(Data, u16), AppError>(AppError::IndexingError)
                            }
                        } else {
                            r == Err::<(Data, u16), AppError>(AppError::DatatypeMismatch)
                        },
                        None => r == Err::<(Data, u16), AppError>(AppError::LinkNonTransformative),
                    },
                    Content::Data(..) => r == Err::<(Data, u16), AppError>(AppError::DatatypeMismatch),
                }
            }),
    {
        let (c_id, data_id) = ids;
        match self.get(c_id) {
            Some(content) => content.read_link_data(d_type, data_id),
            None => Err(AppError::IndexingError),
        }
    }

    /// The type and hash of content `c_id`; no content at all gives
    /// `ContentEmpty`.
    pub fn get_root_content_typed_hash<H: Fn(&[u8]) -> u64>(&self, c_id: ContentID, sha: &H) -> (r: Result<(DataType, u64), AppError>)
        requires
            hasher_total(*sha),
            self.wf(),
            self.contents_ok(),
        ensures
            *self is Empty ==> r == Err::<(DataType, u64), AppError>(AppError::ContentEmpty),
            !(*self is Empty) && c_id >= self.contents().len() ==> r == Err::<(DataType, u64), AppError>(
                AppError::IndexingError,
            ),
            c_id < self.contents().len() ==> (r matches Ok((t, h)) && t == self.contents()[c_id as int].spec_data_type()
                && self.contents()[c_id as int].hashes_to(*sha, h)),
    {
        if let Datastore::Empty = self {
            return Err(AppError::ContentEmpty);
        }
        match self.get(c_id) {
            Some(content) => Ok((content.data_type(), content.hash(sha))),
            None => Err(AppError::IndexingError),
        }
    }

    /// The type and hash of every content, in order, in groups of 128.
    pub fn all_typed_root_hashes<H: Fn(&[u8]) -> u64>(&self, sha: &H) -> (r: Vec<Vec<(DataType, u64)>>)
        requires
            hasher_total(*sha),
            self.wf(),
            self.contents_ok(),
        ensures
            ({
                let n = self.contents().len();
                &&& r@.len() == (n + 127) / 128
                &&& forall|g: int| 0 <= g < r@.len() ==> (#[trigger] r@[g])@.len() == if g < n / 128 { 128 } else { n % 128 }
                &&& forall|g: int, k: int| 0 <= g < r@.len() && 0 <= k < r@[g]@.len() ==> {
                    let (t, h) = #[trigger] r@[g]@[k];
                    &&& t == self.contents()[128 * g + k].spec_data_type()
                    &&& self.contents()[128 * g + k].hashes_to(*sha, h)
                }
            }),
    {
        let ghost n = self.contents().len();
        proof {
            self.lemma_len();
        }
        let mut total: Vec<Vec<(DataType, u64)>> = Vec::new();
        let mut v: Vec<(DataType, u64)> = Vec::new();
        let mut c_id: u16 = 0;
        while c_id < u16::MAX
            invariant_except_break
                c_id <= n,
            invariant
                n == self.contents().len(),
                n <= u16::MAX,
                hasher_total(*sha),
                self.wf(),
                self.contents_ok(),
                total@.len() == c_id as int / 128,
                v@.len() == c_id as int % 128,
                forall|g: int| 0 <= g < total@.len() ==> (#[trigger] total@[g])@.len() == 128,
                forall|g: int, k: int| 0 <= g < total@.len() && 0 <= k < 128 ==> {
                    let (t, h) = #[trigger] total@[g]@[k];
                    &&& t == self.contents()[128 * g + k].spec_data_type()
                    &&& self.contents()[128 * g + k].hashes_to(*sha, h)
                },
                forall|k: int| 0 <= k < v@.len() ==> {
                    let (t, h) = #[trigger] v@[k];
                    &&& t == self.contents()[128 * total@.len() + k].spec_data_type()
                    &&& self.contents()[128 * total@.len() + k].hashes_to(*sha, h)
                },
            ensures
                c_id == n,
                total@.len() == c_id as int / 128,
                v@.len() == c_id as int % 128,
                forall|g: int| 0 <= g < total@.len() ==> (#[trigger] total@[g])@.len() == 128,
                forall|g: int, k: int| 0 <= g < total@.len() && 0 <= k < 128 ==> {
                    let (t, h) = #[trigger] total@[g]@[k];
                    &&& t == self.contents()[128 * g + k].spec_data_type()
                    &&& self.contents()[128 * g + k].hashes_to(*sha, h)
                },
                forall|k: int| 0 <= k < v@.len() ==> {
                    let (t, h) = #[trigger] v@[k];
                    &&& t == self.contents()[128 * total@.len() + k].spec_data_type()
                    &&& self.contents()[128 * total@.len() + k].hashes_to(*sha, h)
                },
            decreases u16::MAX - c_id,
        {
            match self.get_root_content_typed_hash(c_id, sha) {
                Ok(typed_hash) => {
                    v.push(typed_hash);
                    if v.len() == 128 {
                        let mut full: Vec<(DataType, u64)> = Vec::new();
                        std::mem::swap(&mut full, &mut v);
                        total.push(full);
                    }
                    c_id += 1;
                },
                Err(_) => {
                    break;
                },
            }
        }
        if v.len() > 0 {
            total.push(v);
        }
        total
    }

    /// The parts of page hashes held by the transform info of link `c_id`;
    /// no content at all gives `ContentEmpty`.
    pub fn link_transform_info_hashes(&self, c_id: ContentID, d_type: DataType) -> (r: Result<Vec<Data>, AppError>)
        requires
            self.wf(),
        ensures
            *self is Empty ==> r == Err::<Vec<Data>, AppError>(AppError::ContentEmpty),
            !(*self is Empty) && c_id >= self.contents().len() ==> r == Err::<Vec<Data>, AppError>(
                AppError::IndexingError,
            ),
            c_id < self.contents().len() ==> match self.contents()[c_id as int] {
                Content::Link(_, _, _, _, ti) => match ti {
                    Some(t) => r matches Ok(v) && crate::content::page_views(v@) == crate::content::page_views(
                        t.data_hashes@,
                    ),
                    None => r == Err::<Vec<Data>, AppError>(AppError::LinkNonTransformative),
                },
                Content::Data(..) => r == Err::<Vec<Data>, AppError>(AppError::DatatypeMismatch),
            },
    {
        if let Datastore::Empty = self {
            return Err(AppError::ContentEmpty);
        }
        match self.get(c_id) {
            Some(content) => content.link_ti_hashes(),
            None => Err(AppError::IndexingError),
        }
    }

    /// `hs` are the page hashes `content_bottom_hashes` answers for `c_id`.
    pub open spec fn bottom_hashes_of<H: Fn(&[u8]) -> u64>(self, c_id: ContentID, sha: H, hs: Seq<u64>) -> bool {
        ||| self is Filled && self.contents()[0].bottom_hashes(sha, hs)
        ||| self is Hashed && c_id < self.contents().len() && self.contents()[c_id as int].bottom_hashes(sha, hs)
    }

    /// The page hashes of content `c_id` (see `Content::data_hashes`). A
    /// datastore of a single content answers with it whatever `c_id`;
    /// beyond the contents of an inner node the answer is `Smthg`.
    pub fn content_bottom_hashes<H: Fn(&[u8]) -> u64>(&self, c_id: ContentID, sha: &H) -> (r: Result<Vec<u64>, AppError>)
        requires
            hasher_total(*sha),
            self.wf(),
            self.contents_ok(),
            forall|i: int| 0 <= i < self.contents().len() ==> (#[trigger] self.contents()[i] matches Content::Link(
                _,
                _,
                _,
                _,
                Some(t),
            ) ==> forall|k: int| 0 <= k < t.data_hashes@.len() ==> (#[trigger] t.data_hashes@[k]).1@.len() % 8 == 0),
        ensures
            *self is Empty ==> r == Err::<Vec<u64>, AppError>(AppError::ContentEmpty),
            *self is Filled ==> (r matches Ok(v) && self.contents()[0].bottom_hashes(*sha, v@)),
            r matches Ok(v) ==> self.bottom_hashes_of(c_id, *sha, v@),
            *self is Hashed && c_id >= self.contents().len() ==> r == Err::<Vec<u64>, AppError>(AppError::Smthg),
            *self is Hashed && c_id < self.contents().len() ==> (r matches Ok(v) && self.contents()[c_id as int].bottom_hashes(*sha, v@)),
        decreases self,
    {
        match self {
            Datastore::Empty => Err(AppError::ContentEmpty),
            Datastore::Filled(content) => {
                assert(self.contents()[0] == *content);
                Ok(content.data_hashes(sha))
            },
            Datastore::Hashed(s_store) => {
                proof {
                    s_store.left.lemma_len();
                    s_store.right.lemma_len();
                }
                if c_id >= s_store.data_count {
                    return Err(AppError::Smthg);
                }
                proof {
                    self.lemma_children();
                }
                let left_len = s_store.left.len();
                if c_id >= left_len {
                    let r = s_store.right.content_bottom_hashes(c_id - left_len, sha);
                    assert(s_store.right.contents()[c_id - left_len] == self.contents()[c_id as int]);
                    r
                } else {
                    let r = s_store.left.content_bottom_hashes(c_id, sha);
                    assert(s_store.left.contents()[c_id as int] == self.contents()[c_id as int]);
                    r
                }
            },
        }
    }

    /// Puts `content` in place of content `c_id` and returns the old one,
    /// leaving every hash as it was.
    fn replace_at(&mut self, c_id: ContentID, content: Content) -> (r: Content)
        requires
            old(self).wf(),
            c_id < old(self).contents().len(),
        ensures
            final(self).wf(),
            r == old(self).contents()[c_id as int],
            final(self).contents() == old(self).contents().update(c_id as int, content),
            *old(self) is Hashed ==> *final(self) is Hashed,
        decreases *old(self),
    {
        let mut myself = Datastore::Empty;
        std::mem::swap(self, &mut myself);
        match myself {
            Datastore::Empty => {
                assert(false);
                content
            },
            Datastore::Filled(old_content) => {
                *self = Datastore::Filled(content);
                assert(self.contents() =~= myself.contents().update(c_id as int, content));
                old_content
            },
            Datastore::Hashed(s_store) => {
                let mut st = *s_store;
                proof {
                    st.left.lemma_len();
                    st.right.lemma_len();
                    myself.lemma_children();
                }
                let ghost lc = st.left.contents();
                let ghost rc = st.right.contents();
                let left_len = st.left.len();
                let result = if c_id >= left_len {
                    st.right.replace_at(c_id - left_len, content)
                } else {
                    st.left.replace_at(c_id, content)
                };
                proof {
                    assert(st.left.contents() + st.right.contents() =~= (lc + rc).update(c_id as int, content));
                }
                *self = Datastore::Hashed(Box::new(st));
                result
            },
        }
    }

    /// Puts `content` in place of content `c_id`, rehashing the nodes on the
    /// way, and returns the old one (see `replaceable`): a link with a
    /// transform info is not replaced (`Smthg`), nor is data by a content of
    /// another data type (`DatatypeMismatch`).
    pub fn update<H: Fn(&[u8]) -> u64>(&mut self, c_id: ContentID, content: Content, sha: &H) -> (r: Result<Content, AppError>)
        requires
            hasher_total(*sha),
            old(self).wf(),
            old(self).links_fit(),
            content.link_fits(),
        ensures
            final(self).wf(),
            final(self).links_fit(),
            c_id >= old(self).contents().len() ==> r == Err::<Content, AppError>(AppError::IndexingError)
                && *final(self) == *old(self),
            c_id < old(self).contents().len() ==> {
                let oc = old(self).contents()[c_id as int];
                &&& oc matches Content::Link(_, _, _, _, Some(_)) ==> r == Err::<Content, AppError>(AppError::Smthg)
                    && final(self).contents() == old(self).contents()
                &&& oc is Data && !replaceable(oc, content) ==> r == Err::<Content, AppError>(AppError::DatatypeMismatch)
                    && final(self).contents() == old(self).contents()
                &&& replaceable(oc, content) ==> r == Ok::<Content, AppError>(oc)
                    && final(self).contents() == old(self).contents().update(c_id as int, content)
                &&& final(self).root_fresh(*sha)
            },
        decreases *old(self),
    {
        let mut myself = Datastore::Empty;
        std::mem::swap(self, &mut myself);
        match myself {
            Datastore::Empty => Err(AppError::IndexingError),
            Datastore::Filled(old_content) => {
                if c_id == 0 {
                    if let Content::Link(_, _, _, _, Some(_)) = &old_content {
                        *self = Datastore::Filled(old_content);
                        Err(AppError::Smthg)
                    } else if matches!(old_content, Content::Data(..)) && old_content.data_type() != content.data_type() {
                        *self = Datastore::Filled(old_content);
                        Err(AppError::DatatypeMismatch)
                    } else {
                        *self = Datastore::Filled(content);
                        assert(self.contents() =~= myself.contents().update(c_id as int, content));
                        Ok(old_content)
                    }
                } else {
                    *self = Datastore::Filled(old_content);
                    Err(AppError::IndexingError)
                }
            },
            Datastore::Hashed(s_store) => {
                let mut st = *s_store;
                proof {
                    st.left.lemma_len();
                    st.right.lemma_len();
                    myself.lemma_children();
                }
                if c_id >= st.data_count {
                    *self = Datastore::Hashed(Box::new(st));
                    return Err(AppError::IndexingError);
                }
                let ghost lc = st.left.contents();
                let ghost rc = st.right.contents();
                let left_len = st.left.len();
                let result = if c_id >= left_len {
                    st.right.update(c_id - left_len, content, sha)
                } else {
                    st.left.update(c_id, content, sha)
                };
                let hl = st.left.hash(sha);
                let hr = st.right.hash(sha);
                st.hash = double_hash(hl, hr, sha);
                proof {
                    if result is Ok {
                        assert(st.left.contents() + st.right.contents() =~= (lc + rc).update(c_id as int, content));
                    } else {
                        assert(st.left.contents() + st.right.contents() =~= lc + rc);
                    }
                }
                *self = Datastore::Hashed(Box::new(st));
                proof {
                    assert forall|i: int| 0 <= i < self.contents().len() implies (#[trigger] self.contents()[i]).link_fits() by {
                        self.lemma_children();
                        if i < st.left.contents().len() {
                            assert(st.left.contents()[i] == self.contents()[i]);
                        } else {
                            assert(st.right.contents()[i - st.left.contents().len()] == self.contents()[i]);
                        }
                    }
                }
                result
            },
        }
    }

    /// Replaces page `data_id` of content `c_id` (see
    /// `Content::update_data`); hashes of the nodes above are left as they
    /// were. A datastore of a single content is left empty when `c_id` is
    /// not 0.
    pub fn update_data<H: Fn(&[u8]) -> u64>(&mut self, ids: (ContentID, u16), data: Data, sha: &H) -> (r: Result<Data, AppError>)
        requires
            old(self).wf(),
            ids.0 < old(self).contents().len() ==> old(self).contents()[ids.0 as int].update_data_ok(ids.1, data, *sha),
        ensures
            final(self).wf(),
            ({
                let (c_id, data_id) = ids;
                &&& c_id >= old(self).contents().len() ==> r == Err::<Data, AppError>(AppError::IndexingError)
                    && (if *old(self) is Filled { *final(self) is Empty } else { *final(self) == *old(self) })
                &&& c_id < old(self).contents().len() ==> {
                    &&& final(self).contents().len() == old(self).contents().len()
                    &&& Content::data_updated(old(self).contents()[c_id as int], data_id, data, *sha, final(self).contents()[c_id as int], r)
                    &&& forall|j: int| 0 <= j < old(self).contents().len() && j != c_id ==> #[trigger] final(self).contents()[j]
                        == old(self).contents()[j]
                }
            }),
    {
        let (c_id, data_id) = ids;
        if let Datastore::Filled(_) = self {
            if c_id != 0 {
                *self = Datastore::Empty;
                return Err(AppError::IndexingError);
            }
        }
        proof {
            old(self).lemma_len();
        }
        if c_id >= self.len() {
            return Err(AppError::IndexingError);
        }
        let mut content = self.replace_at(c_id, Content::Data(DataType::Data(0), 0, ContentTree::Empty(0)));
        let result = content.update_data(data_id, data, sha);
        let _ = self.replace_at(c_id, content);
        proof {
            assert forall|j: int| 0 <= j < old(self).contents().len() && j != c_id implies #[trigger] self.contents()[j]
                == old(self).contents()[j] by {}
        }
        result
    }

    /// Takes the transform info out of link `c_id`, leaving the link
    /// without one. A datastore of a single content is left empty when
    /// `c_id` is not 0.
    pub fn take_transform_info(&mut self, c_id: ContentID) -> (r: Result<TransformInfo, AppError>)
        requires
            old(self).wf(),
        ensures
            final(self).wf(),
            c_id >= old(self).contents().len() ==> r == Err::<TransformInfo, AppError>(AppError::IndexingError)
                && (if *old(self) is Filled { *final(self) is Empty } else { *final(self) == *old(self) }),
            c_id < old(self).contents().len() ==> {
                &&& final(self).contents().len() == old(self).contents().len()
                &&& forall|j: int| 0 <= j < old(self).contents().len() && j != c_id ==> #[trigger] final(self).contents()[j]
                    == old(self).contents()[j]
                &&& match old(self).contents()[c_id as int] {
                    Content::Link(sn, c, d, t, ti) => final(self).contents()[c_id as int] == Content::Link(sn, c, d, t, None)
                        && match ti {
                        Some(x) => r == Ok::<TransformInfo, AppError>(x),
                        None => r == Err::<TransformInfo, AppError>(AppError::LinkNonTransformative),
                    },
                    Content::Data(..) => r == Err::<TransformInfo, AppError>(AppError::DatatypeMismatch)
                        && final(self).contents()[c_id as int] == old(self).contents()[c_id as int],
                }
            },
    {
        if let Datastore::Filled(_) = self {
            if c_id != 0 {
                *self = Datastore::Empty;
                return Err(AppError::IndexingError);
            }
        }
        proof {
            old(self).lemma_len();
        }
        if c_id >= self.len() {
            return Err(AppError::IndexingError);
        }
        let content = self.replace_at(c_id, Content::Data(DataType::Data(0), 0, ContentTree::Empty(0)));
        let (back, result) = match content {
            Content::Link(s_name, l_c_id, descr, tags, ti) => {
                let res = match ti {
                    Some(t) => Ok(t),
                    None => Err(AppError::LinkNonTransformative),
                };
                (Content::Link(s_name, l_c_id, descr, tags, None), res)
            },
            other => (other, Err(AppError::DatatypeMismatch)),
        };
        let _ = self.replace_at(c_id, back);
        proof {
            assert forall|j: int| 0 <= j < old(self).contents().len() && j != c_id implies #[trigger] self.contents()[j]
                == old(self).contents()[j] by {}
        }
        result
    }

    /// Gives link `c_id` the transform info `ti`. A datastore of a single
    /// content is left empty when `c_id` is not 0.
    pub fn restore_transform_info(&mut self, c_id: ContentID, ti: TransformInfo) -> (r: Result<(), AppError>)
        requires
            old(self).wf(),
        ensures
            final(self).wf(),
            c_id >= old(self).contents().len() ==> r == Err::<(), AppError>(AppError::IndexingError)
                && (if *old(self) is Filled { *final(self) is Empty } else { *final(self) == *old(self) }),
            c_id < old(self).contents().len() ==> {
                &&& final(self).contents().len() == old(self).contents().len()
                &&& forall|j: int| 0 <= j < old(self).contents().len() && j != c_id ==> #[trigger] final(self).contents()[j]
                    == old(self).contents()[j]
                &&& match old(self).contents()[c_id as int] {
                    Content::Link(sn, c, d, t, _) => final(self).contents()[c_id as int] == Content::Link(sn, c, d, t, Some(ti))
                        && r == Ok::<(), AppError>(()),
                    Content::Data(..) => r == Err::<(), AppError>(AppError::DatatypeMismatch)
                        && final(self).contents()[c_id as int] == old(self).contents()[c_id as int],
                }
            },
    {
        if let Datastore::Filled(_) = self {
            if c_id != 0 {
                *self = Datastore::Empty;
                return Err(AppError::IndexingError);
            }
        }
        proof {
            old(self).lemma_len();
        }
        if c_id >= self.len() {
            return Err(AppError::IndexingError);
        }
        let content = self.replace_at(c_id, Content::Data(DataType::Data(0), 0, ContentTree::Empty(0)));
        let (back, result) = match content {
            Content::Link(s_name, l_c_id, descr, tags, _old) => (Content::Link(s_name, l_c_id, descr, tags, Some(ti)), Ok(())),
            other => (other, Err(AppError::DatatypeMismatch)),
        };
        let _ = self.replace_at(c_id, back);
        proof {
            assert forall|j: int| 0 <= j < old(self).contents().len() && j != c_id implies #[trigger] self.contents()[j]
                == old(self).contents()[j] by {}
        }
        result
    }

    /// Inserts page `data` at `d_id` into content `c_id` (see `Content::insert`). The content is taken out, changed and put back (which
    /// rehashes the nodes above it); a link with a transform info stays as
    /// its copy.
    pub fn insert_data<H: Fn(&[u8]) -> u64>(&mut self, c_id: ContentID, d_id: u16, data: Data, sha: &H) -> (r: Result<u64, AppError>)
        requires
            hasher_total(*sha),
            old(self).wf(),
            old(self).links_fit(),
            c_id < old(self).contents().len() ==> old(self).contents()[c_id as int].insert_ok(d_id, data, *sha),
        ensures
            final(self).wf(),
            final(self).links_fit(),
            c_id >= old(self).contents().len() ==> r == Err::<u64, AppError>(AppError::IndexingError)
                && *final(self) == *old(self),
            c_id < old(self).contents().len() ==> {
                &&& final(self).contents().len() == old(self).contents().len()
                &&& exists|c2: Content| #[trigger] Content::page_inserted(old(self).contents()[c_id as int], d_id, data, *sha, c2, r) && put_back(
                    old(self).contents()[c_id as int],
                    c2,
                    final(self).contents()[c_id as int],
                )
                &&& forall|j: int| 0 <= j < old(self).contents().len() && j != c_id ==> #[trigger] final(self).contents()[j]
                    == old(self).contents()[j]
            },
    {
        let take_result = self.take(c_id);
        let mut content = match take_result {
            Ok(c) => c,
            Err(e) => {
                return Err(e);
            },
        };
        let ghost taken = *self;
        proof {
            lemma_shell_fits(taken.contents()[c_id as int], content);
            assert forall|i: int| 0 <= i < taken.contents().len() implies (#[trigger] taken.contents()[i]).link_fits() by {
                if i != c_id {
                    assert(taken.contents()[i] == old(self).contents()[i]);
                }
            }
        }
        let result = content.insert(d_id, data, sha);
        let _ = self.update(c_id, content, sha);
        proof {
            assert forall|j: int| 0 <= j < old(self).contents().len() && j != c_id implies #[trigger] self.contents()[j]
                == old(self).contents()[j] by {
                assert(taken.contents()[j] == old(self).contents()[j]);
            }
        }
        result
    }

    /// Appends page `data` to content `c_id` (see `Content::push_data`). The content is taken out, changed and put back (which
    /// rehashes the nodes above it); a link with a transform info stays as
    /// its copy.
    pub fn append_data<H: Fn(&[u8]) -> u64>(&mut self, c_id: ContentID, data: Data, sha: &H) -> (r: Result<u64, AppError>)
        requires
            hasher_total(*sha),
            old(self).wf(),
            old(self).links_fit(),
            c_id < old(self).contents().len() ==> old(self).contents()[c_id as int].push_ok(data, *sha),
        ensures
            final(self).wf(),
            final(self).links_fit(),
            c_id >= old(self).contents().len() ==> r == Err::<u64, AppError>(AppError::IndexingError)
                && *final(self) == *old(self),
            c_id < old(self).contents().len() ==> {
                &&& final(self).contents().len() == old(self).contents().len()
                &&& exists|c2: Content| #[trigger] Content::pushed(old(self).contents()[c_id as int], data, *sha, c2, r) && put_back(
                    old(self).contents()[c_id as int],
                    c2,
                    final(self).contents()[c_id as int],
                )
                &&& forall|j: int| 0 <= j < old(self).contents().len() && j != c_id ==> #[trigger] final(self).contents()[j]
                    == old(self).contents()[j]
            },
    {
        let take_result = self.take(c_id);
        let mut content = match take_result {
            Ok(c) => c,
            Err(e) => {
                return Err(e);
            },
        };
        let ghost taken = *self;
        proof {
            lemma_shell_fits(taken.contents()[c_id as int], content);
            assert forall|i: int| 0 <= i < taken.contents().len() implies (#[trigger] taken.contents()[i]).link_fits() by {
                if i != c_id {
                    assert(taken.contents()[i] == old(self).contents()[i]);
                }
            }
        }
        let result = content.push_data(data, sha);
        let _ = self.update(c_id, content, sha);
        proof {
            assert forall|j: int| 0 <= j < old(self).contents().len() && j != c_id implies #[trigger] self.contents()[j]
                == old(self).contents()[j] by {
                assert(taken.contents()[j] == old(self).contents()[j]);
            }
        }
        result
    }

    /// Removes the last page of content `c_id` (see `Content::pop_data`). The content is taken out, changed and put back (which
    /// rehashes the nodes above it); a link with a transform info stays as
    /// its copy.
    pub fn pop_data<H: Fn(&[u8]) -> u64>(&mut self, c_id: ContentID, sha: &H) -> (r: Result<Data, AppError>)
        requires
            hasher_total(*sha),
            old(self).wf(),
            old(self).links_fit(),
            c_id < old(self).contents().len() ==> old(self).contents()[c_id as int].pop_ok(*sha),
        ensures
            final(self).wf(),
            final(self).links_fit(),
            c_id >= old(self).contents().len() ==> r == Err::<Data, AppError>(AppError::IndexingError)
                && *final(self) == *old(self),
            c_id < old(self).contents().len() ==> {
                &&& final(self).contents().len() == old(self).contents().len()
                &&& exists|c2: Content| #[trigger] Content::popped(old(self).contents()[c_id as int], *sha, c2, r) && put_back(
                    old(self).contents()[c_id as int],
                    c2,
                    final(self).contents()[c_id as int],
                )
                &&& forall|j: int| 0 <= j < old(self).contents().len() && j != c_id ==> #[trigger] final(self).contents()[j]
                    == old(self).contents()[j]
            },
    {
        let take_result = self.take(c_id);
        let mut content = match take_result {
            Ok(c) => c,
            Err(e) => {
                return Err(e);
            },
        };
        let ghost taken = *self;
        proof {
            lemma_shell_fits(taken.contents()[c_id as int], content);
            assert forall|i: int| 0 <= i < taken.contents().len() implies (#[trigger] taken.contents()[i]).link_fits() by {
                if i != c_id {
                    assert(taken.contents()[i] == old(self).contents()[i]);
                }
            }
        }
        let result = content.pop_data(sha);
        let _ = self.update(c_id, content, sha);
        proof {
            assert forall|j: int| 0 <= j < old(self).contents().len() && j != c_id implies #[trigger] self.contents()[j]
                == old(self).contents()[j] by {
                assert(taken.contents()[j] == old(self).contents()[j]);
            }
        }
        result
    }

    /// Removes page `d_id` of content `c_id` (see `Content::remove_data`). The content is taken out, changed and put back (which
    /// rehashes the nodes above it); a link with a transform info stays as
    /// its copy.
    pub fn remove_data<H: Fn(&[u8]) -> u64>(&mut self, c_id: ContentID, d_id: u16, sha: &H) -> (r: Result<Data, AppError>)
        requires
            hasher_total(*sha),
            old(self).wf(),
            old(self).links_fit(),
            c_id < old(self).contents().len() ==> old(self).contents()[c_id as int].remove_ok(d_id, *sha),
        ensures
            final(self).wf(),
            final(self).links_fit(),
            c_id >= old(self).contents().len() ==> r == Err::<Data, AppError>(AppError::IndexingError)
                && *final(self) == *old(self),
            c_id < old(self).contents().len() ==> {
                &&& final(self).contents().len() == old(self).contents().len()
                &&& exists|c2: Content| #[trigger] Content::page_removed(old(self).contents()[c_id as int], d_id, *sha, c2, r) && put_back(
                    old(self).contents()[c_id as int],
                    c2,
                    final(self).contents()[c_id as int],
                )
                &&& forall|j: int| 0 <= j < old(self).contents().len() && j != c_id ==> #[trigger] final(self).contents()[j]
                    == old(self).contents()[j]
            },
    {
        let take_result = self.take(c_id);
        let mut content = match take_result {
            Ok(c) => c,
            Err(e) => {
                return Err(e);
            },
        };
        let ghost taken = *self;
        proof {
            lemma_shell_fits(taken.contents()[c_id as int], content);
            assert forall|i: int| 0 <= i < taken.contents().len() implies (#[trigger] taken.contents()[i]).link_fits() by {
                if i != c_id {
                    assert(taken.contents()[i] == old(self).contents()[i]);
                }
            }
        }
        let result = content.remove_data(d_id, sha);
        let _ = self.update(c_id, content, sha);
        proof {
            assert forall|j: int| 0 <= j < old(self).contents().len() && j != c_id implies #[trigger] self.contents()[j]
                == old(self).contents()[j] by {
                assert(taken.contents()[j] == old(self).contents()[j]);
            }
        }
        result
    }

    /// Records a part of page hashes (`is_hash`) or a page of link
    /// `content_id`'s transform info (see `TransformInfo::add_hash` and
    /// `TransformInfo::add_data`), and answers with its data type, the parts
    /// of page hashes still missing (ascending) and the pages still missing
    /// below `part_no`. A content with no transform info gives
    /// `LinkNonTransformative` (see `take_transform_info` for what is left).
    pub fn update_transformative_link(
        &mut self,
        is_hash: bool,
        content_id: ContentID,
        part_no: u16,
        total_parts: u16,
        data: Data,
    ) -> (r: Result<(DataType, Vec<u16>, Vec<u16>), AppError>)
        requires
            old(self).wf(),
            !is_hash && content_id < old(self).contents().len() ==> (old(self).contents()[content_id as int] matches Content::Link(
                _,
                _,
                _,
                _,
                Some(t),
            ) ==> t.add_data_ok(part_no)),
        ensures
            final(self).wf(),
            content_id < old(self).contents().len() ==> final(self).contents().len() == old(self).contents().len()
                && forall|j: int| 0 <= j < old(self).contents().len() && j != content_id ==> #[trigger] final(self).contents()[j]
                == old(self).contents()[j],
            match (if content_id < old(self).contents().len() { Some(old(self).contents()[content_id as int]) } else { None }) {
                Some(Content::Link(sn, c, d, t, Some(ti))) => final(self).contents()[content_id as int] matches Content::Link(
                    sn2,
                    c2,
                    d2,
                    t2,
                    Some(ti2),
                ) && sn2 == sn && c2 == c && d2 == d && t2 == t && (if is_hash {
                    TransformInfo::hash_added(&ti, part_no, data, &ti2)
                } else {
                    TransformInfo::data_added(&ti, part_no, total_parts, data, &ti2)
                }) && (r matches Ok((dt, mh, mp)) && dt == ti2.d_type && mh@.to_set() == ti2.missing_hashes@
                    && mh@.no_duplicates() && (forall|a: int, b: int| 0 <= a < b < mh@.len() ==> mh@[a] < mh@[b])
                    && mp@ == Seq::new(part_no as nat, |i: int| i as u16).filter(|i: u16| !ti2.data@.contains_key(i))),
                Some(Content::Link(sn, c, d, t, None)) => r == Err::<(DataType, Vec<u16>, Vec<u16>), AppError>(
                    AppError::LinkNonTransformative,
                ) && final(self).contents()[content_id as int] == Content::Link(sn, c, d, t, None),
                Some(other) => r == Err::<(DataType, Vec<u16>, Vec<u16>), AppError>(AppError::LinkNonTransformative)
                    && final(self).contents()[content_id as int] == other,
                None => r == Err::<(DataType, Vec<u16>, Vec<u16>), AppError>(AppError::LinkNonTransformative)
                    && (if *old(self) is Filled { *final(self) is Empty } else { *final(self) == *old(self) }),
            },
    {
        match self.take_transform_info(content_id) {
            Ok(mut tiu) => {
                if is_hash {
                    tiu.add_hash(part_no, total_parts, data);
                } else {
                    tiu.add_data(part_no, total_parts, data);
                }
                let missing_hashes = tiu.what_hashes_are_missing();
                let missing_parts = tiu.what_data_is_missing(part_no);
                let d_type = tiu.d_type;
                let _res = self.restore_transform_info(content_id, tiu);
                Ok((d_type, missing_hashes, missing_parts))
            },
            Err(_) => Err(AppError::LinkNonTransformative),
        }
    }
}

/// `content` may take the place of `old`: a link without a transform info
/// gives way to any content, data only to a content of its data type.
pub open spec fn replaceable(old: Content, content: Content) -> bool {
    match old {
        Content::Link(_, _, _, _, ti) => ti is None,
        Content::Data(..) => content.spec_data_type() == old.spec_data_type(),
    }
}

/// `now` is what stands at a content's place after it was taken out as
/// `before`, changed into `after` and put back: `after`, or the copy left
/// in its place when `before` is a link with a transform info.
pub open spec fn put_back(before: Content, after: Content, now: Content) -> bool {
    if before matches Content::Link(_, _, _, _, Some(_)) {
        now.shell_of(before)
    } else {
        now == after
    }
}

/// A shell of a content that fits a page fits a page too.
pub proof fn lemma_shell_fits(shell: Content, orig: Content)
    requires
        shell.shell_of(orig),
        orig.link_fits(),
    ensures
        shell.link_fits(),
{
    if let Content::Link(sn, c, d, t, ti) = orig {
        if let Content::Link(sn2, c2, d2, t2, ti2) = shell {
            assert(d2.spec_bytes() == d.spec_bytes());
        }
    }
}

} // verus!
