//! A page: up to 1024 bytes together with their hash.

use vstd::prelude::*;
use crate::hashing::{hasher_total, hashes_to};

verus! {

/// The most bytes a page may hold.
pub const MAX_PAGE_LEN: usize = 1024;

/// A page of content: its hash (field 0) and its bytes (field 1). A page
/// built by `new` holds the hash of its bytes; an empty page built by
/// `empty` holds only a hash.
#[derive(Debug)]
pub struct Data(pub u64, pub Vec<u8>);

impl View for Data {
    type V = (u64, Seq<u8>);

    open spec fn view(&self) -> (u64, Seq<u8>) {
        (self.0, self.1@)
    }
}

impl Clone for Data {
    fn clone(&self) -> (r: Self)
        ensures
            r@ == self@,
    {
        Data(self.0, self.1.clone())
    }
}

impl Data {
    /// A page holds at most `MAX_PAGE_LEN` bytes.
    pub open spec fn wf(&self) -> bool {
        self.1@.len() <= 1024
    }

    /// A page of `contents`, hashed by `sha`; the contents come back as the
    /// error when they exceed 1024 bytes.
    pub fn new<H: Fn(&[u8]) -> u64>(contents: Vec<u8>, sha: &H) -> (r: Result<Self, Vec<u8>>)
        requires
            hasher_total(*sha),
        ensures
            contents@.len() > 1024 <==> r is Err,
            r matches Err(c) ==> c@ == contents@,
            r matches Ok(d) ==> d.1@ == contents@ && hashes_to(*sha, contents@, d.0) && d.wf(),
    {
        if contents.len() > MAX_PAGE_LEN {
            return Err(contents);
        }
        let s = contents.as_slice();
        assert(call_requires(*sha, (s,)));
        let h = sha(s);
        Ok(Data(h, contents))
    }

    /// A page with no bytes that stands for a page of the given hash.
    pub fn empty(hash: u64) -> (r: Self)
        ensures
            r.0 == hash,
            r.1@.len() == 0,
    {
        Data(hash, Vec::new())
    }

    pub fn is_empty(&self) -> (r: bool)
        ensures
            r == (self.1@.len() == 0),
    {
        self.1.len() == 0
    }

    pub fn bytes(self) -> (r: Vec<u8>)
        ensures
            r@ == self.1@,
    {
        self.1
    }

    pub fn ref_bytes(&self) -> (r: &Vec<u8>)
        ensures
            r@ == self.1@,
    {
        &self.1
    }

    pub fn first_byte(&self) -> (r: u8)
        requires
            self.1@.len() > 0,
        ensures
            r == self.1@[0],
    {
        self.1[0]
    }

    pub fn second_byte(&self) -> (r: u8)
        requires
            self.1@.len() > 1,
        ensures
            r == self.1@[1],
    {
        self.1[1]
    }

    pub fn third_byte(&self) -> (r: u8)
        requires
            self.1@.len() > 2,
        ensures
            r == self.1@[2],
    {
        self.1[2]
    }

    pub fn len(&self) -> (r: usize)
        ensures
            r == self.1@.len(),
    {
        self.1.len()
    }

    pub fn get_hash(&self) -> (r: u64)
        ensures
            r == self.0,
    {
        self.0
    }

    /// Recomputes the hash from the bytes, stores it and returns it.
    pub fn hash<H: Fn(&[u8]) -> u64>(&mut self, sha: &H) -> (r: u64)
        requires
            hasher_total(*sha),
        ensures
            final(self).1@ == old(self).1@,
            final(self).0 == r,
            hashes_to(*sha, old(self).1@, r),
    {
        let s = self.1.as_slice();
        assert(call_requires(*sha, (s,)));
        let h = sha(s);
        self.0 = h;
        h
    }

    /// The payload of a sync message carrying this page: its bytes.
    pub fn to_sync(self) -> (r: Vec<u8>)
        ensures
            r@ == self.1@,
    {
        self.1
    }

    /// The payload of a cast message: `prefix` followed by this page's bytes.
    pub fn to_cast(self, prefix: Vec<u8>) -> (r: Vec<u8>)
        ensures
            r@ == prefix@ + self.1@,
    {
        let mut prefix = prefix;
        let mut b = self.1;
        prefix.append(&mut b);
        prefix
    }
}

} // verus!
