//! A vector of fixed-size byte blobs.
use vstd::prelude::*;

verus! {

/// Blobs of `blob_size` bytes each, stored back to back.
#[derive(Debug, Default)]
pub struct BlobVec {
    vec: Vec<u8>,
    blob_size: u32,
}

impl BlobVec {
    /// The bytes of all blobs.
    pub closed spec fn bytes(&self) -> Seq<u8> {
        self.vec@
    }

    pub closed spec fn spec_blob_size(&self) -> u32 {
        self.blob_size
    }

    pub fn new(blob_size: u32) -> (r: BlobVec)
        ensures
            r.bytes().len() == 0,
            r.spec_blob_size() == blob_size,
    {
        BlobVec { vec: Vec::new(), blob_size }
    }

    pub fn is_empty(&self) -> (r: bool)
        ensures
            r == (self.bytes().len() == 0),
    {
        self.vec.len() == 0
    }

    /// The number of whole blobs.
    pub fn len(&self) -> (r: usize)
        requires
            self.spec_blob_size() > 0,
        ensures
            r == self.bytes().len() / (self.spec_blob_size() as nat),
    {
        self.vec.len() / (self.blob_size as usize)
    }

    /// The byte offset of the blob at `index`, if it starts inside the
    /// bytes.
    pub fn get(&self, index: usize) -> (r: Option<usize>)
        requires
            index * self.spec_blob_size() <= usize::MAX,
        ensures
            r == if index * self.spec_blob_size() < self.bytes().len() {
                Some((index * self.spec_blob_size()) as usize)
            } else {
                None::<usize>
            },
    {
        let offset = index * (self.blob_size as usize);
        if offset < self.vec.len() {
            Some(offset)
        } else {
            None
        }
    }

    /// Appends a zeroed blob after the whole blobs and returns its byte
    /// offset.
    pub fn alloc_zeroed(&mut self) -> (r: usize)
        requires
            old(self).spec_blob_size() > 0,
            old(self).bytes().len() + old(self).spec_blob_size() <= usize::MAX,
        ensures
            r == old(self).bytes().len(),
            final(self).spec_blob_size() == old(self).spec_blob_size(),
            final(self).bytes() == old(self).bytes() + Seq::new(old(self).spec_blob_size() as nat, |i: int| 0u8),
    {
        let len = self.vec.len();
        let mut i: u32 = 0;
        while i < self.blob_size
            invariant
                0 <= i <= self.blob_size,
                self.blob_size == old(self).blob_size,
                self.vec@ == old(self).vec@ + Seq::new(i as nat, |j: int| 0u8),
            decreases self.blob_size - i,
        {
            self.vec.push(0);
            i = i + 1;
            assert(self.vec@ =~= old(self).vec@ + Seq::new(i as nat, |j: int| 0u8));
        }
        len
    }
}

} // verus!
