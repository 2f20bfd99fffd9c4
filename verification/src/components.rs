//! The rows of an archetype as one byte vector: each row holds all the
//! components of one entity, `components_size` bytes in all.
use crate::archetype::Row;
use vstd::prelude::*;

verus! {

/// The rows of an archetype, back to back.
#[derive(Debug, Default)]
pub struct ComponentsVec {
    vec: Vec<u8>,
    components_size: u32,
}

impl ComponentsVec {
    /// The bytes of all rows.
    pub closed spec fn bytes(&self) -> Seq<u8> {
        self.vec@
    }

    pub closed spec fn spec_components_size(&self) -> u32 {
        self.components_size
    }

    pub fn new(components_size: u32) -> (r: ComponentsVec)
        ensures
            r.bytes().len() == 0,
            r.spec_components_size() == components_size,
    {
        ComponentsVec { vec: Vec::new(), components_size }
    }

    pub fn is_empty(&self) -> (r: bool)
        ensures
            r == (self.bytes().len() == 0),
    {
        self.vec.len() == 0
    }

    /// The number of bytes.
    pub fn len(&self) -> (r: usize)
        ensures
            r == self.bytes().len(),
    {
        self.vec.len()
    }

    /// The byte offset of row `index`, if it starts inside the bytes.
    pub fn get(&self, index: Row) -> (r: Option<usize>)
        requires
            index.0 * self.spec_components_size() <= usize::MAX,
        ensures
            r == if index.0 * self.spec_components_size() < self.bytes().len() {
                Some((index.0 * self.spec_components_size()) as usize)
            } else {
                None::<usize>
            },
    {
        let offset = (index.0 as usize) * (self.components_size as usize);
        if offset < self.vec.len() {
            Some(offset)
        } else {
            None
        }
    }

    /// Appends a zeroed row; returns its row number and byte offset.
    pub fn alloc_row(&mut self) -> (r: (Row, usize))
        requires
            old(self).spec_components_size() > 0,
            old(self).bytes().len() + old(self).spec_components_size() <= usize::MAX,
            old(self).bytes().len() / (old(self).spec_components_size() as nat) <= u32::MAX,
        ensures
            row_allocated(*old(self), *final(self), r),
    {
        let len = self.vec.len();
        let mut i: u32 = 0;
        while i < self.components_size
            invariant
                0 <= i <= self.components_size,
                self.components_size == old(self).components_size,
                self.vec@ == old(self).vec@ + Seq::new(i as nat, |j: int| 0u8),
            decreases self.components_size - i,
        {
            self.vec.push(0);
            i = i + 1;
            assert(self.vec@ =~= old(self).vec@ + Seq::new(i as nat, |j: int| 0u8));
        }
        let row = (len / (self.components_size as usize)) as u32;
        (Row(row), len)
    }

    /// An iterator over the whole rows.
    pub fn iter(&self) -> (r: ComponentsIter)
        requires
            self.spec_components_size() > 0,
        ensures
            r.spec_components_size() == self.spec_components_size(),
            r.spec_index() == 0,
            r.spec_len() == self.bytes().len() / (self.spec_components_size() as nat),
            r.spec_offset() == 0,
    {
        ComponentsIter {
            components_size: self.components_size as usize,
            index: 0,
            len: self.vec.len() / (self.components_size as usize),
            offset: 0,
        }
    }
}

/// Walks the rows of a `ComponentsVec`, yielding the byte offset of each.
#[derive(Debug)]
pub struct ComponentsIter {
    components_size: usize,
    index: usize,
    len: usize,
    offset: usize,
}

impl ComponentsIter {
    pub closed spec fn spec_components_size(&self) -> usize {
        self.components_size
    }

    pub closed spec fn spec_index(&self) -> usize {
        self.index
    }

    pub closed spec fn spec_len(&self) -> usize {
        self.len
    }

    pub closed spec fn spec_offset(&self) -> usize {
        self.offset
    }

    /// An iterator over no rows.
    pub fn empty() -> (r: ComponentsIter)
        ensures
            r.spec_components_size() == 0,
            r.spec_index() == 0,
            r.spec_len() == 0,
            r.spec_offset() == 0,
    {
        ComponentsIter { components_size: 0, index: 0, len: 0, offset: 0 }
    }

    pub fn components_size(&self) -> (r: usize)
        ensures
            r == self.spec_components_size(),
    {
        self.components_size
    }

    /// The number of rows yielded so far.
    pub fn index(&self) -> (r: usize)
        ensures
            r == self.spec_index(),
    {
        self.index
    }

    /// The rows left, as both bounds: none once the index has reached the
    /// length.
    pub fn size_hint(&self) -> (r: (usize, Option<usize>))
        ensures
            r.0 == if self.spec_index() < self.spec_len() { self.spec_len() - self.spec_index() } else { 0 },
            r.1 == Some(r.0),
    {
        let n = self.len.saturating_sub(self.index);
        (n, Some(n))
    }

    /// The offset of the next row, if any is left.
    pub fn next(&mut self) -> (r: Option<usize>)
        requires
            old(self).spec_offset() == old(self).spec_index() * old(self).spec_components_size(),
            old(self).spec_len() * old(self).spec_components_size() <= usize::MAX,
        ensures
            iter_stepped(*old(self), *final(self), r),
    {
        if self.index < self.len {
            self.index = self.index + 1;
            let p = self.offset;
            proof {
                assert(self.index * self.components_size <= self.len * self.components_size) by (nonlinear_arith)
                    requires
                        self.index <= self.len,
                ;
                assert(self.index * self.components_size == p + self.components_size) by (nonlinear_arith)
                    requires
                        p == (self.index - 1) * self.components_size,
                ;
            }
            self.offset = self.offset + self.components_size;
            return Some(p);
        }
        None
    }
}

/// `v1` is `v0` with one zeroed row appended; `r` is its row and the
/// offset of its bytes.
pub open spec fn row_allocated(v0: ComponentsVec, v1: ComponentsVec, r: (Row, usize)) -> bool {
    &&& r.0.0 == v0.bytes().len() / (v0.spec_components_size() as nat)
    &&& r.1 == v0.bytes().len()
    &&& v1.spec_components_size() == v0.spec_components_size()
    &&& v1.bytes() == v0.bytes() + Seq::new(v0.spec_components_size() as nat, |i: int| 0u8)
}

/// The byte length counts bytes, not rows: after `k` rows allocated into an
/// empty vector with rows of `s > 0` bytes, it is `k * s`, and the `i`-th
/// allocation gave row `i` at offset `i * s`.
pub proof fn lemma_allocs(vs: Seq<ComponentsVec>, rows: Seq<(Row, usize)>)
    requires
        vs.len() == rows.len() + 1,
        vs[0].bytes().len() == 0,
        vs[0].spec_components_size() > 0,
        forall|j: int| 0 <= j < rows.len() ==> row_allocated(#[trigger] vs[j], vs[j + 1], rows[j]),
    ensures
        forall|j: int|
            0 <= j < vs.len() ==> (#[trigger] vs[j]).bytes().len() == j * vs[0].spec_components_size()
                && vs[j].spec_components_size() == vs[0].spec_components_size(),
        forall|j: int| 0 <= j < rows.len() ==> (#[trigger] rows[j]).0.0 == j && rows[j].1 == j * vs[0].spec_components_size(),
    decreases rows.len(),
{
    let s = vs[0].spec_components_size() as int;
    if rows.len() > 0 {
        let n = rows.len() - 1;
        let vp = vs.subrange(0, n + 1);
        let rp = rows.subrange(0, n);
        assert forall|j: int| 0 <= j < rp.len() implies row_allocated(#[trigger] vp[j], vp[j + 1], rp[j]) by {
            assert(vp[j] == vs[j] && vp[j + 1] == vs[j + 1] && rp[j] == rows[j]);
        }
        lemma_allocs(vp, rp);
        assert(vp[n] == vs[n]);
        assert(row_allocated(vs[n], vs[n + 1], rows[n]));
        assert(vs[n].bytes().len() == n * s);
        assert((n * s) / s == n) by (nonlinear_arith)
            requires
                s > 0,
                n >= 0,
        ;
        assert(n * s + s == (n + 1) * s) by (nonlinear_arith);
        assert forall|j: int| 0 <= j < vs.len() implies (#[trigger] vs[j]).bytes().len() == j * s
            && vs[j].spec_components_size() == s by {
            if j <= n {
                assert(vp[j] == vs[j]);
            }
        }
        assert forall|j: int| 0 <= j < rows.len() implies (#[trigger] rows[j]).0.0 == j && rows[j].1 == j * s by {
            if j < n {
                assert(rp[j] == rows[j]);
            }
        }
    }
}

/// `i1` is `i0` after one `next`, which returned `r`: the offset of the
/// next row and a step forward while rows are left, nothing otherwise.
pub open spec fn iter_stepped(i0: ComponentsIter, i1: ComponentsIter, r: Option<usize>) -> bool {
    &&& i1.spec_components_size() == i0.spec_components_size()
    &&& i1.spec_len() == i0.spec_len()
    &&& i1.spec_offset() == i1.spec_index() * i1.spec_components_size()
    &&& i0.spec_index() < i0.spec_len() ==> r == Some(i0.spec_offset()) && i1.spec_index() == i0.spec_index() + 1
    &&& i0.spec_index() >= i0.spec_len() ==> r is None && i1.spec_index() == i0.spec_index()
}

/// Over `j` calls of `next` on a fresh iterator of `n` rows, the index
/// reaches `min(j, n)`, and exactly the first `min(j, n)` calls give a row.
pub proof fn lemma_iter_steps(its: Seq<ComponentsIter>, rs: Seq<Option<usize>>)
    requires
        its.len() == rs.len() + 1,
        its[0].spec_index() == 0,
        forall|j: int| 0 <= j < rs.len() ==> iter_stepped(#[trigger] its[j], its[j + 1], rs[j]),
    ensures
        forall|j: int|
            0 <= j < its.len() ==> (#[trigger] its[j]).spec_index() == if j < its[0].spec_len() {
                j
            } else {
                its[0].spec_len() as int
            } && its[j].spec_len() == its[0].spec_len(),
        forall|j: int| 0 <= j < rs.len() ==> ((#[trigger] rs[j]) is Some <==> j < its[0].spec_len()),
    decreases rs.len(),
{
    if rs.len() > 0 {
        let n = rs.len() - 1;
        let ip = its.subrange(0, n + 1);
        let rp = rs.subrange(0, n);
        assert forall|j: int| 0 <= j < rp.len() implies iter_stepped(#[trigger] ip[j], ip[j + 1], rp[j]) by {
            assert(ip[j] == its[j] && ip[j + 1] == its[j + 1] && rp[j] == rs[j]);
        }
        lemma_iter_steps(ip, rp);
        assert(ip[n] == its[n]);
        assert(iter_stepped(its[n], its[n + 1], rs[n]));
        assert forall|j: int| 0 <= j < its.len() implies (#[trigger] its[j]).spec_index() == if j < its[0].spec_len() {
            j
        } else {
            its[0].spec_len() as int
        } && its[j].spec_len() == its[0].spec_len() by {
            if j <= n {
                assert(ip[j] == its[j]);
            }
        }
        assert forall|j: int| 0 <= j < rs.len() implies ((#[trigger] rs[j]) is Some <==> j < its[0].spec_len()) by {
            if j < n {
                assert(rp[j] == rs[j]);
            }
        }
    }
}

} // verus!
