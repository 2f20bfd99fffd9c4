//! Component blobs: the rows of one archetype's column. A buckets blob
//! keeps its first rows in one contiguous vector of `capacity` rows and the
//! rest in `pi_buckets` buckets, whose sizes double; settling moves the rows
//! that stay into the vector. A vector blob keeps all its rows in the
//! vector. A capacity of `usize::MAX` marks a blob that is not set up yet.
use pi_buckets::{Buckets, Location};
use pi_vec_remain::VecRemain;
use vstd::arithmetic::power2::pow2;
use vstd::prelude::*;

verus! {

/// `Location::bucket`: the bucket that holds the entry at `index` past the
/// contiguous part. Bucket `b` holds `2^(b + 5)` entries and starts at
/// `2^(b + 5) - 32`. Panics past `u32::MAX - 32`, which `requires` leaves
/// out.
#[verifier::external_body]
fn bucket_of(index: usize) -> (b: usize)
    requires
        index <= u32::MAX - 32,
    ensures
        pow2((b + 5) as nat) <= index + 32 < pow2((b + 6) as nat),
        b < 27,
{
    Location::bucket(index)
}

/// `Location::bucket_capacity`: the number of entries that the buckets up to
/// and including `bucket` hold, `2^(bucket + 6) - 32`. Panics from bucket
/// 27 on, which `requires` leaves out.
#[verifier::external_body]
fn bucket_capacity(bucket: usize) -> (r: usize)
    requires
        bucket < 27,
    ensures
        r == 2 * pow2((bucket + 5) as nat) - 32,
{
    Location::bucket_capacity(bucket)
}

/// The number of entries held by the contiguous part and the buckets up to
/// the one holding entry `len` past it.
pub open spec fn spec_capacity(cap: nat, len: nat) -> int {
    if len > cap {
        cap + 2 * pow2(bucket_index((len - cap) as nat)) - 32
    } else {
        cap as int
    }
}

/// The exponent `e` with `2^e <= i + 32 < 2^(e + 1)`, for `i` below the
/// largest index.
pub open spec fn bucket_index(i: nat) -> nat {
    choose|e: nat| #[trigger] pow2(e) <= i + 32 < pow2(e + 1)
}

proof fn lemma_bucket_index(i: nat, b: nat)
    requires
        pow2(b + 5) <= i + 32 < pow2(b + 6),
    ensures
        bucket_index(i) == b + 5,
{
    let e = bucket_index(i);
    assert(pow2(e) <= i + 32 < pow2(e + 1));
    if e < b + 5 {
        if e + 1 < b + 5 {
            vstd::arithmetic::power2::lemma_pow2_strictly_increases(e + 1, b + 5);
        }
    } else if e > b + 5 {
        if b + 6 < e {
            vstd::arithmetic::power2::lemma_pow2_strictly_increases(b + 6, e);
        }
    }
}

#[verifier::external_type_specification]
#[verifier::external_body]
#[verifier::reject_recursive_types(T)]
pub struct ExBuckets<T>(Buckets<T>);

/// What buckets of rows hold: for each index of an allocated bucket,
/// counted from the start of the first bucket, the row there.
pub uninterp spec fn bucket_rows(b: Buckets<Vec<u8>>) -> Map<nat, Seq<u8>>;

/// Entries `i` and `j` lie in one bucket: bucket `e - 5` holds the entries
/// from `2^e - 32` to `2^(e + 1) - 33`.
pub open spec fn same_bucket(i: nat, j: nat) -> bool {
    exists|e: nat| #[trigger] pow2(e) <= i + 32 < pow2(e + 1) && pow2(e) <= j + 32 < pow2(e + 1)
}

/// No row at all.
pub open spec fn no_rows() -> Map<nat, Seq<u8>> {
    Map::empty()
}

/// `Buckets::new`: buckets with none allocated.
#[verifier::external_body]
fn buckets_new() -> (r: Buckets<Vec<u8>>)
    ensures
        bucket_rows(r) == no_rows(),
{
    Buckets::new()
}

/// `Buckets::get` at `Location::of(index)`: the row at `index` when its
/// bucket is allocated, else nothing. `Location::of` panics past
/// `MAX_ENTRIES`, which `requires` leaves out.
#[verifier::external_body]
fn buckets_get(b: &Buckets<Vec<u8>>, index: usize) -> (r: Option<&Vec<u8>>)
    requires
        index <= u32::MAX - 32,
    ensures
        r is Some <==> bucket_rows(*b).dom().contains(index as nat),
        r is Some ==> r->0@ == bucket_rows(*b)[index as nat],
{
    b.get(&Location::of(index))
}

/// `Buckets::set` at `Location::of(index)`: allocates the bucket of
/// `index` when it is not, all its rows empty, and puts `value` at `index`;
/// the row it replaces is dropped. `Location::of` panics past
/// `MAX_ENTRIES`, which `requires` leaves out.
#[verifier::external_body]
fn buckets_set(b: &mut Buckets<Vec<u8>>, index: usize, value: Vec<u8>)
    requires
        index <= u32::MAX - 32,
    ensures
        forall|j: nat|
            #[trigger] bucket_rows(*final(b)).dom().contains(j) <==> bucket_rows(*old(b)).dom().contains(j)
                || same_bucket(j, index as nat),
        bucket_rows(*final(b))[index as nat] == value@,
        forall|j: nat|
            j != index && #[trigger] bucket_rows(*final(b)).dom().contains(j) ==> bucket_rows(*final(b))[j] == if bucket_rows(
                *old(b),
            ).dom().contains(j) {
                bucket_rows(*old(b))[j]
            } else {
                Seq::<u8>::empty()
            },
{
    let _ = b.set(&Location::of(index), value);
}

/// `Buckets::take`: hands all buckets over, leaving none allocated; the
/// rows handed over are dropped.
#[verifier::external_body]
fn buckets_clear(b: &mut Buckets<Vec<u8>>)
    ensures
        bucket_rows(*final(b)) == no_rows(),
{
    let _ = b.take();
}

/// `VecRemain::remain` on `start..end`: keeps the rows of the range clamped
/// to the vector, in order, and returns how many.
#[verifier::external_body]
fn remain_rows(v: &mut Vec<Vec<u8>>, start: usize, end: usize) -> (r: usize)
    ensures
        ({
            let e = if end < old(v)@.len() { end as int } else { old(v)@.len() as int };
            let s = if start < e { start as int } else { e };
            final(v)@ == old(v)@.subrange(s, e) && r == e - s
        }),
{
    v.remain(start..end)
}

/// Every entry lies in some bucket.
proof fn lemma_bucket_exists(x: nat)
    ensures
        same_bucket(x, x),
{
    lemma_pow2_bracket(x + 32);
    let e = choose|e: nat| pow2(e) <= x + 32 < #[trigger] pow2(e + 1);
    assert(pow2(e) <= x + 32 < pow2(e + 1));
}

/// Every positive number lies between two successive powers of two.
proof fn lemma_pow2_bracket(n: nat)
    requires
        n >= 1,
    ensures
        exists|e: nat| pow2(e) <= n < #[trigger] pow2(e + 1),
    decreases n,
{
    vstd::arithmetic::power2::lemma_pow2_unfold(1);
    vstd::arithmetic::power2::lemma2_to64();
    if n > 1 {
        lemma_pow2_bracket(n / 2);
        let e = choose|e: nat| pow2(e) <= n / 2 < #[trigger] pow2(e + 1);
        vstd::arithmetic::power2::lemma_pow2_unfold(e + 1);
        vstd::arithmetic::power2::lemma_pow2_unfold(e + 2);
        let w: nat = e + 1;
        assert(pow2(w) <= n < pow2(w + 1));
    } else {
        let w: nat = 0;
        assert(pow2(w) <= n < pow2(w + 1));
    }
}

/// The number of entries of the buckets up to the one that holds entry
/// `n`.
pub open spec fn bucket_end(n: nat) -> int {
    2 * pow2(bucket_index(n)) - 32
}

/// The buckets up to the one that holds entry `n` hold more than `n`
/// entries.
pub proof fn lemma_bucket_end_above(n: nat)
    ensures
        bucket_end(n) > n,
{
    lemma_bucket_exists(n);
    let e = bucket_index(n);
    assert(pow2(e) <= n + 32 < pow2(e + 1));
    vstd::arithmetic::power2::lemma_pow2_unfold(e + 1);
}

/// The row of a blob at `i` read as a value: an entry that no allocated
/// storage holds reads as an empty row.
pub open spec fn row_or_empty(r: Option<Seq<u8>>) -> Seq<u8> {
    match r {
        Some(v) => v,
        None => Seq::empty(),
    }
}

/// A blob kept as a contiguous vector of `capacity` rows (rows past the
/// vector's length are empty) and buckets for the rows past it.
pub struct BucketsBlob {
    vec: Vec<Vec<u8>>,
    capacity: usize,
    buckets: Buckets<Vec<u8>>,
}

impl Default for BucketsBlob {
    /// A blob not set up yet, with no row stored.
    fn default() -> (r: BucketsBlob)
        ensures
            r.wf(),
            r.spec_vec_capacity() == usize::MAX,
            r.vec_rows().len() == 0,
            r.bucket_part() == Map::<nat, Seq<u8>>::empty(),
    {
        BucketsBlob { vec: Vec::new(), capacity: usize::MAX, buckets: buckets_new() }
    }
}

impl BucketsBlob {
    pub closed spec fn spec_vec_capacity(&self) -> usize {
        self.capacity
    }

    /// The rows stored in the contiguous vector.
    pub closed spec fn vec_rows(&self) -> Seq<Seq<u8>> {
        self.vec@.map_values(|v: Vec<u8>| v@)
    }

    /// The rows of the buckets, by index past the contiguous part.
    pub closed spec fn bucket_part(&self) -> Map<nat, Seq<u8>> {
        bucket_rows(self.buckets)
    }

    /// The vector holds no more rows than the capacity.
    pub open spec fn wf(&self) -> bool {
        self.vec_rows().len() <= self.spec_vec_capacity()
    }

    /// The row at `i`: in the contiguous part (empty past the rows stored
    /// there), or in an allocated bucket; none otherwise.
    pub open spec fn row(&self, i: nat) -> Option<Seq<u8>> {
        if i < self.spec_vec_capacity() {
            Some(
                if i < self.vec_rows().len() {
                    self.vec_rows()[i as int]
                } else {
                    Seq::empty()
                },
            )
        } else if self.bucket_part().dom().contains((i - self.spec_vec_capacity()) as nat) {
            Some(self.bucket_part()[(i - self.spec_vec_capacity()) as nat])
        } else {
            None
        }
    }

    /// The number of rows of the contiguous part.
    pub fn vec_capacity(&self) -> (r: usize)
        ensures
            r == self.spec_vec_capacity(),
    {
        self.capacity
    }

    /// The number of rows held once `len` rows are in: the contiguous
    /// part, and when `len` goes past it, the buckets up to the one holding
    /// row `len`.
    pub fn capacity(&self, len: usize) -> (r: usize)
        requires
            len > self.spec_vec_capacity() ==> len - self.spec_vec_capacity() <= u32::MAX - 32,
            spec_capacity(self.spec_vec_capacity() as nat, len as nat) <= usize::MAX,
        ensures
            r == spec_capacity(self.spec_vec_capacity() as nat, len as nat),
    {
        if len > self.capacity {
            let b = bucket_of(len - self.capacity);
            let c = bucket_capacity(b);
            proof {
                lemma_bucket_index((len - self.capacity) as nat, b as nat);
            }
            c + self.capacity
        } else {
            self.capacity
        }
    }

    /// Sets the number of rows of the contiguous part; the rows stored past
    /// it are dropped. The buckets stay as they are, now past the new
    /// capacity.
    pub fn set_vec_capacity(&mut self, capacity: usize)
        requires
            old(self).wf(),
        ensures
            final(self).wf(),
            final(self).spec_vec_capacity() == capacity,
            final(self).vec_rows() == if old(self).vec_rows().len() <= capacity {
                old(self).vec_rows()
            } else {
                old(self).vec_rows().subrange(0, capacity as int)
            },
            final(self).bucket_part() == old(self).bucket_part(),
    {
        if self.vec.len() > capacity {
            self.vec.truncate(capacity);
        }
        self.capacity = capacity;
        proof {
            assert(self.vec_rows() =~= if old(self).vec_rows().len() <= capacity {
                old(self).vec_rows()
            } else {
                old(self).vec_rows().subrange(0, capacity as int)
            });
        }
    }

    /// The memory held, in bytes: the entries of the contiguous part plus
    /// the blob's own fields; a blob not set up holds only its fields.
    pub fn memsize(&self) -> (r: usize)
        requires
            self.spec_vec_capacity() >= usize::MAX - 1 || self.spec_vec_capacity() <= usize::MAX - 24,
        ensures
            r == if self.spec_vec_capacity() >= usize::MAX - 1 {
                24
            } else {
                self.spec_vec_capacity() + 24
            },
    {
        let val = self.capacity;
        if val >= usize::MAX - 1 {
            24
        } else {
            val + 24
        }
    }

    /// The row at `index`, if the contiguous part or an allocated bucket
    /// holds it.
    pub fn get_multiple(&self, index: usize) -> (r: Option<Vec<u8>>)
        requires
            self.wf(),
            index >= self.spec_vec_capacity() ==> index - self.spec_vec_capacity() <= u32::MAX - 32,
        ensures
            match r {
                Some(v) => self.row(index as nat) == Some(v@),
                None => self.row(index as nat) is None,
            },
    {
        if index < self.capacity {
            if index < self.vec.len() {
                let v = self.vec[index].clone();
                proof {
                    assert(v@ =~= self.vec@[index as int]@);
                }
                return Some(v);
            }
            return Some(Vec::new());
        }
        match buckets_get(&self.buckets, index - self.capacity) {
            Some(v) => {
                let c = v.clone();
                proof {
                    assert(c@ =~= v@);
                }
                Some(c)
            },
            None => None,
        }
    }

    /// The row at `index`, which the contiguous part or an allocated bucket
    /// holds.
    pub fn get_multiple_unchecked(&self, index: usize) -> (r: Vec<u8>)
        requires
            self.wf(),
            index >= self.spec_vec_capacity() ==> index - self.spec_vec_capacity() <= u32::MAX - 32,
            self.row(index as nat) is Some,
        ensures
            self.row(index as nat) == Some(r@),
    {
        match self.get_multiple(index) {
            Some(v) => v,
            None => Vec::new(),
        }
    }

    /// Stores `data` as the row at `index`: in the contiguous part, or in
    /// its bucket, which is allocated (with empty rows) when it is not.
    pub fn load_alloc_multiple(&mut self, index: usize, data: Vec<u8>)
        requires
            old(self).wf(),
            index >= old(self).spec_vec_capacity() ==> index - old(self).spec_vec_capacity() <= u32::MAX - 32,
        ensures
            final(self).wf(),
            final(self).spec_vec_capacity() == old(self).spec_vec_capacity(),
            final(self).row(index as nat) == Some(data@),
            forall|i: nat| i != index && i < old(self).spec_vec_capacity() ==> #[trigger] final(self).row(i) == old(self).row(i),
            index < old(self).spec_vec_capacity() ==> final(self).bucket_part() == old(self).bucket_part(),
            index >= old(self).spec_vec_capacity() ==> final(self).vec_rows() == old(self).vec_rows() && forall|j: nat|
                #[trigger] final(self).bucket_part().dom().contains(j) <==> old(self).bucket_part().dom().contains(j)
                    || same_bucket(j, (index - old(self).spec_vec_capacity()) as nat),
            index >= old(self).spec_vec_capacity() ==> forall|i: nat|
                i >= old(self).spec_vec_capacity() && i != index && #[trigger] final(self).row(i) is Some ==> final(self).row(i)
                    == Some(row_or_empty(old(self).row(i))),
            forall|i: nat| i != index ==> #[trigger] row_or_empty(final(self).row(i)) == row_or_empty(old(self).row(i)),
            forall|i: nat| old(self).row(i) is Some ==> #[trigger] final(self).row(i) is Some,
    {
        if index < self.capacity {
            let ghost rows0 = self.vec_rows();
            proof {
                assert forall|r: int| 0 <= r < rows0.len() implies #[trigger] self.vec@[r]@ == rows0[r] by {}
            }
            while self.vec.len() <= index
                invariant
                    self.capacity == old(self).capacity,
                    self.buckets == old(self).buckets,
                    index < self.capacity,
                    rows0 == old(self).vec_rows(),
                    rows0.len() <= self.vec@.len(),
                    self.vec@.len() <= index + 1 || self.vec@.len() == rows0.len(),
                    forall|r: int| 0 <= r < rows0.len() ==> #[trigger] self.vec@[r]@ == rows0[r],
                    forall|r: int| rows0.len() <= r < self.vec@.len() ==> #[trigger] self.vec@[r]@ == Seq::<u8>::empty(),
                decreases index + 1 - self.vec@.len(),
            {
                self.vec.push(Vec::new());
            }
            let ghost pre = self.vec@;
            self.vec.set(index, data);
            proof {
                assert forall|i: nat| i != index && i < old(self).spec_vec_capacity() implies #[trigger] self.row(i) == old(
                    self,
                ).row(i) by {
                    if i < self.vec@.len() {
                        assert(self.vec@[i as int] == pre[i as int]);
                    }
                }
                assert(self.vec_rows()[index as int] == data@);
            }
        } else {
            let ghost x = (index - self.capacity) as nat;
            proof {
                lemma_bucket_exists(x);
            }
            buckets_set(&mut self.buckets, index - self.capacity, data);
            proof {
                assert(self.bucket_part().dom().contains(x));
                assert forall|i: nat| i >= old(self).spec_vec_capacity() && i != index && #[trigger] self.row(i) is Some implies self.row(i)
                    == Some(row_or_empty(old(self).row(i))) by {
                    let y = (i - self.capacity) as nat;
                    assert(y != x);
                }
                assert forall|i: nat| i != index implies #[trigger] row_or_empty(self.row(i)) == row_or_empty(old(self).row(i)) by {
                    if i >= self.capacity {
                        let y = (i - self.capacity) as nat;
                        assert(y != x);
                    }
                }
                assert forall|i: nat| old(self).row(i) is Some implies #[trigger] self.row(i) is Some by {
                    if i >= self.capacity {
                        let y = (i - self.capacity) as nat;
                        assert(old(self).bucket_part().dom().contains(y));
                        assert(self.bucket_part().dom().contains(y));
                    }
                }
            }
        }
    }

    /// Makes the contiguous part hold at least `n` rows; the rows and the
    /// buckets stay.
    fn grow_to(&mut self, n: usize)
        ensures
            final(self).vec == old(self).vec,
            final(self).buckets == old(self).buckets,
            final(self).capacity == if old(self).capacity >= n {
                old(self).capacity
            } else {
                n
            },
    {
        if self.capacity < n {
            self.capacity = n;
        }
    }

    /// Makes the contiguous part hold `len + additional` rows, counted from
    /// the capacity it has; the rows stay.
    fn reserve(&mut self, len: usize, additional: usize)
        requires
            len + additional <= usize::MAX,
            len <= old(self).capacity,
        ensures
            final(self).vec == old(self).vec,
            final(self).buckets == old(self).buckets,
            final(self).capacity == if len + additional > old(self).capacity {
                if old(self).capacity >= len + (len + additional - old(self).capacity) {
                    old(self).capacity as int
                } else {
                    len + (len + additional - old(self).capacity)
                }
            } else {
                old(self).capacity as int
            },
    {
        let extra = (len + additional).saturating_sub(self.capacity);
        if extra > 0 && len + extra > self.capacity {
            self.capacity = len + extra;
        }
    }

    /// Moves the rows of `len` first rows into the contiguous part, which
    /// then holds at least `len + additional` rows.
    pub fn settle(&mut self, len: usize, additional: usize)
        requires
            old(self).wf(),
            old(self).spec_vec_capacity() < usize::MAX - 1,
            len + additional <= usize::MAX,
            len > old(self).spec_vec_capacity() ==> len + additional <= u32::MAX - 32
                && len - old(self).spec_vec_capacity() <= u32::MAX - 31,
        ensures
            final(self).wf(),
            remain_settled(*old(self), *final(self), 0, len, len, additional),
    {
        self.remain_settle(0..len, len, additional);
    }

    /// Keeps the rows of `range`, moved to the front of the contiguous part,
    /// in order; the rows past them there are empty. When the range ends in
    /// the contiguous part, the capacity grows only if `range.len() +
    /// additional` asks for more, and the buckets go only if `len` goes past
    /// the capacity; otherwise the capacity becomes the end of the bucket of
    /// row `range.len() + additional` (unless it is already larger, or there
    /// is no capacity and nothing to keep) and the buckets go. Either way
    /// the contiguous part then holds at least `len + additional` rows.
    pub fn remain_settle(&mut self, range: std::ops::Range<usize>, len: usize, additional: usize)
        requires
            old(self).wf(),
            range.start <= range.end <= len,
            len + additional <= usize::MAX,
            old(self).spec_vec_capacity() < usize::MAX - 1,
            (range.end - range.start) + additional <= usize::MAX,
            range.end > old(self).spec_vec_capacity() ==> (range.end - range.start) + additional <= u32::MAX - 32
                && range.end - old(self).spec_vec_capacity() <= u32::MAX - 31,
        ensures
            final(self).wf(),
            remain_settled(*old(self), *final(self), range.start, range.end, len, additional),
    {
        let start = range.start;
        let end = range.end;
        let k = end - start;
        let cap0 = self.capacity;
        let ghost old_self = *self;
        if end <= cap0 {
            let mut vec: Vec<Vec<u8>> = Vec::new();
            std::mem::swap(&mut vec, &mut self.vec);
            let ghost v0 = vec@;
            remain_rows(&mut vec, start, end);
            self.vec = vec;
            if len > cap0 {
                buckets_clear(&mut self.buckets);
            }
            self.reserve(k, additional);
            self.grow_to(len + additional);
            proof {
                assert forall|i: nat| i < self.capacity implies #[trigger] self.row(i) == Some(
                    if i < k {
                        row_or_empty(old_self.row((start + i) as nat))
                    } else {
                        Seq::<u8>::empty()
                    },
                ) by {
                    if i < k && start + i < v0.len() {
                        assert(self.vec_rows()[i as int] == v0[start + i]@);
                    }
                }
            }
            return;
        }
        let b = bucket_of(k + additional);
        let cap = bucket_capacity(b);
        proof {
            lemma_bucket_index((k + additional) as nat, b as nat);
        }
        let mut vec: Vec<Vec<u8>> = Vec::new();
        std::mem::swap(&mut vec, &mut self.vec);
        let ghost v0 = vec@;
        remain_rows(&mut vec, start, end);
        let mut j = start + vec.len();
        while j < end
            invariant
                start <= j <= end,
                j - start == vec@.len(),
                j < end ==> j >= v0.len(),
                end - cap0 <= u32::MAX - 31,
                cap0 == old_self.capacity,
                self.buckets == old_self.buckets,
                old_self.wf(),
                v0 == old_self.vec@,
                forall|i: int| 0 <= i < vec@.len() ==> #[trigger] vec@[i]@ == row_or_empty(old_self.row((start + i) as nat)),
            decreases end - j,
        {
            if j < cap0 {
                vec.push(Vec::new());
            } else {
                match buckets_get(&self.buckets, j - cap0) {
                    Some(v) => {
                        let c = v.clone();
                        proof {
                            assert(c@ =~= v@);
                        }
                        vec.push(c);
                    },
                    None => {
                        vec.push(Vec::new());
                    },
                }
            }
            j = j + 1;
        }
        buckets_clear(&mut self.buckets);
        let new_cap = if cap0 >= cap {
            cap0
        } else if cap0 == 0 && k == 0 {
            0
        } else {
            cap
        };
        self.vec = vec;
        self.capacity = new_cap;
        self.grow_to(len + additional);
        proof {
            vstd::arithmetic::power2::lemma_pow2_unfold((b + 6) as nat);
            assert(cap == bucket_end((k + additional) as nat));
            assert(cap > k);
            assert forall|i: nat| i < self.capacity implies #[trigger] self.row(i) == Some(
                if i < k {
                    row_or_empty(old_self.row((start + i) as nat))
                } else {
                    Seq::<u8>::empty()
                },
            ) by {
                if i < k {
                    assert(self.vec_rows()[i as int] == self.vec@[i as int]@);
                }
            }
        }
    }
}

/// `after` is `before` with the rows of `start..end` moved to the front of
/// the contiguous part, as `remain_settle` does with `len` and
/// `additional`: the capacity that settling the kept rows gives, grown to
/// `len + additional` when it is less.
pub open spec fn remain_settled(before: BucketsBlob, after: BucketsBlob, start: usize, end: usize, len: usize, additional: usize) -> bool {
    let cap0 = before.spec_vec_capacity();
    let k = end - start;
    let cap1 = after.spec_vec_capacity();
    let settled = if end <= cap0 {
        if k + additional > cap0 {
            if cap0 >= k + (k + additional - cap0) {
                cap0 as int
            } else {
                k + (k + additional - cap0)
            }
        } else {
            cap0 as int
        }
    } else if cap0 >= bucket_end((k + additional) as nat) {
        cap0 as int
    } else if cap0 == 0 && k == 0 {
        0
    } else {
        bucket_end((k + additional) as nat)
    };
    &&& cap1 == if settled >= len + additional {
        settled
    } else {
        len + additional
    }
    &&& forall|i: nat|
        i < cap1 ==> #[trigger] after.row(i) == Some(
            if i < k {
                row_or_empty(before.row((start + i) as nat))
            } else {
                Seq::<u8>::empty()
            },
        )
    &&& after.bucket_part() == if end <= cap0 && len <= cap0 {
        before.bucket_part()
    } else {
        Map::<nat, Seq<u8>>::empty()
    }
}

/// A blob kept in one vector of `capacity` rows only; rows past the
/// vector's length are empty.
pub struct VecBlob {
    vec: Vec<Vec<u8>>,
    capacity: usize,
}

impl Default for VecBlob {
    /// A blob not set up yet, with no row stored.
    fn default() -> (r: VecBlob)
        ensures
            r.wf(),
            r.spec_vec_capacity() == usize::MAX,
            r.vec_rows().len() == 0,
    {
        VecBlob { vec: Vec::new(), capacity: usize::MAX }
    }
}

impl VecBlob {
    pub closed spec fn spec_vec_capacity(&self) -> usize {
        self.capacity
    }

    /// The rows stored in the vector.
    pub closed spec fn vec_rows(&self) -> Seq<Seq<u8>> {
        self.vec@.map_values(|v: Vec<u8>| v@)
    }

    /// The vector holds no more rows than the capacity.
    pub open spec fn wf(&self) -> bool {
        self.vec_rows().len() <= self.spec_vec_capacity()
    }

    /// The row at `i`, for `i` below the capacity (empty past the rows
    /// stored).
    pub open spec fn row(&self, i: nat) -> Option<Seq<u8>> {
        if i < self.spec_vec_capacity() {
            Some(
                if i < self.vec_rows().len() {
                    self.vec_rows()[i as int]
                } else {
                    Seq::empty()
                },
            )
        } else {
            None
        }
    }

    /// The number of rows held, whatever `len`.
    pub fn capacity(&self, len: usize) -> (r: usize)
        ensures
            r == self.spec_vec_capacity(),
    {
        self.capacity
    }

    pub fn vec_capacity(&self) -> (r: usize)
        ensures
            r == self.spec_vec_capacity(),
    {
        self.capacity
    }

    /// Sets the number of rows; the rows stored past it are dropped.
    pub fn set_vec_capacity(&mut self, capacity: usize)
        requires
            old(self).wf(),
        ensures
            final(self).wf(),
            final(self).spec_vec_capacity() == capacity,
            final(self).vec_rows() == if old(self).vec_rows().len() <= capacity {
                old(self).vec_rows()
            } else {
                old(self).vec_rows().subrange(0, capacity as int)
            },
    {
        if self.vec.len() > capacity {
            self.vec.truncate(capacity);
        }
        self.capacity = capacity;
        proof {
            assert(self.vec_rows() =~= if old(self).vec_rows().len() <= capacity {
                old(self).vec_rows()
            } else {
                old(self).vec_rows().subrange(0, capacity as int)
            });
        }
    }

    /// The row at `index`, if it is below the capacity.
    pub fn get_multiple(&self, index: usize) -> (r: Option<Vec<u8>>)
        requires
            self.wf(),
        ensures
            match r {
                Some(v) => self.row(index as nat) == Some(v@),
                None => self.row(index as nat) is None,
            },
    {
        if index < self.capacity {
            if index < self.vec.len() {
                let v = self.vec[index].clone();
                proof {
                    assert(v@ =~= self.vec@[index as int]@);
                }
                return Some(v);
            }
            return Some(Vec::new());
        }
        None
    }

    /// The row at `index`, which is below the capacity.
    pub fn get_multiple_unchecked(&self, index: usize) -> (r: Vec<u8>)
        requires
            self.wf(),
            index < self.spec_vec_capacity(),
        ensures
            self.row(index as nat) == Some(r@),
    {
        match self.get_multiple(index) {
            Some(v) => v,
            None => Vec::new(),
        }
    }

    /// Stores `data` as the row at `index`; a row past the capacity first
    /// grows the capacity to take it.
    pub fn load_alloc_multiple(&mut self, index: usize, data: Vec<u8>)
        requires
            old(self).wf(),
            index < usize::MAX,
        ensures
            final(self).wf(),
            final(self).spec_vec_capacity() == if index < old(self).spec_vec_capacity() {
                old(self).spec_vec_capacity() as int
            } else {
                index + 1
            },
            final(self).row(index as nat) == Some(data@),
            forall|i: nat| i != index && i < final(self).spec_vec_capacity() ==> #[trigger] final(self).row(i) == Some(
                row_or_empty(old(self).row(i)),
            ),
    {
        if index >= self.capacity {
            let cap = self.capacity;
            self.reserve(cap, index - cap + 1);
        }
        let ghost rows0 = self.vec_rows();
        let ghost mid = *self;
        proof {
            assert forall|r: int| 0 <= r < rows0.len() implies #[trigger] self.vec@[r]@ == rows0[r] by {}
        }
        while self.vec.len() <= index
            invariant
                self.capacity == mid.capacity,
                index < self.capacity,
                rows0 == mid.vec_rows(),
                rows0.len() <= self.vec@.len(),
                self.vec@.len() <= index + 1 || self.vec@.len() == rows0.len(),
                forall|r: int| 0 <= r < rows0.len() ==> #[trigger] self.vec@[r]@ == rows0[r],
                forall|r: int| rows0.len() <= r < self.vec@.len() ==> #[trigger] self.vec@[r]@ == Seq::<u8>::empty(),
            decreases index + 1 - self.vec@.len(),
        {
            self.vec.push(Vec::new());
        }
        let ghost pre = self.vec@;
        self.vec.set(index, data);
        proof {
            assert forall|i: nat| i != index && i < self.capacity implies #[trigger] self.row(i) == Some(
                row_or_empty(old(self).row(i)),
            ) by {
                if i < self.vec@.len() {
                    assert(self.vec@[i as int] == pre[i as int]);
                }
            }
            assert(self.vec_rows()[index as int] == data@);
        }
    }

    /// Makes the vector hold `len + additional` rows, counted from the
    /// capacity it has; the rows stay.
    fn reserve(&mut self, len: usize, additional: usize)
        requires
            len + additional <= usize::MAX,
            len <= old(self).capacity,
        ensures
            final(self).vec == old(self).vec,
            final(self).capacity == if len + additional > old(self).capacity {
                if old(self).capacity >= len + (len + additional - old(self).capacity) {
                    old(self).capacity as int
                } else {
                    len + (len + additional - old(self).capacity)
                }
            } else {
                old(self).capacity as int
            },
    {
        let extra = (len + additional).saturating_sub(self.capacity);
        if extra > 0 && len + extra > self.capacity {
            self.capacity = len + extra;
        }
    }

    /// Settles the blob: its rows all lie in the vector already and stay;
    /// the capacity grows to `len + additional` when it is less.
    pub fn settle(&mut self, len: usize, additional: usize, multiple: usize)
        requires
            old(self).wf(),
            len + additional <= usize::MAX,
        ensures
            final(self).wf(),
            final(self).vec_rows() == old(self).vec_rows(),
            final(self).spec_vec_capacity() == if old(self).spec_vec_capacity() >= len + additional {
                old(self).spec_vec_capacity() as int
            } else {
                len + additional
            },
            forall|i: nat| i < old(self).spec_vec_capacity() ==> #[trigger] final(self).row(i) == old(self).row(i),
    {
        if self.capacity < len + additional {
            self.capacity = len + additional;
        }
    }
}

} // verus!
