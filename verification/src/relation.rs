//! The hash-indexed table: a fixed power-of-two array of buckets, each a
//! collision chain, with mask-based bucket addressing and a live-record
//! counter.

use vstd::prelude::*;

use crate::row::Data;
use crate::row::Row;
use crate::row::find_first;
use crate::row::has_key;
use crate::row::lemma_remove_first_absent;
use crate::row::lemma_remove_first_membership;
use crate::row::lemma_remove_first_present;
use crate::row::remove_first;

verus! {

/// Whether `n` is a power of two; in particular `n >= 1`.
pub open spec fn is_pow2(n: usize) -> bool
    decreases n,
{
    if n == 0 {
        false
    } else if n == 1 {
        true
    } else {
        n % 2 == 0 && is_pow2((n / 2) as usize)
    }
}

/// The bucket that a key masked with `mask` falls into.
pub open spec fn bucket_of(a: usize, mask: usize) -> int {
    (a & mask) as int
}

/// A masked key never exceeds the mask, so it always lands inside a bucket
/// array of `mask + 1` buckets.
pub proof fn lemma_bucket_of_bound(a: usize, mask: usize)
    ensures
        0 <= bucket_of(a, mask) <= mask,
{
    assert(a & mask <= mask) by (bit_vector);
}

/// The whole-table effect of one insertion: `d` is prepended to its bucket.
pub open spec fn table_insert(bs: Seq<Seq<Data>>, mask: usize, d: Data) -> Seq<Seq<Data>> {
    bs.update(bucket_of(d.a, mask), seq![d] + bs[bucket_of(d.a, mask)])
}

/// What a lookup of key `a` yields: the first match in `a`'s bucket.
pub open spec fn table_lookup(bs: Seq<Seq<Data>>, mask: usize, a: usize) -> Option<Data> {
    find_first(bs[bucket_of(a, mask)], a)
}

/// The whole-table effect of one removal: the first match in `a`'s bucket is
/// spliced out; nothing changes when the key is absent.
pub open spec fn table_remove(bs: Seq<Seq<Data>>, mask: usize, a: usize) -> Seq<Seq<Data>> {
    bs.update(bucket_of(a, mask), remove_first(bs[bucket_of(a, mask)], a))
}

/// The total number of records across all buckets.
pub open spec fn total_len(bs: Seq<Seq<Data>>) -> int
    decreases bs.len(),
{
    if bs.len() == 0 {
        0
    } else {
        bs[0].len() + total_len(bs.drop_first())
    }
}

/// A total over bucket lengths is never negative.
pub proof fn lemma_total_len_nonneg(bs: Seq<Seq<Data>>)
    ensures
        total_len(bs) >= 0,
    decreases bs.len(),
{
    if bs.len() > 0 {
        lemma_total_len_nonneg(bs.drop_first());
    }
}

/// The total is at least the length of any single bucket.
pub proof fn lemma_total_len_bucket(bs: Seq<Seq<Data>>, h: int)
    requires
        0 <= h < bs.len(),
    ensures
        total_len(bs) >= bs[h].len(),
    decreases bs.len(),
{
    lemma_total_len_nonneg(bs.drop_first());
    if h == 0 {
    } else {
        lemma_total_len_bucket(bs.drop_first(), h - 1);
    }
}

/// Replacing one bucket changes the total by the difference of that bucket's
/// lengths.
pub proof fn lemma_total_len_update(bs: Seq<Seq<Data>>, h: int, s: Seq<Data>)
    requires
        0 <= h < bs.len(),
    ensures
        total_len(bs.update(h, s)) == total_len(bs) - bs[h].len() + s.len(),
    decreases bs.len(),
{
    if h == 0 {
        assert(bs.update(0, s).drop_first() =~= bs.drop_first());
    } else {
        assert(bs.update(h, s).drop_first() =~= bs.drop_first().update(h - 1, s));
        lemma_total_len_update(bs.drop_first(), h - 1, s);
    }
}

/// The total over the buckets equals the length of their concatenation, so a
/// scan yields as many records as the counter reports.
pub proof fn lemma_total_len_flatten(bs: Seq<Seq<Data>>)
    ensures
        bs.flatten().len() == total_len(bs),
    decreases bs.len(),
{
    if bs.len() > 0 {
        lemma_total_len_flatten(bs.drop_first());
    }
}

/// A fixed-capacity hash-indexed table. `index` holds `size_index` buckets,
/// `size_index` is a power of two fixed at construction, a key's bucket is
/// `key & (size_index - 1)`, and `size` counts the live records.
pub struct Relation {
    size: usize,
    size_index: usize,
    index: Vec<Row>,
}

impl Relation {
    /// The buckets as mathematical sequences of records, head first.
    pub closed spec fn buckets(self) -> Seq<Seq<Data>> {
        self.index@.map_values(|r: Row| r@)
    }

    /// The number of buckets, fixed at construction.
    pub closed spec fn bucket_count(self) -> int {
        self.size_index as int
    }

    /// The bit mask that sends a key to its bucket: `bucket_count - 1`.
    pub closed spec fn mask(self) -> usize {
        (self.size_index - 1) as usize
    }

    /// The live-record counter.
    pub closed spec fn spec_size(self) -> int {
        self.size as int
    }

    /// Well-formedness: the bucket count is a power of two, the bucket array
    /// has exactly that many chains, the counter equals the number of records,
    /// and every record sits in the bucket its key masks to.
    pub closed spec fn wf(self) -> bool {
        &&& is_pow2(self.size_index)
        &&& self.index@.len() == self.size_index
        &&& self.size == total_len(self.buckets())
        &&& forall|i: int, j: int|
            0 <= i < self.buckets().len() && 0 <= j < self.buckets()[i].len()
                ==> bucket_of(self.buckets()[i][j].a, self.mask()) == i
    }

    /// What every caller may assume of a well-formed table: the bucket array
    /// matches the bucket count, the mask is one less than it, the counter
    /// totals the buckets, and each record sits in its key's bucket.
    pub proof fn lemma_wf_facts(self)
        requires
            self.wf(),
        ensures
            self.buckets().len() == self.bucket_count(),
            self.bucket_count() >= 1,
            self.mask() == self.bucket_count() - 1,
            self.spec_size() == total_len(self.buckets()),
            forall|i: int, j: int|
                0 <= i < self.buckets().len() && 0 <= j < self.buckets()[i].len()
                    ==> bucket_of(#[trigger] self.buckets()[i][j].a, self.mask()) == i,
    {
    }

    /// A table of `size_index` empty buckets and no records. The bucket count
    /// must be a power of two: masking with `size_index - 1` is modular
    /// hashing only then.
    pub fn new(size_index: usize) -> (r: Relation)
        requires
            is_pow2(size_index),
        ensures
            r.wf(),
            r.bucket_count() == size_index,
            r.spec_size() == 0,
            r.buckets() == Seq::new(size_index as nat, |i: int| Seq::<Data>::empty()),
    {
        let mut index: Vec<Row> = Vec::new();
        let mut i: usize = 0;
        while i < size_index
            invariant
                i <= size_index,
                index@.len() == i,
                forall|j: int| 0 <= j < i ==> #[trigger] index@[j]@ == Seq::<Data>::empty(),
            decreases size_index - i,
        {
            index.push(Row::Nil);
            proof {
                assert(index@[i as int]@ =~= Seq::<Data>::empty());
            }
            i = i + 1;
        }
        let r = Relation { size: 0, size_index, index };
        proof {
            assert(r.buckets() =~= Seq::new(size_index as nat, |k: int| Seq::<Data>::empty()));
            lemma_total_len_all_empty(r.buckets());
        }
        r
    }

    /// The bucket index for key `a`: `a & (bucket_count - 1)`.
    pub fn hash(&self, a: usize) -> (h: usize)
        requires
            self.wf(),
        ensures
            h == bucket_of(a, self.mask()),
            0 <= h < self.bucket_count(),
    {
        let m = self.size_index - 1;
        proof {
            lemma_bucket_of_bound(a, m);
        }
        a & m
    }

    /// Creates the record and prepends it to its key's bucket, whether or not
    /// the bucket already holds records; duplicate keys coexist. The counter
    /// grows by one.
    pub fn insert(&mut self, a: usize, b: usize, c: usize)
        requires
            old(self).wf(),
            old(self).spec_size() < usize::MAX,
        ensures
            final (self).wf(),
            final (self).buckets() == table_insert(
                old(self).buckets(),
                old(self).mask(),
                Data { a, b, c },
            ),
            final (self).spec_size() == old(self).spec_size() + 1,
            final (self).bucket_count() == old(self).bucket_count(),
            final (self).mask() == old(self).mask(),
    {
        let h = self.hash(a);
        let d = Data { a, b, c };
        let mut chain = Row::Nil;
        core::mem::swap(&mut self.index[h], &mut chain);
        let chain = chain.prepend(d);
        self.index.set(h, chain);
        proof {
            let bs0 = old(self).buckets();
            let m = old(self).mask();
            assert(self.buckets() =~= table_insert(bs0, m, d));
            lemma_total_len_update(bs0, h as int, seq![d] + bs0[h as int]);
            assert forall|i: int, j: int|
                0 <= i < self.buckets().len() && 0 <= j < self.buckets()[i].len()
                    implies bucket_of(self.buckets()[i][j].a, m) == i by {
                if i == h as int {
                    if j == 0 {
                        assert(self.buckets()[i][0] == d);
                    } else {
                        assert(self.buckets()[i][j] == bs0[i][j - 1]);
                    }
                } else {
                    assert(self.buckets()[i][j] == bs0[i][j]);
                }
            }
        }
        self.size = self.size + 1;
    }

    /// The first record whose key is `a`, scanning `a`'s bucket from its
    /// head — with duplicate keys, the most recently inserted one. Nothing
    /// when no live record carries the key.
    pub fn lookup(&self, a: usize) -> (r: Option<&Data>)
        requires
            self.wf(),
        ensures
            match r {
                Some(d) => table_lookup(self.buckets(), self.mask(), a) == Some(*d),
                None => table_lookup(self.buckets(), self.mask(), a) is None,
            },
    {
        let h = self.hash(a);
        proof {
            assert(self.buckets()[h as int] == self.index@[h as int]@);
        }
        self.index[h].find(a)
    }

    /// Splices the first record keyed `data.a` out of its bucket; a removal
    /// of an absent key is a no-op. The counter falls by one exactly when a
    /// record was removed.
    pub fn remove(&mut self, data: &Data)
        requires
            old(self).wf(),
        ensures
            final (self).wf(),
            final (self).buckets() == table_remove(
                old(self).buckets(),
                old(self).mask(),
                data.a,
            ),
            final (self).spec_size() == old(self).spec_size() - (if has_key(
                old(self).buckets()[bucket_of(data.a, old(self).mask())],
                data.a,
            ) {
                1int
            } else {
                0int
            }),
            final (self).bucket_count() == old(self).bucket_count(),
            final (self).mask() == old(self).mask(),
    {
        let h = self.hash(data.a);
        proof {
            assert(self.buckets()[h as int] == self.index@[h as int]@);
        }
        let removed = self.index[h].remove(data.a);
        proof {
            let bs0 = old(self).buckets();
            let m = old(self).mask();
            let b0 = bs0[h as int];
            assert(self.buckets() =~= table_remove(bs0, m, data.a));
            if removed {
                lemma_remove_first_present(b0, data.a);
                lemma_total_len_bucket(bs0, h as int);
                lemma_total_len_update(bs0, h as int, remove_first(b0, data.a));
            } else {
                lemma_remove_first_absent(b0, data.a);
                lemma_total_len_update(bs0, h as int, remove_first(b0, data.a));
            }
            lemma_remove_first_membership(b0, data.a);
            assert forall|i: int, j: int|
                0 <= i < self.buckets().len() && 0 <= j < self.buckets()[i].len()
                    implies bucket_of(self.buckets()[i][j].a, m) == i by {
                if i == h as int {
                    let e = self.buckets()[i][j];
                    assert(e == remove_first(b0, data.a)[j]);
                    assert(b0.contains(e));
                    let k = choose|k: int| 0 <= k < b0.len() && b0[k] == e;
                    assert(bucket_of(bs0[h as int][k].a, m) == h as int);
                } else {
                    assert(self.buckets()[i][j] == bs0[i][j]);
                }
            }
        }
        if removed {
            self.size = self.size - 1;
        }
    }

    /// Every live record exactly once: buckets in index order, each chain
    /// head to tail.
    pub fn scan(&self) -> (r: Vec<Data>)
        requires
            self.wf(),
        ensures
            r@ == self.buckets().flatten(),
            r@.len() == self.spec_size(),
    {
        let mut out: Vec<Data> = Vec::new();
        let mut i: usize = 0;
        while i < self.index.len()
            invariant
                self.wf(),
                i <= self.index@.len(),
                out@ == self.buckets().take(i as int).flatten(),
            decreases self.index@.len() - i,
        {
            proof {
                assert(self.buckets()[i as int] == self.index@[i as int]@);
                assert(self.buckets().take(i as int).push(self.buckets()[i as int])
                    =~= self.buckets().take(i + 1));
                self.buckets().take(i as int).lemma_flatten_push(self.buckets()[i as int]);
            }
            self.index[i].append_to(&mut out);
            i = i + 1;
        }
        proof {
            assert(self.buckets().take(self.index@.len() as int) =~= self.buckets());
            lemma_total_len_flatten(self.buckets());
        }
        out
    }

    /// The live-record counter; constant time.
    pub fn size(&self) -> (n: usize)
        ensures
            n == self.spec_size(),
    {
        self.size
    }
}

/// A table of empty buckets holds no records.
proof fn lemma_total_len_all_empty(bs: Seq<Seq<Data>>)
    requires
        forall|i: int| 0 <= i < bs.len() ==> #[trigger] bs[i] == Seq::<Data>::empty(),
    ensures
        total_len(bs) == 0,
    decreases bs.len(),
{
    if bs.len() > 0 {
        lemma_total_len_all_empty(bs.drop_first());
    }
}

} // verus!
