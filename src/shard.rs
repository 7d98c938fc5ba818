//! A shard: the buckets of every document whose Bloom parameters are one
//! pair `(m, k)`, filled in order.
use vstd::prelude::*;

use crate::bloom::{BloomFilter, WORD_BITS, bit_at, bloom_positions, lemma_bit_ops, lemma_bloom_positions_push};
use crate::bucket::{Bucket, BucketParts, DocBits, and_keys, or_keys, parts_valid, query_set};

verus! {

/// The documents of a bucket list, bucket by bucket and slot by slot.
pub open spec fn flat_docs(bs: Seq<Bucket>) -> Seq<DocBits>
    decreases bs.len(),
{
    if bs.len() == 0 {
        seq![]
    } else {
        flat_docs(bs.drop_last()) + bs.last().docs()
    }
}

/// Matching "all of the query" distributes over concatenation.
pub proof fn lemma_and_keys_concat(a: Seq<DocBits>, b: Seq<DocBits>, q: Set<int>)
    ensures
        and_keys(a + b, q) == and_keys(a, q) + and_keys(b, q),
    decreases b.len(),
{
    if b.len() == 0 {
        assert(a + b == a);
        assert(and_keys(b, q) == Seq::<usize>::empty());
        assert(and_keys(a, q) + and_keys(b, q) == and_keys(a, q));
    } else {
        lemma_and_keys_concat(a, b.drop_last(), q);
        assert((a + b).drop_last() == a + b.drop_last());
        assert((a + b).last() == b.last());
    }
}

/// Matching "any of the query" distributes over concatenation.
pub proof fn lemma_or_keys_concat(a: Seq<DocBits>, b: Seq<DocBits>, q: Set<int>)
    ensures
        or_keys(a + b, q) == or_keys(a, q) + or_keys(b, q),
    decreases b.len(),
{
    if b.len() == 0 {
        assert(a + b == a);
        assert(or_keys(b, q) == Seq::<usize>::empty());
        assert(or_keys(a, q) + or_keys(b, q) == or_keys(a, q));
    } else {
        lemma_or_keys_concat(a, b.drop_last(), q);
        assert((a + b).drop_last() == a + b.drop_last());
        assert((a + b).last() == b.last());
    }
}

/// The fields of a shard as plain values, as a snapshot stores them.
pub struct ShardParts {
    pub bucket: Vec<BucketParts>,
    pub bloom_size: usize,
    pub bloom_k: u64,
}

/// Whether the parts describe a well-formed shard: valid buckets with the
/// shard's parameters, all but the last full.
pub open spec fn shard_parts_valid(p: ShardParts) -> bool {
    &&& p.bloom_size > 0
    &&& p.bloom_size * 128 <= usize::MAX
    &&& forall|b: int|
        0 <= b < p.bucket@.len() ==> {
            &&& parts_valid(#[trigger] p.bucket@[b])
            &&& p.bucket@[b].bloom_size == p.bloom_size
            &&& p.bucket@[b].bloom_k == p.bloom_k
        }
    &&& forall|b: int| 0 <= b < p.bucket@.len() - 1 ==> (#[trigger] p.bucket@[b]).bloom_count == 128
}

/// The buckets of one Bloom parameter pair `(m, k)`, `m` in words.
pub struct Shard {
    bucket: Vec<Bucket>,
    bloom_size: usize,
    bloom_k: u64,
}

impl Shard {
    /// The buckets, in the order they were opened.
    pub closed spec fn buckets(&self) -> Seq<Bucket> {
        self.bucket@
    }

    /// The filter length in words.
    pub closed spec fn spec_m(&self) -> nat {
        self.bloom_size as nat
    }

    /// The hash count.
    pub closed spec fn spec_k(&self) -> u64 {
        self.bloom_k
    }

    /// The filter length in bits.
    pub open spec fn m_bits(&self) -> nat {
        self.spec_m() * 128
    }

    /// The stored documents, in insertion order.
    pub open spec fn docs(&self) -> Seq<DocBits> {
        flat_docs(self.buckets())
    }

    /// The query positions for `features`: the set bits of their filter.
    pub open spec fn query_of(&self, features: Seq<Seq<char>>) -> Set<int> {
        bloom_positions(features, self.spec_k(), self.m_bits())
    }

    /// The keys of the documents whose filters hold every query position of
    /// `features`, in insertion order; none for a query without positions.
    pub open spec fn and_hits(&self, features: Seq<Seq<char>>) -> Seq<usize> {
        if features.len() == 0 || self.spec_k() == 0 {
            seq![]
        } else {
            and_keys(self.docs(), self.query_of(features))
        }
    }

    /// The keys of the documents whose filters hold some query position of
    /// `features`, in insertion order.
    pub open spec fn or_hits(&self, features: Seq<Seq<char>>) -> Seq<usize> {
        or_keys(self.docs(), self.query_of(features))
    }

    /// Every bucket is well formed with the shard's `(m, k)`, and all but the
    /// last are full.
    pub open spec fn wf(&self) -> bool {
        &&& self.spec_m() > 0
        &&& self.m_bits() <= usize::MAX
        &&& forall|b: int|
            0 <= b < self.buckets().len() ==> {
                &&& (#[trigger] self.buckets()[b]).wf()
                &&& self.buckets()[b].spec_m() == self.spec_m()
                &&& self.buckets()[b].spec_k() == self.spec_k()
            }
        &&& forall|b: int| 0 <= b < self.buckets().len() - 1 ==> (#[trigger] self.buckets()[b]).count() == 128
    }

    /// An empty shard for filters of `bloom_size` words and `bloom_k` hashes.
    pub fn new(bloom_size: usize, bloom_k: u64) -> (r: Self)
        requires
            bloom_size > 0,
            bloom_size * 128 <= usize::MAX,
        ensures
            r.wf(),
            r.spec_m() == bloom_size,
            r.spec_k() == bloom_k,
            r.buckets().len() == 0,
            r.docs() == Seq::<DocBits>::empty(),
    {
        Self { bucket: Vec::new(), bloom_size, bloom_k }
    }

    /// The filter length in words.
    pub fn get_m(&self) -> (r: usize)
        ensures
            r == self.spec_m(),
    {
        self.bloom_size
    }

    /// The hash count.
    pub fn get_k(&self) -> (r: u64)
        ensures
            r == self.spec_k(),
    {
        self.bloom_k
    }

    /// How many buckets the shard has opened.
    pub fn bucket_count(&self) -> (r: usize)
        ensures
            r == self.buckets().len(),
    {
        self.bucket.len()
    }

    /// How many documents bucket `b` holds.
    pub fn bucket_len(&self, b: usize) -> (r: usize)
        requires
            self.wf(),
            b < self.buckets().len(),
        ensures
            r == self.buckets()[b as int].count(),
    {
        self.bucket[b].len()
    }

    /// Appends the document `key` with features `trigrams` to the last
    /// bucket, first opening a new bucket when there is none or the last is
    /// full.
    pub fn add_message(&mut self, trigrams: &[String], key: usize)
        requires
            old(self).wf(),
        ensures
            final(self).wf(),
            final(self).spec_m() == old(self).spec_m(),
            final(self).spec_k() == old(self).spec_k(),
            final(self).docs() == old(self).docs().push(
                (key, old(self).query_of(trigrams.deep_view())),
            ),
            final(self).buckets().len() == if old(self).buckets().len() == 0
                || old(self).buckets().last().count() == 128 {
                old(self).buckets().len() + 1
            } else {
                old(self).buckets().len()
            },
    {
        self.get_bucket();
        let ghost bs = self.buckets();
        let ghost docs0 = self.docs();
        let mut last = self.bucket.pop().unwrap();
        proof {
            assert(self.buckets() == bs.drop_last());
        }
        last.add_message(trigrams, key);
        self.bucket.push(last);
        proof {
            assert(self.buckets().drop_last() == bs.drop_last());
            assert(flat_docs(self.buckets()) =~= docs0.push((key, bloom_positions(trigrams.deep_view(), self.bloom_k, self.m_bits()))));
            assert forall|b: int| 0 <= b < self.buckets().len() - 1 implies (#[trigger] self.buckets()[b]).count() == 128 by {
                assert(self.buckets()[b] == bs[b]);
            }
        }
    }

    /// The positions, ascending, of the set bits of a word array.
    fn get_set_bits(bits: &Vec<u128>) -> (r: Vec<u128>)
        requires
            bits@.len() * 128 <= usize::MAX,
        ensures
            query_set(r@) == Set::new(|p: int| 0 <= p < bits@.len() * 128 && bit_at(bits@, p)),
            forall|a: int, b: int| 0 <= a < b < r@.len() ==> r@[a] < r@[b],
            forall|a: int| 0 <= a < r@.len() ==> (#[trigger] r@[a]) < bits@.len() * 128,
    {
        let n = bits.len() * WORD_BITS;
        let mut out: Vec<u128> = Vec::new();
        let mut p: usize = 0;
        while p < n
            invariant
                n == bits@.len() * 128,
                p <= n,
                query_set(out@) == Set::new(|x: int| 0 <= x < p && bit_at(bits@, x)),
                forall|a: int, b: int| 0 <= a < b < out@.len() ==> out@[a] < out@[b],
                forall|a: int| 0 <= a < out@.len() ==> (#[trigger] out@[a]) < p,
            decreases n - p,
        {
            let word = bits[p / WORD_BITS];
            proof {
                lemma_bit_ops(word, 0, (p % 128) as u128);
            }
            let ghost before = out@;
            if word & (1u128 << ((p % WORD_BITS) as u128)) != 0 {
                out.push(p as u128);
                assert forall|x: int| query_set(out@).contains(x) <==> (0 <= x < p + 1 && bit_at(bits@, x)) by {
                    if query_set(out@).contains(x) {
                        let t = choose|t: int| 0 <= t < out@.len() && x == #[trigger] out@[t] as int;
                        if t < before.len() {
                            assert(query_set(before).contains(x));
                        }
                    }
                    if 0 <= x < p + 1 && bit_at(bits@, x) {
                        if x < p {
                            assert(query_set(before).contains(x));
                            let t = choose|t: int| 0 <= t < before.len() && x == #[trigger] before[t] as int;
                            assert(out@[t] == before[t]);
                        } else {
                            assert(out@[before.len() as int] == p);
                        }
                    }
                }
            } else {
                assert forall|x: int| query_set(out@).contains(x) <==> (0 <= x < p + 1 && bit_at(bits@, x)) by {
                    if x == p {
                        if query_set(out@).contains(x) {
                            let t = choose|t: int| 0 <= t < out@.len() && x == #[trigger] out@[t] as int;
                        }
                    }
                }
            }
            assert(query_set(out@) =~= Set::new(|x: int| 0 <= x < p + 1 && bit_at(bits@, x)));
            p = p + 1;
        }
        out
    }

    /// Makes sure the last bucket has a free slot, opening a new bucket when
    /// there is none or the last is full.
    fn get_bucket(&mut self)
        requires
            old(self).wf(),
        ensures
            final(self).wf(),
            final(self).spec_m() == old(self).spec_m(),
            final(self).spec_k() == old(self).spec_k(),
            final(self).docs() == old(self).docs(),
            final(self).buckets().len() > 0,
            final(self).buckets().last().count() < 128,
            final(self).buckets().len() == if old(self).buckets().len() == 0
                || old(self).buckets().last().count() == 128 {
                old(self).buckets().len() + 1
            } else {
                old(self).buckets().len()
            },
    {
        if self.bucket.len() == 0 || self.bucket[self.bucket.len() - 1].is_full() {
            let ghost before = self.buckets();
            self.bucket.push(Bucket::new(self.bloom_size, self.bloom_k));
            proof {
                assert(self.buckets().drop_last() == before);
                assert(flat_docs(self.buckets()) =~= flat_docs(before));
            }
        }
    }

    /// The query positions, ascending, for `trigrams` under the shard's `(m, k)`.
    fn get_query_bits(&self, trigrams: &[String]) -> (r: Vec<u128>)
        requires
            self.wf(),
        ensures
            query_set(r@) == self.query_of(trigrams.deep_view()),
            forall|a: int| 0 <= a < r@.len() ==> (#[trigger] r@[a]) < self.m_bits(),
            (r@.len() == 0) == (trigrams@.len() == 0 || self.spec_k() == 0),
    {
        let ghost fs = trigrams.deep_view();
        let ghost m = self.m_bits();
        let mut bloom_filter = BloomFilter::new(self.bloom_size * WORD_BITS, self.bloom_k);
        assert(bloom_positions(fs.take(0), self.bloom_k, m) =~= Set::<int>::empty());
        let mut t: usize = 0;
        while t < trigrams.len()
            invariant
                t <= trigrams@.len(),
                fs == trigrams.deep_view(),
                bloom_filter.wf(),
                bloom_filter.spec_num_bits() == m,
                m == self.m_bits(),
                m > 0,
                bloom_filter.spec_hashes() == self.bloom_k,
                bloom_filter.ones() == bloom_positions(fs.take(t as int), self.bloom_k, m),
            decreases trigrams.len() - t,
        {
            bloom_filter.add(trigrams[t].as_str());
            proof {
                assert(fs.take(t + 1) == fs.take(t as int).push(fs[t as int]));
                lemma_bloom_positions_push(fs.take(t as int), fs[t as int], self.bloom_k, m);
            }
            t = t + 1;
        }
        assert(fs.take(trigrams@.len() as int) == fs);
        let words = bloom_filter.get_bitset();
        let r = Self::get_set_bits(words);
        proof {
            assert(query_set(r@) =~= bloom_filter.ones());
            if trigrams@.len() > 0 && self.spec_k() > 0 {
                let p = (crate::bloom::salted_hash(fs[0], 0) as int) % (m as int);
                assert(crate::bloom::feature_positions(fs[0], self.bloom_k, m).contains(p));
                assert(bloom_filter.ones().contains(p));
                let t = choose|t: int| 0 <= t < r@.len() && p == #[trigger] r@[t] as int;
            } else {
                assert(bloom_filter.ones() =~= Set::<int>::empty());
                if r@.len() > 0 {
                    assert(query_set(r@).contains(r@[0] as int));
                }
            }
        }
        r
    }

    /// The keys of the documents whose filters hold every query position of
    /// `trigrams`, bucket by bucket and slot by slot.
    pub fn search(&self, trigrams: &[String]) -> (r: Vec<usize>)
        requires
            self.wf(),
        ensures
            r@ == self.and_hits(trigrams.deep_view()),
    {
        let query_bits = self.get_query_bits(trigrams);
        let mut out: Vec<usize> = Vec::new();
        if query_bits.len() == 0 {
            return out;
        }
        let ghost q = self.query_of(trigrams.deep_view());
        let ghost bs = self.buckets();
        let mut b: usize = 0;
        while b < self.bucket.len()
            invariant
                self.wf(),
                bs == self.buckets(),
                b <= bs.len(),
                query_bits@.len() > 0,
                query_set(query_bits@) == q,
                forall|a: int| 0 <= a < query_bits@.len() ==> (#[trigger] query_bits@[a]) < self.m_bits(),
                out@ == and_keys(flat_docs(bs.take(b as int)), q),
            decreases bs.len() - b,
        {
            let mut part = self.bucket[b].search(query_bits.as_slice());
            proof {
                assert(bs.take(b + 1).drop_last() == bs.take(b as int));
                lemma_and_keys_concat(flat_docs(bs.take(b as int)), bs[b as int].docs(), q);
            }
            out.append(&mut part);
            b = b + 1;
        }
        assert(bs.take(bs.len() as int) == bs);
        out
    }

    /// The keys of the documents whose filters hold some query position of
    /// `trigrams`, bucket by bucket and slot by slot.
    pub fn search_or(&self, trigrams: &[String]) -> (r: Vec<usize>)
        requires
            self.wf(),
        ensures
            r@ == self.or_hits(trigrams.deep_view()),
    {
        let query_bits = self.get_query_bits(trigrams);
        let mut out: Vec<usize> = Vec::new();
        let ghost q = self.query_of(trigrams.deep_view());
        let ghost bs = self.buckets();
        let mut b: usize = 0;
        while b < self.bucket.len()
            invariant
                self.wf(),
                bs == self.buckets(),
                b <= bs.len(),
                query_set(query_bits@) == q,
                forall|a: int| 0 <= a < query_bits@.len() ==> (#[trigger] query_bits@[a]) < self.m_bits(),
                out@ == or_keys(flat_docs(bs.take(b as int)), q),
            decreases bs.len() - b,
        {
            let mut part = self.bucket[b].search_or(query_bits.as_slice());
            proof {
                assert(bs.take(b + 1).drop_last() == bs.take(b as int));
                lemma_or_keys_concat(flat_docs(bs.take(b as int)), bs[b as int].docs(), q);
            }
            out.append(&mut part);
            b = b + 1;
        }
        assert(bs.take(bs.len() as int) == bs);
        out
    }

    /// Whether `p` holds exactly this shard's fields.
    pub open spec fn parts_are(&self, p: ShardParts) -> bool {
        &&& p.bucket@.len() == self.buckets().len()
        &&& forall|b: int| 0 <= b < p.bucket@.len() ==> self.buckets()[b].parts_are(#[trigger] p.bucket@[b])
        &&& p.bloom_size as nat == self.spec_m()
        &&& p.bloom_k == self.spec_k()
    }

    /// The shard's fields as plain values.
    pub fn to_parts(&self) -> (r: ShardParts)
        requires
            self.wf(),
        ensures
            self.parts_are(r),
            shard_parts_valid(r),
    {
        let mut out: Vec<BucketParts> = Vec::new();
        let mut b: usize = 0;
        while b < self.bucket.len()
            invariant
                self.wf(),
                b <= self.buckets().len(),
                out@.len() == b,
                forall|b2: int| 0 <= b2 < b ==> self.buckets()[b2].parts_are(#[trigger] out@[b2]),
                forall|b2: int| 0 <= b2 < b ==> parts_valid(#[trigger] out@[b2]),
            decreases self.buckets().len() - b,
        {
            let part = self.bucket[b].to_parts();
            out.push(part);
            b = b + 1;
        }
        ShardParts { bucket: out, bloom_size: self.bloom_size, bloom_k: self.bloom_k }
    }

    /// The shard the parts describe, or `None` when they describe no
    /// well-formed shard.
    pub fn from_parts(p: &ShardParts) -> (r: Option<Shard>)
        ensures
            r is Some <==> shard_parts_valid(*p),
            r matches Some(s) ==> s.wf() && s.parts_are(*p),
    {
        if p.bloom_size == 0 || p.bloom_size > usize::MAX / WORD_BITS {
            return None;
        }
        let mut out: Vec<Bucket> = Vec::new();
        let n = p.bucket.len();
        let mut b: usize = 0;
        while b < n
            invariant
                n == p.bucket@.len(),
                b <= n,
                p.bloom_size > 0,
                p.bloom_size * 128 <= usize::MAX,
                out@.len() == b,
                forall|b2: int| 0 <= b2 < b ==> {
                    &&& parts_valid(#[trigger] p.bucket@[b2])
                    &&& p.bucket@[b2].bloom_size == p.bloom_size
                    &&& p.bucket@[b2].bloom_k == p.bloom_k
                },
                forall|b2: int| 0 <= b2 < b && b2 < n - 1 ==> (#[trigger] p.bucket@[b2]).bloom_count == 128,
                forall|b2: int| 0 <= b2 < b ==> (#[trigger] out@[b2]).wf() && out@[b2].parts_are(p.bucket@[b2]),
            decreases n - b,
        {
            let bp = &p.bucket[b];
            if bp.bloom_size != p.bloom_size || bp.bloom_k != p.bloom_k || (b + 1 < n && bp.bloom_count != 128) {
                return None;
            }
            match Bucket::from_parts(bp) {
                Some(bucket) => {
                    out.push(bucket);
                },
                None => {
                    return None;
                },
            }
            b = b + 1;
        }
        let s = Shard { bucket: out, bloom_size: p.bloom_size, bloom_k: p.bloom_k };
        assert forall|b2: int| 0 <= b2 < s.buckets().len() - 1 implies (#[trigger] s.buckets()[b2]).count() == 128 by {
            assert(s.buckets()[b2].parts_are(p.bucket@[b2]));
        }
        Some(s)
    }
}

} // verus!
