//! A bucket: up to 128 documents' Bloom filters stored transposed, so that
//! bit `d` of column `i` is bit `i` of the filter of the document in slot `d`.
use vstd::prelude::*;

use crate::bloom::{
    BloomFilter, WORD_BITS, bit_at, bloom_positions, get_bit, lemma_bit_ops, lemma_bloom_positions_push,
    lemma_high_bits_clear, lemma_single_bit,
};

verus! {

/// A stored document as the queries see it: its key and the set bit
/// positions of its Bloom filter.
pub type DocBits = (usize, Set<int>);

/// The bit positions listed in `q`.
pub open spec fn query_set(q: Seq<u128>) -> Set<int> {
    Set::new(|p: int| exists|t: int| 0 <= t < q.len() && p == #[trigger] q[t] as int)
}

/// Whether two position sets share a position.
pub open spec fn overlaps(a: Set<int>, b: Set<int>) -> bool {
    exists|p: int| a.contains(p) && b.contains(p)
}

/// The keys, in order, of the documents whose filters hold every position of `q`.
pub open spec fn and_keys(docs: Seq<DocBits>, q: Set<int>) -> Seq<usize>
    decreases docs.len(),
{
    if docs.len() == 0 {
        seq![]
    } else if q.subset_of(docs.last().1) {
        and_keys(docs.drop_last(), q).push(docs.last().0)
    } else {
        and_keys(docs.drop_last(), q)
    }
}

/// The keys, in order, of the documents whose filters hold some position of `q`.
pub open spec fn or_keys(docs: Seq<DocBits>, q: Set<int>) -> Seq<usize>
    decreases docs.len(),
{
    if docs.len() == 0 {
        seq![]
    } else if overlaps(q, docs.last().1) {
        or_keys(docs.drop_last(), q).push(docs.last().0)
    } else {
        or_keys(docs.drop_last(), q)
    }
}

/// The fields of a bucket as plain values, as a snapshot stores them.
pub struct BucketParts {
    pub messages: Vec<usize>,
    pub bloom_filter: Vec<u128>,
    pub bloom_count: u8,
    pub bloom_size: usize,
    pub bloom_k: u64,
}

/// Whether the parts describe a well-formed bucket: 128 key slots, one
/// column per filter bit, at most 128 documents, and no column with a bit
/// set for an unused slot.
pub open spec fn parts_valid(p: BucketParts) -> bool {
    &&& p.messages@.len() == 128
    &&& p.bloom_size * 128 <= usize::MAX
    &&& p.bloom_filter@.len() == p.bloom_size * 128
    &&& p.bloom_count <= 128
    &&& forall|i: int, d: int|
        0 <= i < p.bloom_filter@.len() && p.bloom_count <= d < 128 ==> !#[trigger] get_bit(
            p.bloom_filter@[i],
            d as u128,
        )
}

/// A column store of up to 128 documents sharing the parameters `(m, k)`.
pub struct Bucket {
    messages: Vec<usize>,
    bloom_filter: Vec<u128>,
    bloom_count: u8,
    bloom_size: usize,
    bloom_k: u64,
}

impl Bucket {
    /// The per-slot document keys.
    pub closed spec fn ids(&self) -> Seq<usize> {
        self.messages@
    }

    /// The columns: one word per filter bit, one bit per slot.
    pub closed spec fn cols(&self) -> Seq<u128> {
        self.bloom_filter@
    }

    /// How many slots are in use.
    pub closed spec fn count(&self) -> nat {
        self.bloom_count as nat
    }

    /// The filter length in words.
    pub closed spec fn spec_m(&self) -> nat {
        self.bloom_size as nat
    }

    /// The hash count.
    pub closed spec fn spec_k(&self) -> u64 {
        self.bloom_k
    }

    /// The filter length in bits.
    pub open spec fn m_bits(&self) -> nat {
        self.spec_m() * 128
    }

    /// The set bit positions of the filter in slot `d`.
    pub open spec fn doc_bits(&self, d: int) -> Set<int> {
        Set::new(|i: int| 0 <= i < self.m_bits() && get_bit(self.cols()[i], d as u128))
    }

    /// The stored documents, slot by slot.
    pub open spec fn docs(&self) -> Seq<DocBits> {
        Seq::new(self.count(), |d: int| (self.ids()[d], self.doc_bits(d)))
    }

    /// Slots past `count` are clear in every column; `count` is at most 128.
    pub open spec fn wf(&self) -> bool {
        &&& self.ids().len() == 128
        &&& self.cols().len() == self.m_bits()
        &&& self.m_bits() <= usize::MAX
        &&& self.count() <= 128
        &&& forall|i: int, d: int|
            0 <= i < self.m_bits() && self.count() <= d < 128 ==> !#[trigger] get_bit(
                self.cols()[i],
                d as u128,
            )
    }

    /// An empty bucket for filters of `bloom_size` words and `bloom_k` hashes.
    pub fn new(bloom_size: usize, bloom_k: u64) -> (r: Self)
        requires
            bloom_size * 128 <= usize::MAX,
        ensures
            r.wf(),
            r.spec_m() == bloom_size,
            r.spec_k() == bloom_k,
            r.docs() == Seq::<DocBits>::empty(),
    {
        let r = Self {
            messages: vec![0; WORD_BITS],
            bloom_filter: vec![0; bloom_size * WORD_BITS],
            bloom_count: 0,
            bloom_size,
            bloom_k,
        };
        assert forall|i: int, d: int| 0 <= i < r.m_bits() && r.count() <= d < 128 implies !#[trigger] get_bit(
            r.cols()[i],
            d as u128,
        ) by {
            lemma_bit_ops(0, 0, d as u128);
        }
        assert(r.docs() =~= Seq::<DocBits>::empty());
        r
    }

    /// Whether every slot is in use.
    pub fn is_full(&self) -> (r: bool)
        ensures
            r == (self.count() == 128),
    {
        self.bloom_count == 128
    }

    /// The filter length in words.
    pub fn bloom_size(&self) -> (r: usize)
        ensures
            r == self.spec_m(),
    {
        self.bloom_size
    }

    /// The hash count.
    pub fn bloom_k(&self) -> (r: u64)
        ensures
            r == self.spec_k(),
    {
        self.bloom_k
    }

    /// How many slots are in use.
    pub fn len(&self) -> (r: usize)
        ensures
            r == self.count(),
    {
        self.bloom_count as usize
    }

    /// Stores, in the next free slot, the document with key `key` whose
    /// features are `trigrams`: its filter is their Bloom encoding with the
    /// bucket's `(m, k)`.
    pub fn add_message(&mut self, trigrams: &[String], key: usize)
        requires
            old(self).wf(),
            old(self).count() < 128,
            old(self).spec_m() > 0,
        ensures
            final(self).wf(),
            final(self).spec_m() == old(self).spec_m(),
            final(self).spec_k() == old(self).spec_k(),
            final(self).docs() == old(self).docs().push(
                (key, bloom_positions(trigrams.deep_view(), old(self).spec_k(), old(self).m_bits())),
            ),
    {
        let ghost fs = trigrams.deep_view();
        let ghost m = self.m_bits();
        let mut bloom_filter = BloomFilter::new(self.bloom_size * WORD_BITS, self.bloom_k);
        assert(bloom_positions(fs.take(0), self.bloom_k, m) =~= Set::<int>::empty());
        let mut t: usize = 0;
        while t < trigrams.len()
            invariant
                t <= trigrams@.len(),
                fs == trigrams.deep_view(),
                bloom_filter.wf(),
                bloom_filter.spec_num_bits() == m,
                m == self.m_bits(),
                m > 0,
                bloom_filter.spec_hashes() == self.bloom_k,
                bloom_filter.ones() == bloom_positions(fs.take(t as int), self.bloom_k, m),
            decreases trigrams.len() - t,
        {
            bloom_filter.add(trigrams[t].as_str());
            proof {
                assert(fs.take(t + 1) == fs.take(t as int).push(fs[t as int]));
                lemma_bloom_positions_push(fs.take(t as int), fs[t as int], self.bloom_k, m);
            }
            t = t + 1;
        }
        assert(fs.take(trigrams@.len() as int) == fs);
        let ghost before = self.docs();
        let ghost old_count = self.count() as int;
        let bits = bloom_filter.get_bitset();
        self.add_bloom(bits);
        assert(self.doc_bits(old_count) =~= bloom_filter.ones());
        let ghost mid = *self;
        let slot = (self.bloom_count - 1) as usize;
        self.messages.set(slot, key);
        assert forall|d: int| 0 <= d < old_count implies #[trigger] self.docs()[d] == before[d] by {
            assert(mid.doc_bits(d) == before[d].1);
            assert(self.doc_bits(d) =~= mid.doc_bits(d));
        }
        assert(self.doc_bits(old_count) =~= mid.doc_bits(old_count));
        assert(self.docs() =~= before.push((key, bloom_positions(fs, self.bloom_k, m))));
    }

    /// Writes the filter `vec` into slot `count` and takes that slot.
    fn add_bloom(&mut self, vec: &[u128])
        requires
            old(self).wf(),
            old(self).count() < 128,
            vec@.len() == old(self).spec_m(),
        ensures
            final(self).wf(),
            final(self).spec_m() == old(self).spec_m(),
            final(self).spec_k() == old(self).spec_k(),
            final(self).ids() == old(self).ids(),
            final(self).count() == old(self).count() + 1,
            forall|d: int| 0 <= d < old(self).count() ==> #[trigger] final(self).doc_bits(d) == old(self).doc_bits(d),
            final(self).doc_bits(old(self).count() as int) == Set::new(
                |i: int| 0 <= i < old(self).m_bits() && bit_at(vec@, i),
            ),
    {
        let ghost old_cols = self.cols();
        let c = self.bloom_count;
        let n = self.bloom_size * WORD_BITS;
        let mut i: usize = 0;
        while i < n
            invariant
                n == self.m_bits(),
                i <= n,
                c == self.bloom_count,
                c < 128,
                vec@.len() == self.spec_m(),
                self.cols().len() == n,
                old_cols.len() == n,
                self.messages@ == old(self).ids(),
                self.bloom_size == old(self).spec_m(),
                self.bloom_k == old(self).spec_k(),
                forall|i2: int, d: int|
                    0 <= i2 < n && 0 <= d < 128 ==> #[trigger] get_bit(self.cols()[i2], d as u128) == (
                    get_bit(old_cols[i2], d as u128) || (i2 < i && d == c && bit_at(vec@, i2))),
            decreases n - i,
        {
            let word = vec[i / WORD_BITS];
            let set = word & (1u128 << ((i % WORD_BITS) as u128)) != 0;
            proof {
                lemma_bit_ops(word, 0, (i % 128) as u128);
            }
            if set {
                let ghost before = self.cols();
                let w = self.bloom_filter[i] | (1u128 << (c as u128));
                self.bloom_filter.set(i, w);
                assert forall|i2: int, d: int| 0 <= i2 < n && 0 <= d < 128 implies #[trigger] get_bit(
                    self.cols()[i2],
                    d as u128,
                ) == (get_bit(old_cols[i2], d as u128) || (i2 < i + 1 && d == c && bit_at(vec@, i2))) by {
                    if i2 == i {
                        lemma_bit_ops(before[i2], 1u128 << (c as u128), d as u128);
                        if d == c {
                            lemma_bit_ops(0, 0, c as u128);
                        } else {
                            lemma_single_bit(c as u128, d as u128);
                        }
                    }
                }
            }
            i = i + 1;
        }
        self.bloom_count = c + 1;
        assert(self.doc_bits(c as int) =~= Set::new(|i: int| 0 <= i < old(self).m_bits() && bit_at(vec@, i)));
        assert forall|d: int| 0 <= d < old(self).count() implies #[trigger] self.doc_bits(d) == old(self).doc_bits(d) by {
            assert(self.doc_bits(d) =~= old(self).doc_bits(d));
        }
    }

    /// Whether the filter in slot `d` holds every position listed in `q`.
    pub open spec fn holds_all(&self, q: Seq<u128>, d: int) -> bool {
        forall|t: int| 0 <= t < q.len() ==> get_bit(#[trigger] self.cols()[q[t] as int], d as u128)
    }

    /// Whether the filter in slot `d` holds some position listed in `q`.
    pub open spec fn holds_any(&self, q: Seq<u128>, d: int) -> bool {
        exists|t: int| 0 <= t < q.len() && get_bit(#[trigger] self.cols()[q[t] as int], d as u128)
    }

    /// Holding every listed position is holding the query set.
    proof fn lemma_holds_all(&self, q: Seq<u128>, d: int)
        requires
            self.wf(),
            0 <= d < 128,
            forall|t: int| 0 <= t < q.len() ==> (#[trigger] q[t]) < self.m_bits(),
        ensures
            self.holds_all(q, d) == query_set(q).subset_of(self.doc_bits(d)),
    {
        if self.holds_all(q, d) {
            assert forall|p: int| query_set(q).contains(p) implies self.doc_bits(d).contains(p) by {
                let t = choose|t: int| 0 <= t < q.len() && p == #[trigger] q[t] as int;
            }
        }
        if query_set(q).subset_of(self.doc_bits(d)) {
            assert forall|t: int| 0 <= t < q.len() implies get_bit(#[trigger] self.cols()[q[t] as int], d as u128) by {
                assert(query_set(q).contains(q[t] as int));
            }
        }
    }

    /// Holding some listed position is overlapping the query set.
    proof fn lemma_holds_any(&self, q: Seq<u128>, d: int)
        requires
            self.wf(),
            0 <= d < 128,
            forall|t: int| 0 <= t < q.len() ==> (#[trigger] q[t]) < self.m_bits(),
        ensures
            self.holds_any(q, d) == overlaps(query_set(q), self.doc_bits(d)),
    {
        if self.holds_any(q, d) {
            let t = choose|t: int| 0 <= t < q.len() && get_bit(#[trigger] self.cols()[q[t] as int], d as u128);
            assert(query_set(q).contains(q[t] as int) && self.doc_bits(d).contains(q[t] as int));
        }
        if overlaps(query_set(q), self.doc_bits(d)) {
            let p = choose|p: int| query_set(q).contains(p) && self.doc_bits(d).contains(p);
            let t = choose|t: int| 0 <= t < q.len() && p == #[trigger] q[t] as int;
            assert(get_bit(self.cols()[q[t] as int], d as u128));
        }
    }

    /// The keys, slot by slot, of the documents whose filters hold every
    /// position in `query_bits` (the set bits of a query's filter).
    pub fn search(&self, query_bits: &[u128]) -> (r: Vec<usize>)
        requires
            self.wf(),
            query_bits@.len() > 0,
            forall|t: int| 0 <= t < query_bits@.len() ==> (#[trigger] query_bits@[t]) < self.m_bits(),
        ensures
            r@ == and_keys(self.docs(), query_set(query_bits@)),
    {
        let ghost q = query_bits@;
        let mut res: u128 = self.bloom_filter[query_bits[0] as usize];
        let mut t: usize = 1;
        assert forall|d: int| 0 <= d < 128 implies #[trigger] get_bit(res, d as u128) == self.holds_all(
            q.take(1),
            d,
        ) by {
            assert(q.take(1)[0] == q[0]);
        }
        while t < query_bits.len() && res != 0
            invariant
                self.wf(),
                q == query_bits@,
                1 <= t <= q.len(),
                forall|t2: int| 0 <= t2 < q.len() ==> (#[trigger] q[t2]) < self.m_bits(),
                forall|d: int|
                    0 <= d < 128 ==> #[trigger] get_bit(res, d as u128) == self.holds_all(q.take(t as int), d),
            decreases q.len() - t,
        {
            let col = self.bloom_filter[query_bits[t] as usize];
            let ghost before = res;
            res = res & col;
            assert forall|d: int| 0 <= d < 128 implies #[trigger] get_bit(res, d as u128) == self.holds_all(
                q.take(t + 1),
                d,
            ) by {
                lemma_bit_ops(before, col, d as u128);
                assert(q.take(t + 1)[t as int] == q[t as int]);
                assert forall|t2: int| 0 <= t2 < t implies q.take(t + 1)[t2] == q.take(t as int)[t2] by {}
                if self.holds_all(q.take(t as int), d) && get_bit(col, d as u128) {
                    assert forall|t2: int| 0 <= t2 < t + 1 implies get_bit(
                        #[trigger] self.cols()[q.take(t + 1)[t2] as int],
                        d as u128,
                    ) by {
                        if t2 < t {
                            assert(get_bit(self.cols()[q.take(t as int)[t2] as int], d as u128));
                        }
                    }
                }
                if self.holds_all(q.take(t + 1), d) {
                    assert(get_bit(self.cols()[q.take(t + 1)[t as int] as int], d as u128));
                    assert forall|t2: int| 0 <= t2 < t implies get_bit(
                        #[trigger] self.cols()[q.take(t as int)[t2] as int],
                        d as u128,
                    ) by {
                        assert(get_bit(self.cols()[q.take(t + 1)[t2] as int], d as u128));
                    }
                }
            }
            t = t + 1;
        }
        assert forall|d: int| 0 <= d < 128 implies #[trigger] get_bit(res, d as u128) == self.holds_all(q, d) by {
            if t == q.len() {
                assert(q.take(t as int) == q);
            } else {
                lemma_bit_ops(0, 0, d as u128);
                if self.holds_all(q, d) {
                    assert forall|t2: int| 0 <= t2 < t implies get_bit(
                        #[trigger] self.cols()[q.take(t as int)[t2] as int],
                        d as u128,
                    ) by {
                        assert(get_bit(self.cols()[q[t2] as int], d as u128));
                    }
                }
            }
        }
        self.collect(res, Ghost(q), true)
    }

    /// The keys, slot by slot, of the documents whose filters hold some
    /// position in `query_bits`.
    pub fn search_or(&self, query_bits: &[u128]) -> (r: Vec<usize>)
        requires
            self.wf(),
            forall|t: int| 0 <= t < query_bits@.len() ==> (#[trigger] query_bits@[t]) < self.m_bits(),
        ensures
            r@ == or_keys(self.docs(), query_set(query_bits@)),
    {
        let ghost q = query_bits@;
        let mut res: u128 = 0;
        let mut t: usize = 0;
        assert forall|d: int| 0 <= d < 128 implies #[trigger] get_bit(res, d as u128) == self.holds_any(
            q.take(0),
            d,
        ) by {
            lemma_bit_ops(0, 0, d as u128);
        }
        while t < query_bits.len()
            invariant
                self.wf(),
                q == query_bits@,
                t <= q.len(),
                forall|t2: int| 0 <= t2 < q.len() ==> (#[trigger] q[t2]) < self.m_bits(),
                forall|d: int|
                    0 <= d < 128 ==> #[trigger] get_bit(res, d as u128) == self.holds_any(q.take(t as int), d),
            decreases q.len() - t,
        {
            let col = self.bloom_filter[query_bits[t] as usize];
            let ghost before = res;
            res = res | col;
            assert forall|d: int| 0 <= d < 128 implies #[trigger] get_bit(res, d as u128) == self.holds_any(
                q.take(t + 1),
                d,
            ) by {
                lemma_bit_ops(before, col, d as u128);
                if self.holds_any(q.take(t as int), d) {
                    let t2 = choose|t2: int| 0 <= t2 < t && get_bit(
                        #[trigger] self.cols()[q.take(t as int)[t2] as int],
                        d as u128,
                    );
                    assert(get_bit(self.cols()[q.take(t + 1)[t2] as int], d as u128));
                }
                if get_bit(col, d as u128) {
                    assert(get_bit(self.cols()[q.take(t + 1)[t as int] as int], d as u128));
                }
                if self.holds_any(q.take(t + 1), d) {
                    let t2 = choose|t2: int| 0 <= t2 < t + 1 && get_bit(
                        #[trigger] self.cols()[q.take(t + 1)[t2] as int],
                        d as u128,
                    );
                    if t2 < t {
                        assert(get_bit(self.cols()[q.take(t as int)[t2] as int], d as u128));
                    }
                }
            }
            t = t + 1;
        }
        assert(q.take(t as int) == q);
        self.collect(res, Ghost(q), false)
    }

    /// The keys of the used slots whose bit is set in `res`, where bit `d` of
    /// `res` tells whether slot `d` matched `q` (all of it, or any of it).
    fn collect(&self, res: u128, Ghost(q): Ghost<Seq<u128>>, all: bool) -> (r: Vec<usize>)
        requires
            self.wf(),
            forall|t: int| 0 <= t < q.len() ==> (#[trigger] q[t]) < self.m_bits(),
            forall|d: int|
                0 <= d < 128 ==> #[trigger] get_bit(res, d as u128) == if all {
                    self.holds_all(q, d)
                } else {
                    self.holds_any(q, d)
                },
        ensures
            all ==> r@ == and_keys(self.docs(), query_set(q)),
            !all ==> r@ == or_keys(self.docs(), query_set(q)),
    {
        let ghost docs = self.docs();
        let ghost qs = query_set(q);
        let mut out: Vec<usize> = Vec::new();
        let n = self.bloom_count as usize;
        let mut j: usize = 0;
        while j < n
            invariant
                self.wf(),
                n == self.count(),
                j <= n,
                docs == self.docs(),
                qs == query_set(q),
                forall|t: int| 0 <= t < q.len() ==> (#[trigger] q[t]) < self.m_bits(),
                forall|d: int|
                    0 <= d < 128 ==> #[trigger] get_bit(res, d as u128) == if all {
                        self.holds_all(q, d)
                    } else {
                        self.holds_any(q, d)
                    },
                all ==> out@ == and_keys(docs.take(j as int), qs),
                !all ==> out@ == or_keys(docs.take(j as int), qs),
            decreases n - j,
        {
            let hit = res & (1u128 << (j as u128)) != 0;
            proof {
                lemma_bit_ops(res, 0, j as u128);
                self.lemma_holds_all(q, j as int);
                self.lemma_holds_any(q, j as int);
                assert(docs.take(j + 1).drop_last() == docs.take(j as int));
                assert(docs.take(j + 1).last() == docs[j as int]);
            }
            if hit {
                out.push(self.messages[j]);
            }
            j = j + 1;
        }
        assert(docs.take(n as int) == docs);
        out
    }

    /// The bucket's fields as plain values.
    pub fn to_parts(&self) -> (r: BucketParts)
        requires
            self.wf(),
        ensures
            self.parts_are(r),
            parts_valid(r),
    {
        BucketParts {
            messages: copy_vec(&self.messages),
            bloom_filter: copy_vec(&self.bloom_filter),
            bloom_count: self.bloom_count,
            bloom_size: self.bloom_size,
            bloom_k: self.bloom_k,
        }
    }

    /// Whether `p` holds exactly this bucket's fields.
    pub open spec fn parts_are(&self, p: BucketParts) -> bool {
        &&& p.messages@ == self.ids()
        &&& p.bloom_filter@ == self.cols()
        &&& p.bloom_count as nat == self.count()
        &&& p.bloom_size as nat == self.spec_m()
        &&& p.bloom_k == self.spec_k()
    }

    /// The bucket the parts describe, or `None` when they describe no
    /// well-formed bucket.
    pub fn from_parts(p: &BucketParts) -> (r: Option<Bucket>)
        ensures
            r is Some <==> parts_valid(*p),
            r matches Some(b) ==> b.wf() && b.parts_are(*p),
    {
        if p.messages.len() != WORD_BITS || p.bloom_size > usize::MAX / WORD_BITS || p.bloom_filter.len()
            != p.bloom_size * WORD_BITS || p.bloom_count > 128 {
            return None;
        }
        let c = p.bloom_count;
        let mut i: usize = 0;
        while i < p.bloom_filter.len()
            invariant
                i <= p.bloom_filter@.len(),
                c == p.bloom_count,
                c <= 128,
                forall|i2: int, d: int|
                    0 <= i2 < i && c <= d < 128 ==> !#[trigger] get_bit(p.bloom_filter@[i2], d as u128),
            decreases p.bloom_filter@.len() - i,
        {
            let col = p.bloom_filter[i];
            if c < 128 && (col >> (c as u128)) != 0 {
                let mut d: u8 = c;
                while d < 128
                    invariant
                        c <= d <= 128,
                        c == p.bloom_count,
                        i < p.bloom_filter@.len(),
                        col == p.bloom_filter@[i as int],
                        forall|d2: int| c <= d2 < d ==> !#[trigger] get_bit(col, d2 as u128),
                    decreases 128 - d,
                {
                    proof {
                        lemma_bit_ops(col, 0, d as u128);
                    }
                    if col & (1u128 << (d as u128)) != 0 {
                        assert(get_bit(p.bloom_filter@[i as int], (d as int) as u128));
                        assert(!parts_valid(*p));
                        return None;
                    }
                    d = d + 1;
                }
            } else if c < 128 {
                assert forall|d2: int| c <= d2 < 128 implies !#[trigger] get_bit(col, d2 as u128) by {
                    lemma_high_bits_clear(col, c as u128, d2 as u128);
                }
            }
            i = i + 1;
        }
        let b = Bucket {
            messages: copy_vec(&p.messages),
            bloom_filter: copy_vec(&p.bloom_filter),
            bloom_count: p.bloom_count,
            bloom_size: p.bloom_size,
            bloom_k: p.bloom_k,
        };
        Some(b)
    }
}

/// A copy of `v`.
pub fn copy_vec<T: Copy>(v: &Vec<T>) -> (r: Vec<T>)
    ensures
        r@ == v@,
{
    let mut out: Vec<T> = Vec::new();
    let mut i: usize = 0;
    while i < v.len()
        invariant
            i <= v@.len(),
            out@ == v@.take(i as int),
        decreases v@.len() - i,
    {
        out.push(v[i]);
        i = i + 1;
    }
    assert(v@.take(v@.len() as int) == v@);
    out
}

} // verus!
