//! Per-document Bloom filters over 128-bit words, the salted feature hash
//! they are built from, and the estimator of their parameters.
//!
//! Convention: a filter length `m` is counted in words of [`WORD_BITS`] bits
//! wherever it is a parameter of a shard or a bucket (`bloom_size`), and in
//! bits (`m * WORD_BITS`) wherever a filter is encoded or probed.
use vstd::prelude::*;

verus! {

/// Width in bits of a storage word, and so the number of documents a bucket holds.
pub const WORD_BITS: usize = 128;

/// Whether bit `j` (counted from the least significant) of `w` is set.
pub open spec fn get_bit(w: u128, j: u128) -> bool {
    (w >> j) & 1u128 == 1u128
}

/// Bit `i` of a bitset stored as consecutive 128-bit words.
pub open spec fn bit_at(words: Seq<u128>, i: int) -> bool {
    get_bit(words[i / 128], (i % 128) as u128)
}

/// What std's `DefaultHasher`, as made by `new`, returns after it was fed the
/// text `feature` and then the salt as eight little-endian bytes.
pub uninterp spec fn salted_hash(feature: Seq<char>, salt: u64) -> u64;

/// The bit positions a filter of `m` bits with `k` hashes sets for `feature`.
pub open spec fn feature_positions(feature: Seq<char>, k: u64, m: nat) -> Set<int> {
    Set::new(|p: int| exists|i: u64| i < k && p == (#[trigger] salted_hash(feature, i)) as int % (m as int))
}

/// The bit positions a filter of `m` bits with `k` hashes sets for all of `features`.
pub open spec fn bloom_positions(features: Seq<Seq<char>>, k: u64, m: nat) -> Set<int> {
    Set::new(
        |p: int|
            exists|j: int| 0 <= j < features.len() && #[trigger] feature_positions(features[j], k, m).contains(p),
    )
}

/// Relies on std's `DefaultHasher` (SipHash with fixed keys when made by
/// `new`): the hash of a text followed by a salt depends on those alone.
#[verifier::external_body]
fn hash_feature(feature: &str, salt: u64) -> (r: u64)
    ensures
        r == salted_hash(feature@, salt),
{
    let mut h = std::collections::hash_map::DefaultHasher::new();
    std::hash::Hash::hash(feature, &mut h);
    std::hash::Hasher::write(&mut h, &salt.to_le_bytes());
    std::hash::Hasher::finish(&h)
}

/// How single bits behave under `&`, `|`, a one-bit mask, and zero.
pub proof fn lemma_bit_ops(a: u128, b: u128, j: u128)
    requires
        j < 128,
    ensures
        get_bit(a & b, j) == (get_bit(a, j) && get_bit(b, j)),
        get_bit(a | b, j) == (get_bit(a, j) || get_bit(b, j)),
        get_bit(1u128 << j, j),
        ((a & (1u128 << j)) != 0) == get_bit(a, j),
        !get_bit(0u128, j),
{
    assert(get_bit(a & b, j) == (get_bit(a, j) && get_bit(b, j))) by (bit_vector)
        requires
            j < 128,
    ;
    assert(get_bit(a | b, j) == (get_bit(a, j) || get_bit(b, j))) by (bit_vector)
        requires
            j < 128,
    ;
    assert(get_bit(1u128 << j, j)) by (bit_vector)
        requires
            j < 128,
    ;
    assert(((a & (1u128 << j)) != 0) == get_bit(a, j)) by (bit_vector)
        requires
            j < 128,
    ;
    assert(!get_bit(0u128, j)) by (bit_vector);
}

/// A one-bit mask has no other bit set.
pub proof fn lemma_single_bit(j: u128, i: u128)
    requires
        j < 128,
        i < 128,
        i != j,
    ensures
        !get_bit(1u128 << j, i),
{
    assert(!get_bit(1u128 << j, i)) by (bit_vector)
        requires
            j < 128,
            i < 128,
            i != j,
    ;
}

/// Adding one more feature adds its positions.
pub proof fn lemma_bloom_positions_push(features: Seq<Seq<char>>, f: Seq<char>, k: u64, m: nat)
    ensures
        bloom_positions(features.push(f), k, m) == bloom_positions(features, k, m).union(
            feature_positions(f, k, m),
        ),
{
    let a = bloom_positions(features.push(f), k, m);
    let b = bloom_positions(features, k, m).union(feature_positions(f, k, m));
    assert forall|p: int| a.contains(p) implies b.contains(p) by {
        let j = choose|j: int| 0 <= j < features.push(f).len() && #[trigger] feature_positions(features.push(f)[j], k, m).contains(p);
        if j < features.len() {
            assert(feature_positions(features[j], k, m).contains(p));
        }
    }
    assert forall|p: int| b.contains(p) implies a.contains(p) by {
        if feature_positions(f, k, m).contains(p) {
            assert(feature_positions(features.push(f)[features.len() as int], k, m).contains(p));
        } else {
            let j = choose|j: int| 0 <= j < features.len() && #[trigger] feature_positions(features[j], k, m).contains(p);
            assert(feature_positions(features.push(f)[j], k, m).contains(p));
        }
    }
    assert(a =~= b);
}

/// The positions below `m` hashed for `feature` by the first `n` salts.
pub open spec fn positions_upto(feature: Seq<char>, n: u64, m: nat) -> Set<int> {
    Set::new(|p: int| exists|i: u64| i < n && p == (#[trigger] salted_hash(feature, i)) as int % (m as int))
}

/// Setting bit `idx` of a word array changes that bit alone.
pub proof fn lemma_set_bit_at(old_words: Seq<u128>, new_words: Seq<u128>, idx: int)
    requires
        0 <= idx < 128 * old_words.len(),
        new_words == old_words.update(idx / 128, old_words[idx / 128] | (1u128 << ((idx % 128) as u128))),
    ensures
        forall|p: int| 0 <= p < 128 * old_words.len() ==> #[trigger] bit_at(new_words, p) == (bit_at(old_words, p) || p == idx),
{
    assert forall|p: int| 0 <= p < 128 * old_words.len() implies #[trigger] bit_at(new_words, p) == (bit_at(old_words, p) || p == idx) by {
        let w = idx / 128;
        let j = (idx % 128) as u128;
        let i = (p % 128) as u128;
        if p / 128 == w {
            lemma_bit_ops(old_words[w], 1u128 << j, i);
            if p == idx {
                lemma_bit_ops(0, 0, j);
            } else {
                assert(p % 128 != idx % 128);
                lemma_single_bit(j, i);
            }
        } else {
            assert(p != idx);
        }
    }
}

/// A Bloom filter of `num_bits` bits, stored in 128-bit words, that sets
/// `hashes` bits per added item.
pub struct BloomFilter {
    bitset: Vec<u128>,
    num_bits: usize,
    hashes: u64,
}

impl BloomFilter {
    /// The filter's length in bits.
    pub closed spec fn spec_num_bits(&self) -> nat {
        self.num_bits as nat
    }

    /// The number of hash positions set per item.
    pub closed spec fn spec_hashes(&self) -> u64 {
        self.hashes
    }

    /// The words that hold the bits.
    pub closed spec fn words(&self) -> Seq<u128> {
        self.bitset@
    }

    /// The positions of the set bits.
    pub open spec fn ones(&self) -> Set<int> {
        Set::new(|i: int| 0 <= i < self.spec_num_bits() && bit_at(self.words(), i))
    }

    /// Just enough words for the bits, and no bit set past the last position.
    pub open spec fn wf(&self) -> bool {
        &&& self.words().len() == (self.spec_num_bits() + 127) / 128
        &&& forall|i: int|
            self.spec_num_bits() <= i < 128 * self.words().len() ==> !#[trigger] bit_at(self.words(), i)
    }

    /// An empty filter of `num_bits` bits that sets `hashes` bits per item.
    pub fn new(num_bits: usize, hashes: u64) -> (r: Self)
        ensures
            r.wf(),
            r.spec_num_bits() == num_bits,
            r.spec_hashes() == hashes,
            r.ones() == Set::<int>::empty(),
    {
        let num_words = num_bits / 128 + if num_bits % 128 == 0 {
            0
        } else {
            1
        };
        let r = Self { bitset: vec![0; num_words], num_bits, hashes };
        assert forall|i: int| 0 <= i < 128 * r.words().len() implies !#[trigger] bit_at(r.words(), i) by {
            lemma_bit_ops(0, 0, (i % 128) as u128);
        }
        assert(r.ones() =~= Set::<int>::empty());
        r
    }

    /// The filter's length in bits.
    pub fn num_bits(&self) -> (r: usize)
        ensures
            r == self.spec_num_bits(),
    {
        self.num_bits
    }

    /// The number of hash positions set per item.
    pub fn hashes(&self) -> (r: u64)
        ensures
            r == self.spec_hashes(),
    {
        self.hashes
    }

    /// Sets the `hashes` positions of `elem`: for each salt `i`, bit
    /// `salted_hash(elem, i) % num_bits`.
    pub fn add(&mut self, elem: &str)
        requires
            old(self).wf(),
            old(self).spec_num_bits() > 0,
        ensures
            final(self).wf(),
            final(self).spec_num_bits() == old(self).spec_num_bits(),
            final(self).spec_hashes() == old(self).spec_hashes(),
            final(self).ones() == old(self).ones().union(
                feature_positions(elem@, old(self).spec_hashes(), old(self).spec_num_bits()),
            ),
    {
        let ghost m = self.spec_num_bits();
        let ghost start = self.ones();
        let mut i: u64 = 0;
        assert(positions_upto(elem@, 0, m) =~= Set::<int>::empty());
        assert(start.union(positions_upto(elem@, 0, m)) =~= start);
        while i < self.hashes
            invariant
                self.wf(),
                self.spec_num_bits() == m,
                m > 0,
                self.hashes == old(self).spec_hashes(),
                i <= self.hashes,
                self.ones() == start.union(positions_upto(elem@, i, m)),
            decreases self.hashes - i,
        {
            let h = hash_feature(elem, i);
            let idx = (h % (self.num_bits as u64)) as usize;
            let word = idx / 128;
            let bit = idx % 128;
            let ghost before = self.words();
            let ghost before_ones = self.ones();
            let w = self.bitset[word] | (1u128 << (bit as u128));
            self.bitset.set(word, w);
            proof {
                lemma_set_bit_at(before, self.words(), idx as int);
                assert(self.ones() =~= before_ones.insert(idx as int));
                assert(positions_upto(elem@, (i + 1) as u64, m) =~= positions_upto(elem@, i, m).insert(idx as int));
                assert(self.ones() =~= start.union(positions_upto(elem@, (i + 1) as u64, m)));
            }
            i = i + 1;
        }
        assert(positions_upto(elem@, i, m) =~= feature_positions(elem@, i, m));
        assert(self.ones() == start.union(feature_positions(elem@, old(self).spec_hashes(), m)));
    }

    /// The words that hold the filter's bits.
    pub fn get_bitset(&self) -> (r: &Vec<u128>)
        ensures
            r@ == self.words(),
    {
        &self.bitset
    }
}

/// Scale of a bits-per-feature ratio: the ratio `-ln(p) / (ln 2)^2` that a
/// false-positive target `p` asks for is held as a whole number of billionths.
pub const RATIO_SCALE: u128 = 1_000_000_000;

/// ln 2 in billionths, rounded to the nearest.
pub const LN2_SCALED: u128 = 693_147_181;

/// The bits-per-feature ratio for a false-positive target of 0.6, in billionths.
pub const DEFAULT_RATIO: u64 = 1_063_216_608;

/// `a / b` rounded up.
pub open spec fn ceil_div(a: int, b: int) -> int {
    (a + b - 1) / b
}

/// The unrounded filter length in bits for `n` features: `ceil(n * ratio)`.
pub open spec fn raw_bits(n: nat, ratio: nat) -> int {
    ceil_div((n * ratio) as int, RATIO_SCALE as int)
}

/// The filter length in words for `n` features: `ceil(raw_bits / 128)`.
pub open spec fn words_for(n: nat, ratio: nat) -> int {
    ceil_div(raw_bits(n, ratio), 128)
}

/// The hash count for `n` features: `ceil(ln 2 * raw_bits / n)`, at least 1.
pub open spec fn hashes_for(n: nat, ratio: nat) -> int {
    let k = ceil_div(LN2_SCALED * raw_bits(n, ratio), n * RATIO_SCALE);
    if k < 1 {
        1
    } else {
        k
    }
}

/// Whether the parameters for `n` features can be held: the filter length in
/// bits fits a `usize` and the hash count fits a `u64`.
pub open spec fn parameters_fit(n: nat, ratio: nat) -> bool {
    words_for(n, ratio) * 128 <= usize::MAX && hashes_for(n, ratio) <= u64::MAX
}

/// The Bloom parameters `(m, k)` for `n > 0` features under a bits-per-feature
/// `ratio` (in billionths): `m` is the length in words and `k` the hash count.
/// `None` when they cannot be held (see [`parameters_fit`]).
pub fn estimate_parameters(n: usize, ratio: u64) -> (r: Option<(usize, u64)>)
    requires
        n > 0,
    ensures
        r is Some <==> parameters_fit(n as nat, ratio as nat),
        r matches Some((m, k)) ==> m == words_for(n as nat, ratio as nat) && k == hashes_for(
            n as nat,
            ratio as nat,
        ),
{
    let n2 = n as u128;
    let r2 = ratio as u128;
    assert(n2 * r2 <= 0xffff_ffff_ffff_ffffu128 * 0xffff_ffff_ffff_ffffu128) by (nonlinear_arith)
        requires
            n2 <= 0xffff_ffff_ffff_ffffu128,
            r2 <= 0xffff_ffff_ffff_ffffu128,
    ;
    let prod = n2 * r2;
    let raw = (prod + RATIO_SCALE - 1) / RATIO_SCALE;
    assert(raw <= 0xffff_ffff_ffff_ffffu128 * 0xffff_ffff_ffff_ffffu128 / 1_000_000_000 + 1);
    let words = (raw + 127) / 128;
    if words > (usize::MAX as u128) / 128 {
        return None;
    }
    assert(LN2_SCALED * raw <= 693_147_181 * (0xffff_ffff_ffff_ffffu128 * 0xffff_ffff_ffff_ffffu128 / 1_000_000_000 + 1)) by (nonlinear_arith)
        requires
            raw <= 0xffff_ffff_ffff_ffffu128 * 0xffff_ffff_ffff_ffffu128 / 1_000_000_000 + 1,
    ;
    let num = LN2_SCALED * raw;
    assert(n2 * RATIO_SCALE <= 0xffff_ffff_ffff_ffffu128 * 1_000_000_000) by (nonlinear_arith)
        requires
            n2 <= 0xffff_ffff_ffff_ffffu128,
    ;
    let den = n2 * RATIO_SCALE;
    let k = (num + den - 1) / den;
    let k = if k < 1 {
        1
    } else {
        k
    };
    if k > u64::MAX as u128 {
        return None;
    }
    Some((words as usize, k as u64))
}

} // verus!

verus! {

/// No bit from `c` up is set in a word whose bits from `c` up shift out to zero.
pub proof fn lemma_high_bits_clear(w: u128, c: u128, d: u128)
    requires
        c <= d < 128,
        w >> c == 0,
    ensures
        !get_bit(w, d),
{
    assert(!get_bit(w, d)) by (bit_vector)
        requires
            c <= d < 128,
            w >> c == 0,
    ;
}

} // verus!
