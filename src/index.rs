//! The index: a registry of shards keyed by Bloom parameters, the insert
//! path that routes each document to the shard its feature count selects,
//! and the AND / OR query paths.
use vstd::prelude::*;

use crate::bloom::{
    DEFAULT_RATIO, bloom_positions, estimate_parameters, feature_positions, hashes_for, parameters_fit, words_for,
};
use crate::bucket::{DocBits, and_keys, or_keys};
use crate::shard::{Shard, ShardParts, shard_parts_valid};
use crate::text::{features_of, tokenize, tokenize_words, word_features};

verus! {

/// One accepted insert: the key it was given and the features of its text.
pub type Insert = (usize, Seq<Seq<char>>);

/// Whether some insert of `h` with at least one feature had the key `key`.
pub open spec fn known_key(h: Seq<Insert>, key: usize) -> bool {
    exists|j: int| 0 <= j < h.len() && (#[trigger] h[j]).0 == key && h[j].1.len() > 0
}

/// Whether shard `s` has the parameters that `n` features select under `ratio`.
pub open spec fn selects(s: Shard, n: nat, ratio: nat) -> bool {
    s.spec_m() == words_for(n, ratio) && s.spec_k() == hashes_for(n, ratio)
}

/// Whether the insert `e` is stored: when it has features whose parameters
/// can be held, some shard with those parameters holds its key with the
/// Bloom encoding of its features.
pub open spec fn stored_in(shards: Seq<Shard>, ratio: nat, e: Insert) -> bool {
    e.1.len() > 0 && parameters_fit(e.1.len(), ratio) ==> exists|s: int|
        0 <= s < shards.len() && selects(#[trigger] shards[s], e.1.len(), ratio) && shards[s].docs().contains(
            (e.0, shards[s].query_of(e.1)),
        )
}

/// The AND matches of every shard, shard by shard.
pub open spec fn all_and_hits(shards: Seq<Shard>, qf: Seq<Seq<char>>) -> Seq<usize>
    decreases shards.len(),
{
    if shards.len() == 0 {
        seq![]
    } else {
        all_and_hits(shards.drop_last(), qf) + shards.last().and_hits(qf)
    }
}

/// The OR matches of every shard, shard by shard.
pub open spec fn all_or_hits(shards: Seq<Shard>, qf: Seq<Seq<char>>) -> Seq<usize>
    decreases shards.len(),
{
    if shards.len() == 0 {
        seq![]
    } else {
        all_or_hits(shards.drop_last(), qf) + shards.last().or_hits(qf)
    }
}

/// Whether every feature of `q` is a feature of `f`.
pub open spec fn covers(f: Seq<Seq<char>>, q: Seq<Seq<char>>) -> bool {
    forall|i: int| 0 <= i < q.len() ==> f.contains(#[trigger] q[i])
}

/// Every shard well formed, no two with the same parameters.
pub open spec fn shards_ok(shards: Seq<Shard>) -> bool {
    &&& forall|s: int| 0 <= s < shards.len() ==> (#[trigger] shards[s]).wf()
    &&& forall|s: int, t: int|
        0 <= s < t < shards.len() ==> !(#[trigger] shards[s].spec_m() == #[trigger] shards[t].spec_m()
            && shards[s].spec_k() == shards[t].spec_k())
}

/// The shards against the record of inserts: every insert with features is
/// stored, and every stored key is the key of an insert with features.
pub open spec fn history_ok(shards: Seq<Shard>, h: Seq<Insert>, ratio: nat) -> bool {
    &&& forall|j: int| 0 <= j < h.len() ==> stored_in(shards, ratio, #[trigger] h[j])
    &&& forall|s: int, t: int|
        0 <= s < shards.len() && 0 <= t < shards[s].docs().len() ==> known_key(
            h,
            (#[trigger] shards[s].docs()[t]).0,
        )
}

/// Recording an insert that touches no shard keeps the invariant.
pub proof fn lemma_unchanged_keeps(shards: Seq<Shard>, h: Seq<Insert>, ratio: nat, e: Insert)
    requires
        history_ok(shards, h, ratio),
        !(e.1.len() > 0 && parameters_fit(e.1.len(), ratio)),
    ensures
        history_ok(shards, h.push(e), ratio),
{
    assert forall|j: int| 0 <= j < h.push(e).len() implies stored_in(shards, ratio, #[trigger] h.push(e)[j]) by {
        if j < h.len() {
            assert(h.push(e)[j] == h[j]);
        }
    }
    assert forall|s: int, t: int| 0 <= s < shards.len() && 0 <= t < shards[s].docs().len() implies known_key(
        h.push(e),
        (#[trigger] shards[s].docs()[t]).0,
    ) by {
        let x = shards[s].docs()[t].0;
        let j = choose|j: int| 0 <= j < h.len() && (#[trigger] h[j]).0 == x && h[j].1.len() > 0;
        assert(h.push(e)[j] == h[j]);
    }
}

/// Storing an insert in the existing shard `si` that its features select
/// keeps the invariant.
pub proof fn lemma_update_keeps(shards: Seq<Shard>, h: Seq<Insert>, ratio: nat, si: int, after: Shard, e: Insert)
    requires
        shards_ok(shards),
        0 <= si < shards.len(),
        e.1.len() > 0,
        selects(shards[si], e.1.len(), ratio),
        after.wf(),
        after.spec_m() == shards[si].spec_m(),
        after.spec_k() == shards[si].spec_k(),
        after.docs() == shards[si].docs().push((e.0, shards[si].query_of(e.1))),
    ensures
        shards_ok(shards.update(si, after)),
        history_ok(shards, h, ratio) ==> history_ok(shards.update(si, after), h.push(e), ratio),
{
    let ns = shards.update(si, after);
    let nh = h.push(e);
    assert forall|s: int, t: int| 0 <= s < t < ns.len() implies !(#[trigger] ns[s].spec_m() == #[trigger] ns[t].spec_m()
        && ns[s].spec_k() == ns[t].spec_k()) by {
        assert(shards[s].spec_m() == ns[s].spec_m() && shards[s].spec_k() == ns[s].spec_k());
        assert(shards[t].spec_m() == ns[t].spec_m() && shards[t].spec_k() == ns[t].spec_k());
    }
    if !history_ok(shards, h, ratio) {
        return;
    }
    assert forall|j: int| 0 <= j < nh.len() implies stored_in(ns, ratio, #[trigger] nh[j]) by {
        if j < h.len() {
            assert(nh[j] == h[j]);
            let f = h[j].1;
            if f.len() > 0 && parameters_fit(f.len(), ratio) {
                let s = choose|s: int|
                    0 <= s < shards.len() && selects(#[trigger] shards[s], f.len(), ratio) && shards[s].docs().contains(
                        (h[j].0, shards[s].query_of(f)),
                    );
                if s == si {
                    let t = choose|t: int| 0 <= t < shards[s].docs().len() && shards[s].docs()[t] == (h[j].0, shards[s].query_of(f));
                    assert(after.docs()[t] == shards[s].docs()[t]);
                    assert(after.query_of(f) == shards[s].query_of(f));
                    assert(ns[s].docs().contains((h[j].0, ns[s].query_of(f))));
                } else {
                    assert(ns[s] == shards[s]);
                }
            }
        } else {
            assert(nh[j] == e);
            assert(after.docs()[shards[si].docs().len() as int] == (e.0, after.query_of(e.1)));
            assert(ns[si] == after);
        }
    }
    assert forall|s: int, t: int| 0 <= s < ns.len() && 0 <= t < ns[s].docs().len() implies known_key(
        nh,
        (#[trigger] ns[s].docs()[t]).0,
    ) by {
        if s == si && t == shards[si].docs().len() {
            assert(nh[h.len() as int] == e);
        } else {
            if s == si {
                assert(after.docs()[t] == shards[si].docs()[t]);
            }
            assert(ns[s].docs()[t] == shards[s].docs()[t]);
            let x = shards[s].docs()[t].0;
            let j = choose|j: int| 0 <= j < h.len() && (#[trigger] h[j]).0 == x && h[j].1.len() > 0;
            assert(nh[j] == h[j]);
        }
    }
}

/// Storing an insert in a new shard, with parameters no shard had, keeps
/// the invariant.
pub proof fn lemma_push_keeps(shards: Seq<Shard>, h: Seq<Insert>, ratio: nat, sh: Shard, e: Insert)
    requires
        shards_ok(shards),
        e.1.len() > 0,
        selects(sh, e.1.len(), ratio),
        sh.wf(),
        sh.docs() == seq![(e.0, sh.query_of(e.1))],
        forall|s: int| 0 <= s < shards.len() ==> !(#[trigger] shards[s].spec_m() == sh.spec_m() && shards[s].spec_k() == sh.spec_k()),
    ensures
        shards_ok(shards.push(sh)),
        history_ok(shards, h, ratio) ==> history_ok(shards.push(sh), h.push(e), ratio),
{
    let ns = shards.push(sh);
    let nh = h.push(e);
    assert forall|s: int, t: int| 0 <= s < t < ns.len() implies !(#[trigger] ns[s].spec_m() == #[trigger] ns[t].spec_m()
        && ns[s].spec_k() == ns[t].spec_k()) by {
        assert(ns[s] == shards[s]);
        if t < shards.len() {
            assert(ns[t] == shards[t]);
        }
    }
    if !history_ok(shards, h, ratio) {
        return;
    }
    assert forall|j: int| 0 <= j < nh.len() implies stored_in(ns, ratio, #[trigger] nh[j]) by {
        if j < h.len() {
            assert(nh[j] == h[j]);
            let f = h[j].1;
            if f.len() > 0 && parameters_fit(f.len(), ratio) {
                let s = choose|s: int|
                    0 <= s < shards.len() && selects(#[trigger] shards[s], f.len(), ratio) && shards[s].docs().contains(
                        (h[j].0, shards[s].query_of(f)),
                    );
                assert(ns[s] == shards[s]);
            }
        } else {
            assert(nh[j] == e);
            assert(ns[shards.len() as int] == sh);
            assert(sh.docs()[0] == (e.0, sh.query_of(e.1)));
        }
    }
    assert forall|s: int, t: int| 0 <= s < ns.len() && 0 <= t < ns[s].docs().len() implies known_key(
        nh,
        (#[trigger] ns[s].docs()[t]).0,
    ) by {
        if s == shards.len() {
            assert(nh[h.len() as int] == e);
        } else {
            assert(ns[s] == shards[s]);
            let x = shards[s].docs()[t].0;
            let j = choose|j: int| 0 <= j < h.len() && (#[trigger] h[j]).0 == x && h[j].1.len() > 0;
            assert(nh[j] == h[j]);
        }
    }
}

/// The fields of an index as plain values, as a snapshot stores them.
pub struct IndexParts {
    pub shards: Vec<ShardParts>,
    pub size: usize,
    pub ratio: u64,
    pub enrich: bool,
}

/// Whether the parts describe a well-formed index: a positive ratio, valid
/// shards, no two with the same parameters.
pub open spec fn index_parts_valid(p: IndexParts) -> bool {
    &&& p.ratio > 0
    &&& forall|s: int| 0 <= s < p.shards@.len() ==> shard_parts_valid(#[trigger] p.shards@[s])
    &&& forall|s: int, t: int|
        0 <= s < t < p.shards@.len() ==> !(#[trigger] p.shards@[s].bloom_size == #[trigger] p.shards@[t].bloom_size
            && p.shards@[s].bloom_k == p.shards@[t].bloom_k)
}

/// A bit-sliced Bloom index over short texts.
pub struct SearchIndex {
    shards: Vec<Shard>,
    size: usize,
    ratio: u64,
    enrich: bool,
    inserts: Ghost<Seq<Insert>>,
}

impl SearchIndex {
    /// The shards, in the order they were opened.
    pub closed spec fn shards(&self) -> Seq<Shard> {
        self.shards@
    }

    /// The number of accepted inserts.
    pub closed spec fn spec_size(&self) -> nat {
        self.size as nat
    }

    /// The bits-per-feature ratio, in billionths.
    pub closed spec fn spec_ratio(&self) -> nat {
        self.ratio as nat
    }

    /// Whether texts are tokenized with bigrams and single code points too.
    pub closed spec fn spec_enrich(&self) -> bool {
        self.enrich
    }

    /// Every accepted insert since construction or the last `clear`, in order.
    pub closed spec fn history(&self) -> Seq<Insert> {
        self.inserts@
    }

    /// The features a query is matched by: its tokens, or, when not `exact`,
    /// the tokens of each space-separated word.
    pub open spec fn query_features(&self, q: Seq<char>, exact: bool) -> Seq<Seq<char>> {
        if exact {
            features_of(q, self.spec_enrich())
        } else {
            word_features(q, self.spec_enrich())
        }
    }

    /// Whether some shard has the parameters `n` features select.
    pub open spec fn has_shard_for(&self, n: nat) -> bool {
        exists|s: int| 0 <= s < self.shards().len() && selects(#[trigger] self.shards()[s], n, self.spec_ratio())
    }

    /// A positive ratio, and shards well formed with distinct parameters.
    pub open spec fn wf(&self) -> bool {
        &&& self.spec_ratio() > 0
        &&& shards_ok(self.shards())
    }

    /// The index holds exactly what its recorded inserts put there: `size`
    /// counts them, every one with features is stored, and every stored key
    /// came from one with features. Holds of every index built by inserts
    /// from an empty one; not known of one restored from parts.
    pub open spec fn follows_history(&self) -> bool {
        &&& self.spec_size() == self.history().len()
        &&& history_ok(self.shards(), self.history(), self.spec_ratio())
    }

    /// An empty index with the given bits-per-feature ratio (in billionths;
    /// see `crate::bloom::RATIO_SCALE`) and tokenizer enrichment.
    pub fn with_ratio(ratio: u64, enrich: bool) -> (r: Self)
        requires
            ratio > 0,
        ensures
            r.wf(),
            r.follows_history(),
            r.spec_size() == 0,
            r.history() == Seq::<Insert>::empty(),
            r.shards() == Seq::<Shard>::empty(),
            r.spec_ratio() == ratio,
            r.spec_enrich() == enrich,
    {
        Self { shards: Vec::new(), size: 0, ratio, enrich, inserts: Ghost(Seq::empty()) }
    }

    /// An empty index tokenizing with bigrams and single code points, with a
    /// false-positive target of 0.6.
    pub fn default() -> (r: Self)
        ensures
            r.wf(),
            r.follows_history(),
            r.spec_size() == 0,
            r.history() == Seq::<Insert>::empty(),
            r.shards() == Seq::<Shard>::empty(),
            r.spec_ratio() == DEFAULT_RATIO,
            r.spec_enrich(),
    {
        Self::with_ratio(DEFAULT_RATIO, true)
    }

    /// Drops every document and resets the count; the configuration stays.
    pub fn clear(&mut self)
        requires
            old(self).wf(),
        ensures
            final(self).wf(),
            final(self).follows_history(),
            final(self).spec_size() == 0,
            final(self).history() == Seq::<Insert>::empty(),
            final(self).shards() == Seq::<Shard>::empty(),
            final(self).spec_ratio() == old(self).spec_ratio(),
            final(self).spec_enrich() == old(self).spec_enrich(),
    {
        self.size = 0;
        self.shards.clear();
        self.inserts = Ghost(Seq::empty());
    }

    /// The number of accepted inserts.
    pub fn get_size(&self) -> (r: usize)
        ensures
            r == self.spec_size(),
    {
        self.size
    }

    /// The bits-per-feature ratio, in billionths.
    pub fn get_ratio(&self) -> (r: u64)
        ensures
            r == self.spec_ratio(),
    {
        self.ratio
    }

    /// Whether texts are tokenized with bigrams and single code points too.
    pub fn get_enrich(&self) -> (r: bool)
        ensures
            r == self.spec_enrich(),
    {
        self.enrich
    }

    /// How many shards the index has opened.
    pub fn shard_count(&self) -> (r: usize)
        ensures
            r == self.shards().len(),
    {
        self.shards.len()
    }

    /// Shard `s`.
    pub fn get_shard(&self, s: usize) -> (r: &Shard)
        requires
            s < self.shards().len(),
        ensures
            *r == self.shards()[s as int],
    {
        &self.shards[s]
    }

    /// The position of the shard with parameters `(m, k)`, if there is one.
    fn find_shard(&self, m: usize, k: u64) -> (r: Option<usize>)
        ensures
            r matches Some(s) ==> s < self.shards().len() && self.shards()[s as int].spec_m() == m
                && self.shards()[s as int].spec_k() == k,
            r is None ==> forall|s: int|
                0 <= s < self.shards().len() ==> !(#[trigger] self.shards()[s].spec_m() == m
                    && self.shards()[s].spec_k() == k),
    {
        let mut s: usize = 0;
        while s < self.shards.len()
            invariant
                s <= self.shards().len(),
                forall|s2: int|
                    0 <= s2 < s ==> !(#[trigger] self.shards()[s2].spec_m() == m && self.shards()[s2].spec_k()
                        == k),
            decreases self.shards().len() - s,
        {
            if self.shards[s].get_m() == m && self.shards[s].get_k() == k {
                return Some(s);
            }
            s = s + 1;
        }
        None
    }

    /// Indexes `item` under `key`: its features go, Bloom-encoded, into the
    /// shard their count selects (opened when missing). A text without
    /// features, or whose parameters cannot be held, is counted only.
    pub fn add_message(&mut self, item: &str, key: usize)
        requires
            old(self).wf(),
            old(self).spec_size() < usize::MAX,
        ensures
            final(self).wf(),
            old(self).follows_history() ==> final(self).follows_history(),
            final(self).spec_size() == old(self).spec_size() + 1,
            final(self).history() == old(self).history().push((key, features_of(item@, old(self).spec_enrich()))),
            final(self).spec_ratio() == old(self).spec_ratio(),
            final(self).spec_enrich() == old(self).spec_enrich(),
            ({
                let n = features_of(item@, old(self).spec_enrich()).len();
                if n > 0 && parameters_fit(n, old(self).spec_ratio()) {
                    final(self).shards().len() == old(self).shards().len() + if old(self).has_shard_for(n) {
                        0int
                    } else {
                        1int
                    }
                } else {
                    final(self).shards() == old(self).shards()
                }
            }),
    {
        let grams = tokenize(item, self.enrich);
        let ghost f = grams.deep_view();
        let ghost h0 = self.history();
        let ghost old_shards = self.shards();
        let ghost ratio = self.spec_ratio();
        let ghost e: Insert = (key, f);
        if grams.len() > 0 {
            if let Some((m, k)) = estimate_parameters(grams.len(), self.ratio) {
                proof {
                    lemma_words_positive(f.len(), ratio);
                }
                match self.find_shard(m, k) {
                    Some(si) => {
                        let mut shard = self.shards.remove(si);
                        let ghost before = shard;
                        shard.add_message(grams.as_slice(), key);
                        self.shards.insert(si, shard);
                        proof {
                            assert(self.shards() =~= old_shards.update(si as int, shard));
                            lemma_update_keeps(old_shards, h0, ratio, si as int, shard, e);
                        }
                    }
                    None => {
                        let mut shard = Shard::new(m, k);
                        let ghost before = shard;
                        shard.add_message(grams.as_slice(), key);
                        self.shards.push(shard);
                        proof {
                            assert(self.shards() =~= old_shards.push(shard));
                            assert(shard.docs() =~= seq![(key, shard.query_of(f))]);
                            lemma_push_keeps(old_shards, h0, ratio, shard, e);
                        }
                    }
                }
            } else {
                proof {
                    if history_ok(old_shards, h0, ratio) {
                        lemma_unchanged_keeps(old_shards, h0, ratio, e);
                    }
                }
            }
        } else {
            proof {
                if history_ok(old_shards, h0, ratio) {
                    lemma_unchanged_keeps(old_shards, h0, ratio, e);
                }
            }
        }
        self.size = self.size + 1;
        self.inserts = Ghost(h0.push(e));
    }

    /// Indexes `item` under the next key, `size + 1`, and returns that key.
    pub fn add(&mut self, item: &str) -> (r: usize)
        requires
            old(self).wf(),
            old(self).spec_size() < usize::MAX,
        ensures
            final(self).wf(),
            old(self).follows_history() ==> final(self).follows_history(),
            r == old(self).spec_size() + 1,
            final(self).spec_size() == r,
            final(self).history() == old(self).history().push((r, features_of(item@, old(self).spec_enrich()))),
            final(self).spec_ratio() == old(self).spec_ratio(),
            final(self).spec_enrich() == old(self).spec_enrich(),
            ({
                let n = features_of(item@, old(self).spec_enrich()).len();
                if n > 0 && parameters_fit(n, old(self).spec_ratio()) {
                    final(self).shards().len() == old(self).shards().len() + if old(self).has_shard_for(n) {
                        0int
                    } else {
                        1int
                    }
                } else {
                    final(self).shards() == old(self).shards()
                }
            }),
    {
        let key = self.size + 1;
        self.add_message(item, key);
        key
    }


    /// Whether `p` holds exactly this index's fields.
    pub open spec fn parts_are(&self, p: IndexParts) -> bool {
        &&& p.shards@.len() == self.shards().len()
        &&& forall|s: int| 0 <= s < p.shards@.len() ==> self.shards()[s].parts_are(#[trigger] p.shards@[s])
        &&& p.size as nat == self.spec_size()
        &&& p.ratio as nat == self.spec_ratio()
        &&& p.enrich == self.spec_enrich()
    }

    /// The index's fields as plain values, for a snapshot.
    pub fn to_parts(&self) -> (r: IndexParts)
        requires
            self.wf(),
        ensures
            self.parts_are(r),
    {
        let mut out: Vec<ShardParts> = Vec::new();
        let mut s: usize = 0;
        while s < self.shards.len()
            invariant
                self.wf(),
                s <= self.shards().len(),
                out@.len() == s,
                forall|s2: int| 0 <= s2 < s ==> self.shards()[s2].parts_are(#[trigger] out@[s2]),
            decreases self.shards().len() - s,
        {
            let part = self.shards[s].to_parts();
            out.push(part);
            s = s + 1;
        }
        IndexParts { shards: out, size: self.size, ratio: self.ratio, enrich: self.enrich }
    }

    /// The index a snapshot describes, or `None` when it describes no
    /// well-formed index. Its record of inserts starts empty.
    pub fn from_parts(p: &IndexParts) -> (r: Option<SearchIndex>)
        ensures
            r is Some <==> index_parts_valid(*p),
            r matches Some(idx) ==> idx.wf() && idx.parts_are(*p) && idx.history() == Seq::<Insert>::empty(),
    {
        if p.ratio == 0 {
            return None;
        }
        let n = p.shards.len();
        let mut out: Vec<Shard> = Vec::new();
        let mut s: usize = 0;
        while s < n
            invariant
                n == p.shards@.len(),
                s <= n,
                out@.len() == s,
                forall|s2: int| 0 <= s2 < s ==> shard_parts_valid(#[trigger] p.shards@[s2]),
                forall|s2: int| 0 <= s2 < s ==> (#[trigger] out@[s2]).wf() && out@[s2].parts_are(p.shards@[s2]),
                forall|s2: int, t: int|
                    0 <= s2 < t < s ==> !(#[trigger] p.shards@[s2].bloom_size == #[trigger] p.shards@[t].bloom_size
                        && p.shards@[s2].bloom_k == p.shards@[t].bloom_k),
            decreases n - s,
        {
            let sp = &p.shards[s];
            let mut t: usize = 0;
            while t < s
                invariant
                    s < n,
                    n == p.shards@.len(),
                    t <= s,
                    *sp == p.shards@[s as int],
                    forall|t2: int| 0 <= t2 < t ==> !(#[trigger] p.shards@[t2].bloom_size == sp.bloom_size
                        && p.shards@[t2].bloom_k == sp.bloom_k),
                decreases s - t,
            {
                if p.shards[t].bloom_size == sp.bloom_size && p.shards[t].bloom_k == sp.bloom_k {
                    return None;
                }
                t = t + 1;
            }
            match Shard::from_parts(sp) {
                Some(shard) => {
                    out.push(shard);
                },
                None => {
                    return None;
                },
            }
            s = s + 1;
        }
        let idx = SearchIndex { shards: out, size: p.size, ratio: p.ratio, enrich: p.enrich, inserts: Ghost(Seq::empty()) };
        assert forall|s2: int, t: int| 0 <= s2 < t < idx.shards().len() implies !(#[trigger] idx.shards()[s2].spec_m()
            == #[trigger] idx.shards()[t].spec_m() && idx.shards()[s2].spec_k() == idx.shards()[t].spec_k()) by {
            assert(idx.shards()[s2].parts_are(p.shards@[s2]));
            assert(idx.shards()[t].parts_are(p.shards@[t]));
        }
        Some(idx)
    }

    /// The features `query` is matched by (see [`Self::query_features`]).
    pub fn features_of_query(&self, query: &str, exact: bool) -> (r: Vec<String>)
        ensures
            r.deep_view() == self.query_features(query@, exact),
    {
        if exact {
            tokenize(query, self.enrich)
        } else {
            tokenize_words(query, self.enrich)
        }
    }

    /// The AND matches of shard `s` for the query features `features`.
    pub fn search_shard(&self, s: usize, features: &[String]) -> (r: Vec<usize>)
        requires
            self.wf(),
            s < self.shards().len(),
        ensures
            r@ == self.shards()[s as int].and_hits(features.deep_view()),
    {
        self.shards[s].search(features)
    }

    /// The OR matches of shard `s` for the query features `features`.
    pub fn search_or_shard(&self, s: usize, features: &[String]) -> (r: Vec<usize>)
        requires
            self.wf(),
            s < self.shards().len(),
        ensures
            r@ == self.shards()[s as int].or_hits(features.deep_view()),
    {
        self.shards[s].search_or(features)
    }

    /// The keys of the documents that may contain every feature of `query`:
    /// all keys `1 ..= size` for an empty query; otherwise, shard by shard,
    /// the documents whose filters hold every query position. No document
    /// holding all the query's features is missed; documents that do not
    /// may still appear (Bloom false positives).
    pub fn search(&self, query: &str, exact: bool) -> (r: Vec<usize>)
        requires
            self.wf(),
        ensures
            query@.len() == 0 ==> r@ == Seq::new(self.spec_size(), |i: int| (i + 1) as usize),
            query@.len() > 0 ==> r@ == all_and_hits(self.shards(), self.query_features(query@, exact)),
            query@.len() > 0 && self.query_features(query@, exact).len() == 0 ==> r@.len() == 0,
            self.follows_history() && query@.len() > 0 ==> forall|i: int|
                0 <= i < r@.len() ==> known_key(self.history(), #[trigger] r@[i]),
            self.follows_history() && query@.len() > 0 ==> forall|j: int|
                0 <= j < self.history().len() && self.query_features(query@, exact).len() > 0 && covers(
                    (#[trigger] self.history()[j]).1,
                    self.query_features(query@, exact),
                ) && parameters_fit(self.history()[j].1.len(), self.spec_ratio()) ==> r@.contains(
                    self.history()[j].0,
                ),
    {
        if query.is_empty() {
            let mut all: Vec<usize> = Vec::new();
            let mut i: usize = 0;
            while i < self.size
                invariant
                    i <= self.size,
                    all@ == Seq::new(i as nat, |t: int| (t + 1) as usize),
                decreases self.size - i,
            {
                i = i + 1;
                all.push(i);
                assert(all@ =~= Seq::new(i as nat, |t: int| (t + 1) as usize));
            }
            return all;
        }
        let features = self.features_of_query(query, exact);
        let ghost qf = features.deep_view();
        let mut out: Vec<usize> = Vec::new();
        let mut s: usize = 0;
        while s < self.shards.len()
            invariant
                self.wf(),
                s <= self.shards().len(),
                qf == features.deep_view(),
                out@ == all_and_hits(self.shards().take(s as int), qf),
            decreases self.shards().len() - s,
        {
            let mut part = self.search_shard(s, features.as_slice());
            proof {
                assert(self.shards().take(s + 1).drop_last() == self.shards().take(s as int));
            }
            out.append(&mut part);
            s = s + 1;
        }
        proof {
            assert(self.shards().take(self.shards().len() as int) == self.shards());
            if self.follows_history() {
                lemma_hits_were_inserted(*self, qf);
                assert forall|j: int|
                    0 <= j < self.history().len() && qf.len() > 0 && covers((#[trigger] self.history()[j]).1, qf)
                        && parameters_fit(self.history()[j].1.len(), self.spec_ratio()) implies out@.contains(
                    self.history()[j].0,
                ) by {
                    lemma_no_false_negatives(*self, qf, j);
                }
            }
            if qf.len() == 0 {
                lemma_no_features_no_hits(self.shards(), qf);
            }
        }
        out
    }

    /// The keys of the documents whose filters hold some query position of
    /// any word of `query`, shard by shard; none when the query has no
    /// features.
    pub fn search_or(&self, query: &str) -> (r: Vec<usize>)
        requires
            self.wf(),
        ensures
            r@ == all_or_hits(self.shards(), self.query_features(query@, false)),
            self.follows_history() ==> forall|i: int| 0 <= i < r@.len() ==> known_key(self.history(), #[trigger] r@[i]),
    {
        let features = self.features_of_query(query, false);
        let ghost qf = features.deep_view();
        let mut out: Vec<usize> = Vec::new();
        let mut s: usize = 0;
        while s < self.shards.len()
            invariant
                self.wf(),
                s <= self.shards().len(),
                qf == features.deep_view(),
                out@ == all_or_hits(self.shards().take(s as int), qf),
            decreases self.shards().len() - s,
        {
            let mut part = self.search_or_shard(s, features.as_slice());
            proof {
                assert(self.shards().take(s + 1).drop_last() == self.shards().take(s as int));
            }
            out.append(&mut part);
            s = s + 1;
        }
        proof {
            assert(self.shards().take(self.shards().len() as int) == self.shards());
            if self.follows_history() {
                lemma_or_hits_were_inserted(*self, qf);
            }
        }
        out
    }
}

/// A text with features gets a filter of at least one word.
pub proof fn lemma_words_positive(n: nat, ratio: nat)
    requires
        n > 0,
        ratio > 0,
    ensures
        words_for(n, ratio) >= 1,
{
    assert(n * ratio >= 1) by (nonlinear_arith)
        requires
            n > 0,
            ratio > 0,
    ;
}


/// No query features, no AND matches.
pub proof fn lemma_no_features_no_hits(shards: Seq<Shard>, qf: Seq<Seq<char>>)
    requires
        qf.len() == 0,
    ensures
        all_and_hits(shards, qf).len() == 0,
    decreases shards.len(),
{
    if shards.len() > 0 {
        lemma_no_features_no_hits(shards.drop_last(), qf);
    }
}

/// A key matched by "all of the query" is the key of some document.
pub proof fn lemma_and_keys_key(docs: Seq<DocBits>, q: Set<int>, i: int)
    requires
        0 <= i < and_keys(docs, q).len(),
    ensures
        exists|t: int| 0 <= t < docs.len() && (#[trigger] docs[t]).0 == and_keys(docs, q)[i],
    decreases docs.len(),
{
    let rest = and_keys(docs.drop_last(), q);
    if i < rest.len() {
        lemma_and_keys_key(docs.drop_last(), q, i);
        let t = choose|t: int| 0 <= t < docs.drop_last().len() && (#[trigger] docs.drop_last()[t]).0 == rest[i];
        assert(docs[t] == docs.drop_last()[t]);
    } else {
        assert(docs[docs.len() - 1] == docs.last());
    }
}

/// A key matched by "any of the query" is the key of some document.
pub proof fn lemma_or_keys_key(docs: Seq<DocBits>, q: Set<int>, i: int)
    requires
        0 <= i < or_keys(docs, q).len(),
    ensures
        exists|t: int| 0 <= t < docs.len() && (#[trigger] docs[t]).0 == or_keys(docs, q)[i],
    decreases docs.len(),
{
    let rest = or_keys(docs.drop_last(), q);
    if i < rest.len() {
        lemma_or_keys_key(docs.drop_last(), q, i);
        let t = choose|t: int| 0 <= t < docs.drop_last().len() && (#[trigger] docs.drop_last()[t]).0 == rest[i];
        assert(docs[t] == docs.drop_last()[t]);
    } else {
        assert(docs[docs.len() - 1] == docs.last());
    }
}

/// A document whose filter holds every query position is matched.
pub proof fn lemma_and_keys_hit(docs: Seq<DocBits>, q: Set<int>, t: int)
    requires
        0 <= t < docs.len(),
        q.subset_of(docs[t].1),
    ensures
        and_keys(docs, q).contains(docs[t].0),
    decreases docs.len(),
{
    if t == docs.len() - 1 {
        assert(and_keys(docs, q).last() == docs[t].0);
    } else {
        lemma_and_keys_hit(docs.drop_last(), q, t);
        assert(docs.drop_last()[t] == docs[t]);
        let rest = and_keys(docs.drop_last(), q);
        let i = choose|i: int| 0 <= i < rest.len() && rest[i] == docs[t].0;
        if q.subset_of(docs.last().1) {
            assert(and_keys(docs, q)[i] == rest[i]);
        }
    }
}

/// A key in the AND matches of all shards is the key of a document of
/// some shard.
pub proof fn lemma_all_and_hits_key(shards: Seq<Shard>, qf: Seq<Seq<char>>, i: int)
    requires
        0 <= i < all_and_hits(shards, qf).len(),
    ensures
        exists|s: int, t: int|
            0 <= s < shards.len() && 0 <= t < shards[s].docs().len() && (#[trigger] shards[s].docs()[t]).0
                == all_and_hits(shards, qf)[i],
    decreases shards.len(),
{
    let rest = all_and_hits(shards.drop_last(), qf);
    let last = shards.last();
    if i < rest.len() {
        lemma_all_and_hits_key(shards.drop_last(), qf, i);
        let (s, t) = choose|s: int, t: int|
            0 <= s < shards.drop_last().len() && 0 <= t < shards.drop_last()[s].docs().len() && (#[trigger] shards.drop_last()[s].docs()[t]).0
                == rest[i];
        assert(shards[s] == shards.drop_last()[s]);
    } else {
        let i2 = i - rest.len();
        if qf.len() == 0 || last.spec_k() == 0 {
        } else {
            lemma_and_keys_key(last.docs(), last.query_of(qf), i2);
            let t = choose|t: int| 0 <= t < last.docs().len() && (#[trigger] last.docs()[t]).0 == and_keys(last.docs(), last.query_of(qf))[i2];
            assert(shards[shards.len() - 1] == last);
            assert(shards[shards.len() - 1].docs()[t].0 == all_and_hits(shards, qf)[i]);
        }
    }
}

/// A key in the OR matches of all shards is the key of a document of some
/// shard.
pub proof fn lemma_all_or_hits_key(shards: Seq<Shard>, qf: Seq<Seq<char>>, i: int)
    requires
        0 <= i < all_or_hits(shards, qf).len(),
    ensures
        exists|s: int, t: int|
            0 <= s < shards.len() && 0 <= t < shards[s].docs().len() && (#[trigger] shards[s].docs()[t]).0
                == all_or_hits(shards, qf)[i],
    decreases shards.len(),
{
    let rest = all_or_hits(shards.drop_last(), qf);
    let last = shards.last();
    if i < rest.len() {
        lemma_all_or_hits_key(shards.drop_last(), qf, i);
        let (s, t) = choose|s: int, t: int|
            0 <= s < shards.drop_last().len() && 0 <= t < shards.drop_last()[s].docs().len() && (#[trigger] shards.drop_last()[s].docs()[t]).0
                == rest[i];
        assert(shards[s] == shards.drop_last()[s]);
    } else {
        let i2 = i - rest.len();
        lemma_or_keys_key(last.docs(), last.query_of(qf), i2);
        let t = choose|t: int| 0 <= t < last.docs().len() && (#[trigger] last.docs()[t]).0 == or_keys(last.docs(), last.query_of(qf))[i2];
        assert(shards[shards.len() - 1] == last);
        assert(shards[shards.len() - 1].docs()[t].0 == all_or_hits(shards, qf)[i]);
    }
}

/// A key in the AND matches of one shard is in the AND matches of all.
pub proof fn lemma_all_and_hits_hit(shards: Seq<Shard>, qf: Seq<Seq<char>>, s: int, x: usize)
    requires
        0 <= s < shards.len(),
        shards[s].and_hits(qf).contains(x),
    ensures
        all_and_hits(shards, qf).contains(x),
    decreases shards.len(),
{
    let rest = all_and_hits(shards.drop_last(), qf);
    let mine = shards.last().and_hits(qf);
    if s == shards.len() - 1 {
        let i = choose|i: int| 0 <= i < mine.len() && mine[i] == x;
        assert((rest + mine)[rest.len() + i] == x);
    } else {
        assert(shards.drop_last()[s] == shards[s]);
        lemma_all_and_hits_hit(shards.drop_last(), qf, s, x);
        let i = choose|i: int| 0 <= i < rest.len() && rest[i] == x;
        assert((rest + mine)[i] == x);
    }
}

/// Fewer features, fewer positions: the positions of `q` are among those
/// of `f` when `f` has every feature of `q`.
pub proof fn lemma_positions_mono(f: Seq<Seq<char>>, q: Seq<Seq<char>>, k: u64, m: nat)
    requires
        covers(f, q),
    ensures
        bloom_positions(q, k, m).subset_of(bloom_positions(f, k, m)),
{
    assert forall|p: int| bloom_positions(q, k, m).contains(p) implies bloom_positions(f, k, m).contains(p) by {
        let j = choose|j: int| 0 <= j < q.len() && #[trigger] feature_positions(q[j], k, m).contains(p);
        assert(f.contains(q[j]));
        let j2 = choose|j2: int| 0 <= j2 < f.len() && f[j2] == q[j];
        assert(feature_positions(f[j2], k, m).contains(p));
    }
}

/// Every key an AND search returns was given to an insert with features.
pub proof fn lemma_hits_were_inserted(idx: SearchIndex, qf: Seq<Seq<char>>)
    requires
        idx.wf(),
        idx.follows_history(),
    ensures
        forall|i: int|
            0 <= i < all_and_hits(idx.shards(), qf).len() ==> known_key(
                idx.history(),
                #[trigger] all_and_hits(idx.shards(), qf)[i],
            ),
{
    assert forall|i: int| 0 <= i < all_and_hits(idx.shards(), qf).len() implies known_key(
        idx.history(),
        #[trigger] all_and_hits(idx.shards(), qf)[i],
    ) by {
        lemma_all_and_hits_key(idx.shards(), qf, i);
    }
}

/// Every key an OR search returns was given to an insert with features.
pub proof fn lemma_or_hits_were_inserted(idx: SearchIndex, qf: Seq<Seq<char>>)
    requires
        idx.wf(),
        idx.follows_history(),
    ensures
        forall|i: int|
            0 <= i < all_or_hits(idx.shards(), qf).len() ==> known_key(
                idx.history(),
                #[trigger] all_or_hits(idx.shards(), qf)[i],
            ),
{
    assert forall|i: int| 0 <= i < all_or_hits(idx.shards(), qf).len() implies known_key(
        idx.history(),
        #[trigger] all_or_hits(idx.shards(), qf)[i],
    ) by {
        lemma_all_or_hits_key(idx.shards(), qf, i);
    }
}

/// No false negatives: an AND search for features that an inserted text
/// all has returns that text's key (when its parameters could be held).
pub proof fn lemma_no_false_negatives(idx: SearchIndex, qf: Seq<Seq<char>>, j: int)
    requires
        idx.wf(),
        idx.follows_history(),
        0 <= j < idx.history().len(),
        qf.len() > 0,
        covers(idx.history()[j].1, qf),
        parameters_fit(idx.history()[j].1.len(), idx.spec_ratio()),
    ensures
        all_and_hits(idx.shards(), qf).contains(idx.history()[j].0),
{
    let e = idx.history()[j];
    let shards = idx.shards();
    let ratio = idx.spec_ratio();
    assert(e.1.contains(qf[0]));
    assert(stored_in(shards, ratio, e));
    let s = choose|s: int|
        0 <= s < shards.len() && selects(#[trigger] shards[s], e.1.len(), ratio) && shards[s].docs().contains(
            (e.0, shards[s].query_of(e.1)),
        );
    let sh = shards[s];
    let t = choose|t: int| 0 <= t < sh.docs().len() && sh.docs()[t] == (e.0, sh.query_of(e.1));
    lemma_positions_mono(e.1, qf, sh.spec_k(), sh.m_bits());
    lemma_and_keys_hit(sh.docs(), sh.query_of(qf), t);
    assert(sh.spec_k() >= 1);
    lemma_all_and_hits_hit(shards, qf, s, e.0);
}

} // verus!
