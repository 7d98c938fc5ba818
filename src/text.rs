//! Character-level machinery shared by the n-gram extractors: the
//! normalisation that runs before any window is cut, the windows themselves,
//! and first-seen de-duplication of the features they yield.
use vstd::prelude::*;

verus! {

/// Relies on `String::push`: the character is appended at the end.
pub assume_specification[ String::push ](s: &mut String, ch: char)
    ensures
        final(s)@ == old(s)@.push(ch),
;

/// What `str::to_lowercase` makes of a text (full Unicode lower-casing,
/// which may look at neighbouring characters).
pub uninterp spec fn lower_of(s: Seq<char>) -> Seq<char>;

/// Whether the low byte of `c` is a printable ASCII code (0x20 ..= 0x7E).
pub open spec fn printable_low_byte(c: char) -> bool {
    0x20 <= (c as u32) % 256 <= 0x7e
}

/// The tokenizer keeps a code point that is ASCII or printable by its low byte.
pub open spec fn is_kept(c: char) -> bool {
    (c as u32) < 128 || printable_low_byte(c)
}

/// The code points of `s` that the tokenizer keeps, in order.
pub open spec fn kept_chars(s: Seq<char>) -> Seq<char>
    decreases s.len(),
{
    if s.len() == 0 {
        seq![]
    } else if is_kept(s.last()) {
        kept_chars(s.drop_last()).push(s.last())
    } else {
        kept_chars(s.drop_last())
    }
}

/// The processed code points of a text: unkept code points dropped, then
/// lower-cased.
pub open spec fn normalize(s: Seq<char>) -> Seq<char> {
    lower_of(kept_chars(s))
}

/// Every run of `n` consecutive code points of `c`, left to right.
pub open spec fn windows(c: Seq<char>, n: nat) -> Seq<Seq<char>> {
    if c.len() < n {
        seq![]
    } else {
        Seq::new((c.len() - n + 1) as nat, |i: int| c.subrange(i, i + n))
    }
}

/// `acc` followed by the items of `s` that are not yet present, each once, in
/// first-seen order.
pub open spec fn extend_unique(acc: Seq<Seq<char>>, s: Seq<Seq<char>>) -> Seq<Seq<char>>
    decreases s.len(),
{
    if s.len() == 0 {
        acc
    } else {
        let a = extend_unique(acc, s.drop_last());
        if a.contains(s.last()) {
            a
        } else {
            a.push(s.last())
        }
    }
}

/// The distinct items of `s` in first-seen order.
pub open spec fn dedup(s: Seq<Seq<char>>) -> Seq<Seq<char>> {
    extend_unique(seq![], s)
}

/// Relies on `str::to_lowercase`: its result depends on the text alone.
#[verifier::external_body]
fn lowercase(s: &str) -> (r: String)
    ensures
        r@ == lower_of(s@),
{
    s.to_lowercase()
}

/// Relies on `ascii_utils::Check::is_printable` for `char`, which casts the
/// character to `u8` (keeping its low byte) and accepts 0x20 ..= 0x7E.
#[verifier::external_body]
fn is_printable(c: char) -> (r: bool)
    ensures
        r == printable_low_byte(c),
{
    ascii_utils::Check::is_printable(c)
}

/// The characters of `s`, in order.
pub fn chars_of(s: &str) -> (r: Vec<char>)
    ensures
        r@ == s@,
{
    let mut out: Vec<char> = Vec::new();
    for c in it: s.chars()
        invariant
            it.seq() == s@,
            out@ == s@.take(it.index() as int),
    {
        out.push(c);
    }
    out
}

/// The string made of `c[from..to]`.
pub fn string_of(c: &Vec<char>, from: usize, to: usize) -> (r: String)
    requires
        from <= to <= c@.len(),
    ensures
        r@ == c@.subrange(from as int, to as int),
{
    let mut s = String::new();
    let mut i: usize = from;
    while i < to
        invariant
            from <= i <= to <= c@.len(),
            s@ == c@.subrange(from as int, i as int),
        decreases to - i,
    {
        s.push(c[i]);
        i = i + 1;
        assert(s@ =~= c@.subrange(from as int, i as int));
    }
    s
}

/// The processed code points of `s`: those the tokenizer keeps, lower-cased.
pub fn normalized_chars(s: &str) -> (r: Vec<char>)
    ensures
        r@ == normalize(s@),
{
    let cs = chars_of(s);
    let mut kept = String::new();
    let mut i: usize = 0;
    while i < cs.len()
        invariant
            i <= cs@.len(),
            cs@ == s@,
            kept@ == kept_chars(cs@.take(i as int)),
        decreases cs.len() - i,
    {
        let c = cs[i];
        let keep = (c as u32) < 128 || is_printable(c);
        proof {
            assert(cs@.take(i + 1).drop_last() == cs@.take(i as int));
        }
        if keep {
            kept.push(c);
        }
        i = i + 1;
    }
    proof {
        assert(cs@.take(cs@.len() as int) == cs@);
    }
    let lower = lowercase(kept.as_str());
    chars_of(lower.as_str())
}

/// Whether some item of `v` is the text `s`.
fn contains_text(v: &Vec<String>, s: &String) -> (r: bool)
    ensures
        r == v.deep_view().contains(s@),
{
    let mut i: usize = 0;
    while i < v.len()
        invariant
            i <= v@.len(),
            forall|j: int| 0 <= j < i ==> v.deep_view()[j] != s@,
        decreases v.len() - i,
    {
        if v[i] == *s {
            assert(v.deep_view()[i as int] == s@);
            return true;
        }
        i = i + 1;
    }
    false
}

/// Appends to `out` each run of `n` consecutive characters of `c` that `out`
/// does not hold yet, left to right.
pub fn push_windows(out: &mut Vec<String>, c: &Vec<char>, n: usize)
    requires
        n >= 1,
    ensures
        final(out).deep_view() == extend_unique(old(out).deep_view(), windows(c@, n as nat)),
{
    let ghost start = out.deep_view();
    let ghost w = windows(c@, n as nat);
    if c.len() < n {
        return;
    }
    let count: usize = c.len() - n + 1;
    let mut i: usize = 0;
    while i < count
        invariant
            n >= 1,
            n <= c.len(),
            count == c.len() - n + 1,
            i <= count,
            w == windows(c@, n as nat),
            w.len() == count,
            out.deep_view() == extend_unique(start, w.take(i as int)),
        decreases count - i,
    {
        let g = string_of(c, i, i + n);
        proof {
            assert(w.take(i + 1).drop_last() == w.take(i as int));
            assert(w.take(i + 1).last() == g@);
        }
        if !contains_text(out, &g) {
            out.push(g);
            assert(out.deep_view() =~= extend_unique(start, w.take(i as int)).push(g@));
        }
        i = i + 1;
    }
    assert(w.take(count as int) == w);
}

} // verus!

verus! {

/// The features of a text: its distinct trigrams in first-seen order, then,
/// when `enrich` holds, its new bigrams and its new single code points.
pub open spec fn features_of(s: Seq<char>, enrich: bool) -> Seq<Seq<char>> {
    let c = normalize(s);
    if enrich {
        extend_unique(extend_unique(dedup(windows(c, 3)), windows(c, 2)), windows(c, 1))
    } else {
        dedup(windows(c, 3))
    }
}

/// The feature sequence of `text`, used alike when indexing and when querying.
pub fn tokenize(text: &str, enrich: bool) -> (r: Vec<String>)
    ensures
        r.deep_view() == features_of(text@, enrich),
{
    let c = normalized_chars(text);
    let mut out: Vec<String> = Vec::new();
    assert(out.deep_view() =~= seq![]);
    push_windows(&mut out, &c, 3);
    if enrich {
        push_windows(&mut out, &c, 2);
        push_windows(&mut out, &c, 1);
    }
    out
}

} // verus!

verus! {

/// The pieces of `s` between single spaces, as `str::split(" ")` cuts
/// them: `k` spaces give `k + 1` pieces, some of them empty.
pub open spec fn split_spaces(s: Seq<char>) -> Seq<Seq<char>>
    decreases s.len(),
{
    if s.len() == 0 {
        seq![seq![]]
    } else {
        let w = split_spaces(s.drop_last());
        if s.last() == ' ' {
            w.push(seq![])
        } else {
            w.update(w.len() - 1, w.last().push(s.last()))
        }
    }
}

/// The features of each piece in turn, concatenated.
pub open spec fn concat_features(words: Seq<Seq<char>>, enrich: bool) -> Seq<Seq<char>>
    decreases words.len(),
{
    if words.len() == 0 {
        seq![]
    } else {
        concat_features(words.drop_last(), enrich) + features_of(words.last(), enrich)
    }
}

/// The features of a text tokenized word by word (words split at spaces).
pub open spec fn word_features(s: Seq<char>, enrich: bool) -> Seq<Seq<char>> {
    concat_features(split_spaces(s), enrich)
}

/// The features of `text` tokenized word by word: each piece between
/// spaces is tokenized on its own and the results are concatenated.
pub fn tokenize_words(text: &str, enrich: bool) -> (r: Vec<String>)
    ensures
        r.deep_view() == word_features(text@, enrich),
{
    let cs = chars_of(text);
    let mut out: Vec<String> = Vec::new();
    let mut word = String::new();
    let mut i: usize = 0;
    proof {
        assert(out.deep_view() =~= seq![]);
        assert(cs@.take(0) =~= seq![]);
        assert(split_spaces(cs@.take(0)) =~= seq![seq![]]);
        assert(seq![seq![]].drop_last() =~= Seq::<Seq<char>>::empty());
    }
    while i < cs.len()
        invariant
            i <= cs@.len(),
            cs@ == text@,
            split_spaces(cs@.take(i as int)).len() >= 1,
            out.deep_view() == concat_features(split_spaces(cs@.take(i as int)).drop_last(), enrich),
            word@ == split_spaces(cs@.take(i as int)).last(),
        decreases cs.len() - i,
    {
        let c = cs[i];
        let ghost w = split_spaces(cs@.take(i as int));
        proof {
            assert(cs@.take(i + 1).drop_last() == cs@.take(i as int));
            assert(cs@.take(i + 1).last() == c);
        }
        if c == ' ' {
            let mut part = tokenize(word.as_str(), enrich);
            let ghost before = out.deep_view();
            out.append(&mut part);
            word = String::new();
            proof {
                assert(w.push(seq![]).drop_last() == w);
                assert(w == w.drop_last().push(w.last()));
                assert(out.deep_view() =~= before + features_of(w.last(), enrich));
            }
        } else {
            word.push(c);
            proof {
                let w2 = w.update(w.len() - 1, w.last().push(c));
                assert(w2.drop_last() =~= w.drop_last());
            }
        }
        i = i + 1;
    }
    proof {
        assert(cs@.take(cs@.len() as int) == cs@);
    }
    let ghost w = split_spaces(cs@);
    let ghost before = out.deep_view();
    let mut part = tokenize(word.as_str(), enrich);
    out.append(&mut part);
    proof {
        assert(w == w.drop_last().push(w.last()));
        assert(out.deep_view() =~= before + features_of(w.last(), enrich));
    }
    out
}

} // verus!
