//! Trigram extraction.
use vstd::prelude::*;

use crate::text::{dedup, normalize, normalized_chars, push_windows, windows};

verus! {

/// The distinct trigrams of a text in first-seen order.
pub open spec fn trigrams_of(s: Seq<char>) -> Seq<Seq<char>> {
    dedup(windows(normalize(s), 3))
}

/// Every window of three consecutive processed code points of `word`, each
/// once, left to right; nothing when fewer than three remain.
pub fn trigram(word: &str) -> (r: Vec<String>)
    ensures
        r.deep_view() == trigrams_of(word@),
{
    let c = normalized_chars(word);
    let mut out: Vec<String> = Vec::new();
    assert(out.deep_view() =~= seq![]);
    push_windows(&mut out, &c, 3);
    out
}

} // verus!
