//! Bigram extraction.
use vstd::prelude::*;

use crate::text::{dedup, normalize, normalized_chars, push_windows, windows};

verus! {

/// The distinct bigrams of a text in first-seen order.
pub open spec fn bigrams_of(s: Seq<char>) -> Seq<Seq<char>> {
    dedup(windows(normalize(s), 2))
}

/// Every window of two consecutive processed code points of `word`, each
/// once, left to right; nothing when fewer than two remain.
pub fn bigram(word: &str) -> (r: Vec<String>)
    ensures
        r.deep_view() == bigrams_of(word@),
{
    let c = normalized_chars(word);
    let mut out: Vec<String> = Vec::new();
    assert(out.deep_view() =~= seq![]);
    push_windows(&mut out, &c, 2);
    out
}

} // verus!
