//! A stored record and the trigrams it is indexed by.
use vstd::prelude::*;

use crate::trigrams::{trigram, trigrams_of};

verus! {

/// A record: its text, and whether that text is JSON.
#[derive(Clone)]
pub struct Message {
    pub json: bool,
    pub value: String,
}

impl Message {
    /// The trigrams of the record's text.
    pub fn get_trigram(&self) -> (r: Vec<String>)
        ensures
            r.deep_view() == trigrams_of(self.value@),
    {
        trigram(self.value.as_str())
    }

    /// A copy of the record's text.
    pub fn get_value(&self) -> (r: String)
        ensures
            r@ == self.value@,
    {
        self.value.clone()
    }
}

} // verus!
