//! A single candidate offered to the interactive picker.

use vstd::prelude::*;

verus! {

/// What the picker shows for one candidate: the line of text it displays,
/// and the path its preview reads.
pub struct SearchItem {
    pub text: String,
    pub path: String,
}

impl SearchItem {
    /// A candidate with the given display text and path.
    pub fn new(text: String, path: String) -> (s: SearchItem)
        ensures
            s.text@ == text@,
            s.path@ == path@,
    {
        SearchItem { text, path }
    }
}

} // verus!
