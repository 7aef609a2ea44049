//! Path helpers: reading the filename and extension out of a slash-separated
//! path, with empty-string fallbacks instead of failures.

use vstd::prelude::*;
use vstd::string::StrSliceExecFns;

use crate::note_id::spec_extension;
use crate::text::{last_index_of, lemma_last_index_of, rfind, suffix_from};

verus! {

/// The filename a path ends with: everything after its last slash, or the
/// whole path when it has none.
pub open spec fn spec_filename(path: Seq<char>) -> Seq<char> {
    path.subrange(last_index_of(path, '/') + 1, path.len() as int)
}

/// The filename component of `path`.
pub fn unwrapped_filename(path: &str) -> (r: String)
    ensures
        r@ == spec_filename(path@),
{
    let _len = path.unicode_len();
    proof {
        lemma_last_index_of(path@, '/');
    }
    let r = match rfind(path, '/') {
        Some(k) => suffix_from(path, k + 1),
        None => path.to_owned(),
    };
    proof {
        assert(r@ =~= spec_filename(path@));
    }
    r
}

/// The extension of `path`'s filename: everything after its last dot, or
/// empty when it has none.
pub fn unwrapped_extension(path: &str) -> (r: String)
    ensures
        r@ == spec_extension(spec_filename(path@)),
{
    let f = unwrapped_filename(path);
    let _len = f.as_str().unicode_len();
    proof {
        lemma_last_index_of(f@, '.');
    }
    let r = match rfind(f.as_str(), '.') {
        Some(d) => suffix_from(f.as_str(), d + 1),
        None => String::new(),
    };
    proof {
        assert(r@ =~= spec_extension(f@));
    }
    r
}

} // verus!
