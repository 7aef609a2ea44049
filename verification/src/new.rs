//! Creating the filename of a fresh note.

use vstd::prelude::*;

use crate::error::Error;
use crate::note_id::{all_digits, spec_format, NoteId, NoteIdView};

verus! {

/// The canonical filename for a fresh note named `name`: a timestamp prefix
/// of decimal digits, the name, and the `md` extension. Always succeeds.
pub fn new(name: String) -> (r: Result<String, Error>)
    ensures
        r matches Ok(f) && (exists|p: Seq<char>|
            all_digits(p) && p.len() >= 1 && f@ == spec_format(
                NoteIdView { prefix: p, name: name@, extension: "md"@ },
            )),
{
    let id = NoteId::new(name.as_str());
    let f = id.format();
    proof {
        assert(all_digits(id@.prefix) && id@.prefix.len() >= 1 && f@ == spec_format(
            NoteIdView { prefix: id@.prefix, name: name@, extension: "md"@ },
        ));
    }
    Ok(f)
}

} // verus!
