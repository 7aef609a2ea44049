//! Candidate selection: the rules around the interactive fuzzy picker. A
//! single candidate is taken without asking; otherwise the picker's chosen
//! indices decide, and choosing nothing is an error, distinct from the
//! picker being unavailable.

use vstd::prelude::*;

use crate::error::Error;
use crate::note::Note;

verus! {

/// A set of candidate notes to choose from.
pub struct Search {
    pub items: Vec<Note>,
}

impl Search {
    /// A selection over the given candidates.
    pub fn new(items: Vec<Note>) -> (s: Search)
        ensures
            s.items == items,
    {
        Search { items }
    }

    /// Resolves the selection: the single candidate when there is exactly
    /// one, else the candidates at the picker's chosen indices, else
    /// `NoteNotSelected` when nothing was chosen.
    pub fn run(&self, picked: &Vec<usize>) -> (r: Result<Vec<Note>, Error>)
        requires
            forall|i: int| 0 <= i < picked@.len() ==> picked@[i] < self.items@.len(),
        ensures
            self.items@.len() == 1 ==> (r matches Ok(ns) && ns@.len() == 1 && ns@[0]@
                == self.items@[0]@),
            self.items@.len() != 1 && picked@.len() == 0 ==> r matches Err(Error::NoteNotSelected),
            self.items@.len() != 1 && picked@.len() > 0 ==> (r matches Ok(ns) && ns@.len()
                == picked@.len() && (forall|i: int|
                0 <= i < ns@.len() ==> (#[trigger] ns@[i])@ == self.items@[picked@[i] as int]@)),
    {
        if self.items.len() == 1 {
            let mut out: Vec<Note> = Vec::new();
            out.push(self.items[0].clone());
            return Ok(out);
        }
        if picked.len() == 0 {
            return Err(Error::NoteNotSelected);
        }
        let n = picked.len();
        let mut out: Vec<Note> = Vec::new();
        let mut i: usize = 0;
        while i < n
            invariant
                n == picked@.len(),
                0 <= i <= n,
                out@.len() == i,
                forall|i2: int| 0 <= i2 < n ==> picked@[i2] < self.items@.len(),
                forall|j: int|
                    0 <= j < i ==> (#[trigger] out@[j])@ == self.items@[picked@[j] as int]@,
            decreases n - i,
        {
            out.push(self.items[picked[i]].clone());
            i = i + 1;
        }
        Ok(out)
    }
}

} // verus!
