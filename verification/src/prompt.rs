//! Choice-list prompting: the selection rules applied to whatever indices an
//! interactive picker hands back. The picker itself lives outside the
//! library; it supplies the chosen indices, each within the choice list.

use vstd::prelude::*;

verus! {

/// A message and the choice list shown with it.
pub struct Prompt {
    pub message: String,
    pub items: Vec<String>,
}

impl Prompt {
    /// A prompt with the given message and choices.
    pub fn new(message: String, items: Vec<String>) -> (p: Prompt)
        ensures
            p.message@ == message@,
            p.items.deep_view() == items.deep_view(),
    {
        Prompt { message, items }
    }

    /// The choices at the picker's selected indices, in selection order, or
    /// `None` when nothing was selected.
    pub fn interact(&self, selections: &Vec<usize>) -> (r: Option<Vec<String>>)
        requires
            forall|i: int| 0 <= i < selections@.len() ==> selections@[i] < self.items@.len(),
        ensures
            selections@.len() == 0 ==> r is None,
            selections@.len() > 0 ==> (r matches Some(v) && v@.len() == selections@.len() && (
            forall|i: int|
                0 <= i < v@.len() ==> #[trigger] v.deep_view()[i]
                    == self.items.deep_view()[selections@[i] as int])),
    {
        if selections.len() == 0 {
            return None;
        }
        let n = selections.len();
        let mut out: Vec<String> = Vec::new();
        let mut i: usize = 0;
        while i < n
            invariant
                n == selections@.len(),
                0 <= i <= n,
                out@.len() == i,
                forall|i2: int| 0 <= i2 < n ==> selections@[i2] < self.items@.len(),
                forall|j: int|
                    0 <= j < i ==> #[trigger] out.deep_view()[j]
                        == self.items.deep_view()[selections@[j] as int],
            decreases n - i,
        {
            let ghost pre = out.deep_view();
            let chosen = self.items[selections[i]].clone();
            out.push(chosen);
            proof {
                assert(out.deep_view() =~= pre.push(
                    self.items.deep_view()[selections@[i as int] as int],
                ));
            }
            i = i + 1;
        }
        Some(out)
    }

    /// The single choice when the list has exactly one; otherwise the first
    /// selected choice, or `None` when nothing was selected.
    pub fn interact_choose_first(&self, selections: &Vec<usize>) -> (r: Option<String>)
        requires
            forall|i: int| 0 <= i < selections@.len() ==> selections@[i] < self.items@.len(),
        ensures
            self.items@.len() == 1 ==> (r matches Some(s) && s@ == self.items.deep_view()[0]),
            self.items@.len() != 1 && selections@.len() == 0 ==> r is None,
            self.items@.len() != 1 && selections@.len() > 0 ==> (r matches Some(s) && s@
                == self.items.deep_view()[selections@[0] as int]),
    {
        if self.items.len() == 1 {
            return Some(self.items[0].clone());
        }
        if selections.len() == 0 {
            return None;
        }
        Some(self.items[selections[0]].clone())
    }
}

} // verus!
