//! The command layer and the cross-note consistency engine.
//!
//! Linking keeps the relation symmetric: a link is written on both sides,
//! and a side that already has it is tolerated. Unlinking removes both
//! sides, tolerating a side already missing. Removing a note first strips
//! every link that points at it from the whole collection.

use vstd::prelude::*;
use vstd::string::StringExecFns;

use crate::config::Config;
use crate::directory::Directory;
use crate::error::Error;
use crate::matter::MatterView;
use crate::note::{with_links, with_tags, Note};
use crate::note_id::{all_digits, lemma_format_then_parse, spec_format, spec_id_of, NoteId};
use crate::path_ext::spec_filename;
use crate::text::{
    last_index_of, lemma_last_index_of, lemma_without_not_contains, without,
};

verus! {

/// The command layer: a configuration and the directory it works in.
pub struct Handler {
    pub config: Config,
    pub directory: Directory,
}

impl Handler {
    /// A handler over the given configuration and directory.
    pub fn new(config: Config, directory: Directory) -> (h: Handler)
        ensures
            h.config.path@ == config.path@,
            h.config.editor@ == config.editor@,
            h.directory.path@ == directory.path@,
    {
        Handler { config, directory }
    }

    /// A fresh note under the directory root: a timestamp-prefixed filename
    /// carrying `name`, default metadata, an empty body. Fails exactly when
    /// the name is empty. The shell writes the note's text to its path
    /// afterwards. (A name containing a slash would name a nested path; what
    /// such a note's identifier becomes is left to the filename convention.)
    pub fn create(&self, name: &str) -> (r: Result<Note, Error>)
        ensures
            name@.len() == 0 ==> r matches Err(Error::InvalidNoteId { .. }),
            name@.len() > 0 && !name@.contains('/') ==> (r matches Ok(n) && n@.matter
                == (MatterView { name: name@, tags: Seq::empty(), links: Seq::empty() })
                && n@.content.len() == 0 && n@.id.name == name@ && n@.id.extension == "md"@
                && all_digits(n@.id.prefix) && n@.path == self.directory.path@ + seq!['/']
                + spec_format(n@.id)),
    {
        let id = NoteId::new(name);
        let fname = id.format();
        let mut path = self.directory.path.clone();
        path.append("/");
        path.append(fname.as_str());
        proof {
            reveal_strlit("/");
            reveal_strlit("md");
            if !name@.contains('/') {
                let dir = self.directory.path@;
                let p = id@.prefix;
                assert(!p.contains('-') && !p.contains(' ') && !p.contains('.') && !p.contains(
                    '/',
                )) by {
                    if p.contains('-') {
                        let i = choose|i: int| 0 <= i < p.len() && p[i] == '-';
                        assert('0' <= p[i] && p[i] <= '9');
                    }
                    if p.contains(' ') {
                        let i = choose|i: int| 0 <= i < p.len() && p[i] == ' ';
                        assert('0' <= p[i] && p[i] <= '9');
                    }
                    if p.contains('.') {
                        let i = choose|i: int| 0 <= i < p.len() && p[i] == '.';
                        assert('0' <= p[i] && p[i] <= '9');
                    }
                    if p.contains('/') {
                        let i = choose|i: int| 0 <= i < p.len() && p[i] == '/';
                        assert('0' <= p[i] && p[i] <= '9');
                    }
                }
                assert(!("md"@).contains('.') && !("md"@).contains('/')) by {
                    if ("md"@).contains('.') {
                        let i = choose|i: int| 0 <= i < ("md"@).len() && ("md"@)[i] == '.';
                    }
                    if ("md"@).contains('/') {
                        let i = choose|i: int| 0 <= i < ("md"@).len() && ("md"@)[i] == '/';
                    }
                }
                lemma_format_then_parse(id@);
                let f = fname@;
                assert(f == p + seq!['-'] + name@ + (seq!['.'] + "md"@));
                assert(!f.contains('/')) by {
                    if f.contains('/') {
                        let q = choose|q: int| 0 <= q < f.len() && f[q] == '/';
                        if q < p.len() {
                            assert(f[q] == p[q]);
                            assert(p.contains('/'));
                        } else if q == p.len() {
                            assert(f[q] == '-');
                        } else if q < p.len() + 1 + name@.len() {
                            assert(f[q] == name@[q - p.len() - 1]);
                            assert(name@.contains('/'));
                        } else if q == p.len() + 1 + name@.len() {
                            assert(f[q] == '.');
                        } else {
                            assert(f[q] == ("md"@)[q - p.len() - 2 - name@.len()]);
                            assert(("md"@).contains('/'));
                        }
                    }
                }
                let pv = dir + seq!['/'] + f;
                assert(path@ == pv);
                lemma_last_index_of(pv, '/');
                let ghost li = last_index_of(pv, '/');
                assert(pv[dir.len() as int] == '/');
                assert forall|j: int| dir.len() < j < pv.len() implies pv[j] != '/' by {
                    assert(pv[j] == f[j - dir.len() - 1]);
                    if f[j - dir.len() - 1] == '/' {
                        assert(f.contains('/'));
                    }
                }
                assert(li == dir.len() as int);
                assert(spec_filename(pv) =~= f);
                assert(spec_id_of(spec_filename(path@)) == id@);
            }
        }
        let r = Note::create(path.as_str());
        proof {
            if name@.len() > 0 && !name@.contains('/') {
                assert(r matches Ok(n) && n@.matter =~= (MatterView {
                    name: name@,
                    tags: Seq::empty(),
                    links: Seq::empty(),
                }));
            }
        }
        r
    }

    /// Links two notes to each other. Both sides hold the link afterwards;
    /// a side that already had it is left as it was, so the operation as a
    /// whole always succeeds.
    pub fn link(&self, a: &mut Note, b: &mut Note)
        ensures
            final(a)@ == (if old(a)@.matter.links.contains(spec_format(old(b)@.id)) {
                old(a)@
            } else {
                with_links(old(a)@, old(a)@.matter.links.push(spec_format(old(b)@.id)))
            }),
            final(b)@ == (if old(b)@.matter.links.contains(spec_format(old(a)@.id)) {
                old(b)@
            } else {
                with_links(old(b)@, old(b)@.matter.links.push(spec_format(old(a)@.id)))
            }),
            final(a)@.matter.links.contains(spec_format(old(b)@.id)),
            final(b)@.matter.links.contains(spec_format(old(a)@.id)),
    {
        let bid = b.id.format();
        let aid = a.id.format();
        if !a.has_link(bid.as_str()) {
            let _ = a.add_link(bid.as_str());
            proof {
                assert(a@.matter.links[a@.matter.links.len() - 1] == spec_format(old(b)@.id));
            }
        }
        if !b.has_link(aid.as_str()) {
            let _ = b.add_link(aid.as_str());
            proof {
                assert(b@.matter.links[b@.matter.links.len() - 1] == spec_format(old(a)@.id));
            }
        }
    }

    /// Removes the link between two notes on both sides. A side that never
    /// had it is left as it was, so the operation as a whole always
    /// succeeds; afterwards neither note links to the other.
    pub fn remove_link(&self, a: &mut Note, b: &mut Note)
        ensures
            final(a)@ == (if old(a)@.matter.links.contains(spec_format(old(b)@.id)) {
                with_links(old(a)@, without(old(a)@.matter.links, spec_format(old(b)@.id)))
            } else {
                old(a)@
            }),
            final(b)@ == (if old(b)@.matter.links.contains(spec_format(old(a)@.id)) {
                with_links(old(b)@, without(old(b)@.matter.links, spec_format(old(a)@.id)))
            } else {
                old(b)@
            }),
            !final(a)@.matter.links.contains(spec_format(old(b)@.id)),
            !final(b)@.matter.links.contains(spec_format(old(a)@.id)),
    {
        let bid = b.id.format();
        let aid = a.id.format();
        if a.has_link(bid.as_str()) {
            let _ = a.remove_link(bid.as_str());
            proof {
                lemma_without_not_contains(old(a)@.matter.links, bid@);
            }
        }
        if b.has_link(aid.as_str()) {
            let _ = b.remove_link(aid.as_str());
            proof {
                lemma_without_not_contains(old(b)@.matter.links, aid@);
            }
        }
    }

    /// The cascade before a note is removed: strips every link to `target`
    /// from each note of the collection, leaving everything else as it was.
    /// Afterwards no note of the result links to `target`; deleting the
    /// target's file itself is the shell's final step.
    pub fn remove(&self, target: &Note, notes: &Vec<Note>) -> (r: Vec<Note>)
        ensures
            r@.len() == notes@.len(),
            forall|i: int|
                0 <= i < notes@.len() ==> (#[trigger] r@[i])@ == (
                if notes@[i]@.matter.links.contains(spec_format(target@.id)) {
                    with_links(
                        notes@[i]@,
                        without(notes@[i]@.matter.links, spec_format(target@.id)),
                    )
                } else {
                    notes@[i]@
                }),
            forall|i: int|
                0 <= i < r@.len() ==> !(#[trigger] r@[i])@.matter.links.contains(
                    spec_format(target@.id),
                ),
    {
        let tid = target.id.format();
        let n = notes.len();
        let mut out: Vec<Note> = Vec::new();
        let mut i: usize = 0;
        while i < n
            invariant
                n == notes@.len(),
                tid@ == spec_format(target@.id),
                0 <= i <= n,
                out@.len() == i,
                forall|j: int|
                    0 <= j < i ==> (#[trigger] out@[j])@ == (
                    if notes@[j]@.matter.links.contains(spec_format(target@.id)) {
                        with_links(
                            notes@[j]@,
                            without(notes@[j]@.matter.links, spec_format(target@.id)),
                        )
                    } else {
                        notes@[j]@
                    }),
                forall|j: int|
                    0 <= j < i ==> !(#[trigger] out@[j])@.matter.links.contains(
                        spec_format(target@.id),
                    ),
            decreases n - i,
        {
            let mut nt = notes[i].clone();
            if nt.has_link(tid.as_str()) {
                let _ = nt.remove_link(tid.as_str());
                proof {
                    lemma_without_not_contains(notes@[i as int]@.matter.links, tid@);
                }
            }
            out.push(nt);
            i = i + 1;
        }
        out
    }

    /// Puts the tag on the note; one already carrying it is left as it was.
    pub fn tag(&self, note: &mut Note, tag: &str)
        ensures
            final(note)@ == (if old(note)@.matter.tags.contains(tag@) {
                old(note)@
            } else {
                with_tags(old(note)@, old(note)@.matter.tags.push(tag@))
            }),
            final(note)@.matter.tags.contains(tag@),
    {
        if !note.has_tag(tag) {
            let _ = note.add_tag(tag);
            proof {
                assert(note@.matter.tags[note@.matter.tags.len() - 1] == tag@);
            }
        }
    }

    /// Takes the tag off the note; one never carrying it is left as it was.
    pub fn remove_tag(&self, note: &mut Note, tag: &str)
        ensures
            final(note)@ == (if old(note)@.matter.tags.contains(tag@) {
                with_tags(old(note)@, without(old(note)@.matter.tags, tag@))
            } else {
                old(note)@
            }),
            !final(note)@.matter.tags.contains(tag@),
    {
        if note.has_tag(tag) {
            let _ = note.remove_tag(tag);
            proof {
                lemma_without_not_contains(old(note)@.matter.tags, tag@);
            }
        }
    }
}

} // verus!
