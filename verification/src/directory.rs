//! The directory index: the notes under a storage root, and membership
//! queries by name and by tag.
//!
//! The shell walks the filesystem and hands the library every file it found
//! as a path and its text; the index keeps those with the `md` extension,
//! loads each one as a note, and fails the whole listing when a single file
//! does not load. Queries are recomputed from a fresh listing every time,
//! never cached.

use vstd::prelude::*;

use crate::error::Error;
use crate::matter::{document_of, MatterView};
use crate::note::{Note, NoteView};
use crate::note_id::spec_extension;
use crate::note_id::spec_id_of;
use crate::path_ext::{spec_filename, unwrapped_extension};
use crate::text::str_eq;

verus! {

/// The mathematical value of a file found under the root.
#[verifier::ext_equal]
pub ghost struct FileEntryView {
    pub path: Seq<char>,
    pub text: Seq<char>,
}

/// A file the shell found under the root: its path and its full text.
pub struct FileEntry {
    pub path: String,
    pub text: String,
}

impl View for FileEntry {
    type V = FileEntryView;

    open spec fn view(&self) -> FileEntryView {
        FileEntryView { path: self.path@, text: self.text@ }
    }
}

impl DeepView for FileEntry {
    type V = FileEntryView;

    open spec fn deep_view(&self) -> FileEntryView {
        self.view()
    }
}

/// The entries whose filename carries the indexed extension.
pub open spec fn md_files(files: Seq<FileEntryView>) -> Seq<FileEntryView> {
    files.filter(|f: FileEntryView| spec_extension(spec_filename(f.path)) == "md"@)
}

/// Filtering an extended listing appends the new entry exactly when its
/// extension matches.
proof fn lemma_md_files_push(files: Seq<FileEntryView>, f: FileEntryView)
    ensures
        spec_extension(spec_filename(f.path)) == "md"@ ==> md_files(files.push(f)) == md_files(
            files,
        ).push(f),
        spec_extension(spec_filename(f.path)) != "md"@ ==> md_files(files.push(f)) == md_files(
            files,
        ),
{
    reveal(Seq::filter);
    assert(files.push(f).drop_last() =~= files);
    assert(files.push(f).last() == f);
}

/// The filtered prefix of a listing is a prefix of the filtered listing.
proof fn lemma_md_files_prefix(files: Seq<FileEntryView>, i: int)
    requires
        0 <= i <= files.len(),
    ensures
        md_files(files.take(i)).len() <= md_files(files).len(),
        forall|j: int|
            0 <= j < md_files(files.take(i)).len() ==> #[trigger] md_files(files)[j] == md_files(
                files.take(i),
            )[j],
    decreases files.len() - i,
{
    if i == files.len() {
        assert(files.take(i) =~= files);
    } else {
        let f = files[i];
        assert(files.take(i + 1) =~= files.take(i).push(f));
        lemma_md_files_push(files.take(i), f);
        lemma_md_files_prefix(files, i + 1);
    }
}

/// What loading guarantees of the note produced from a file: identity from
/// the filename, well-formed metadata, a text that really is an accepted
/// block for the note's metadata followed by its body — so nothing can be
/// invented for an unparseable file — and, for any well-formed reading of
/// the text, exactly that reading. The last two clauses pin the note for
/// every loadable text, written by this library or edited by hand.
pub open spec fn note_loaded(n: NoteView, f: FileEntryView) -> bool {
    &&& n.path == f.path
    &&& n.id == spec_id_of(spec_filename(f.path))
    &&& n.id.name.len() > 0
    &&& n.matter.wf()
    &&& document_of(f.text, n.matter, n.content)
    &&& forall|mv: MatterView, c: Seq<char>|
        (mv.wf() && document_of(f.text, mv, c)) ==> n.matter == mv && n.content == c
}

/// True when the loader is guaranteed to accept the file: its filename
/// yields a name, and its text is an accepted block followed by a body.
pub open spec fn file_loadable(f: FileEntryView) -> bool {
    spec_id_of(spec_filename(f.path)).name.len() > 0 && exists|mv: MatterView, c: Seq<char>|
        mv.wf() && #[trigger] document_of(f.text, mv, c)
}

/// The views of a sequence of notes.
pub open spec fn views_of(notes: Seq<Note>) -> Seq<NoteView> {
    notes.map_values(|n: Note| n@)
}

/// The notes whose identifier carries the given name.
pub open spec fn named_views(nvs: Seq<NoteView>, name: Seq<char>) -> Seq<NoteView> {
    nvs.filter(|n: NoteView| n.id.name == name)
}

/// The notes that carry the given tag.
pub open spec fn tagged_views(nvs: Seq<NoteView>, tag: Seq<char>) -> Seq<NoteView> {
    nvs.filter(|n: NoteView| n.matter.tags.contains(tag))
}

/// Filtering by name over an extended sequence.
proof fn lemma_named_views_push(nvs: Seq<NoteView>, name: Seq<char>, x: NoteView)
    ensures
        x.id.name == name ==> named_views(nvs.push(x), name) == named_views(nvs, name).push(x),
        x.id.name != name ==> named_views(nvs.push(x), name) == named_views(nvs, name),
{
    reveal(Seq::filter);
    assert(nvs.push(x).drop_last() =~= nvs);
    assert(nvs.push(x).last() == x);
}

/// Filtering by tag over an extended sequence.
proof fn lemma_tagged_views_push(nvs: Seq<NoteView>, tag: Seq<char>, x: NoteView)
    ensures
        x.matter.tags.contains(tag) ==> tagged_views(nvs.push(x), tag) == tagged_views(
            nvs,
            tag,
        ).push(x),
        !x.matter.tags.contains(tag) ==> tagged_views(nvs.push(x), tag) == tagged_views(nvs, tag),
{
    reveal(Seq::filter);
    assert(nvs.push(x).drop_last() =~= nvs);
    assert(nvs.push(x).last() == x);
}

/// The index over a storage root.
pub struct Directory {
    pub path: String,
}

impl Directory {
    /// An index rooted at `path`.
    pub fn new(path: String) -> (d: Directory)
        ensures
            d.path@ == path@,
    {
        Directory { path }
    }

    /// Builds a note from every file whose extension is `md`, in listing
    /// order. A single file that fails to load fails the whole listing; in
    /// particular, every file written by this library loads.
    pub fn notes(&self, files: &Vec<FileEntry>) -> (r: Result<Vec<Note>, Error>)
        ensures
            r is Err ==> (r matches Err(Error::InvalidNoteId { .. }) || r matches Err(
                Error::Frontmatter,
            )),
            r matches Ok(ns) ==> ns@.len() == md_files(files.deep_view()).len(),
            r matches Ok(ns) ==> forall|i: int|
                0 <= i < ns@.len() ==> note_loaded(
                    (#[trigger] ns@[i])@,
                    md_files(files.deep_view())[i],
                ),
            (forall|i: int|
                0 <= i < md_files(files.deep_view()).len() ==> file_loadable(
                    #[trigger] md_files(files.deep_view())[i],
                )) ==> r is Ok,
    {
        let n = files.len();
        let mut out: Vec<Note> = Vec::new();
        let mut i: usize = 0;
        while i < n
            invariant
                n == files@.len(),
                0 <= i <= n,
                out@.len() == md_files(files.deep_view().take(i as int)).len(),
                forall|j: int|
                    0 <= j < out@.len() ==> note_loaded(
                        (#[trigger] out@[j])@,
                        md_files(files.deep_view().take(i as int))[j],
                    ),
            decreases n - i,
        {
            let ext = unwrapped_extension(files[i].path.as_str());
            let ghost taken = files.deep_view().take(i as int);
            let ghost fv = files.deep_view()[i as int];
            proof {
                assert(files.deep_view().take(i + 1) =~= taken.push(fv));
                lemma_md_files_push(taken, fv);
            }
            if str_eq(ext.as_str(), "md") {
                match Note::from(files[i].path.as_str(), files[i].text.as_str()) {
                    Ok(note) => {
                        proof {
                            assert forall|mv: MatterView, c: Seq<char>|
                                mv.wf() && document_of(fv.text, mv, c) implies (note@.matter == mv
                                && note@.content == c) by {}
                            assert(note_loaded(note@, fv));
                        }
                        let ghost pre = out@;
                        out.push(note);
                        proof {
                            assert(out@ =~= pre.push(out@[pre.len() as int]));
                            assert forall|j: int| 0 <= j < out@.len() implies note_loaded(
                                (#[trigger] out@[j])@,
                                md_files(files.deep_view().take(i + 1))[j],
                            ) by {
                                if j < pre.len() {
                                    assert(out@[j] == pre[j]);
                                    assert(md_files(files.deep_view().take(i + 1))[j] == md_files(
                                        taken,
                                    )[j]);
                                }
                            }
                        }
                    },
                    Err(e) => {
                        proof {
                            assert(!file_loadable(fv)) by {
                                if file_loadable(fv) {
                                    let (mv, c) = choose|mv: MatterView, c: Seq<char>|
                                        mv.wf() && #[trigger] document_of(fv.text, mv, c);
                                    assert(false);
                                }
                            }
                            let k = md_files(taken).len() as int;
                            assert(md_files(files.deep_view().take(i + 1))[k] == fv);
                            lemma_md_files_prefix(files.deep_view(), i + 1);
                            assert(md_files(files.deep_view())[k] == fv);
                        }
                        return Err(e);
                    },
                }
            }
            i = i + 1;
        }
        proof {
            assert(files.deep_view().take(i as int) =~= files.deep_view());
        }
        Ok(out)
    }

    /// The notes whose identifier carries `name`, in order. Several notes
    /// may share a name; their prefixes disambiguate, so a sequence is
    /// returned. Fails with `NoteNotFound` exactly when none matches.
    pub fn find(&self, notes: &Vec<Note>, name: &str) -> (r: Result<Vec<Note>, Error>)
        ensures
            named_views(views_of(notes@), name@).len() == 0 ==> (r matches Err(
                Error::NoteNotFound { name: nm },
            ) && nm@ == name@),
            named_views(views_of(notes@), name@).len() > 0 ==> (r matches Ok(ns) && views_of(ns@)
                == named_views(views_of(notes@), name@)),
    {
        let ghost nvs = views_of(notes@);
        let n = notes.len();
        let mut out: Vec<Note> = Vec::new();
        proof {
            reveal(Seq::filter);
            assert(views_of(out@) =~= named_views(nvs.take(0), name@));
        }
        let mut i: usize = 0;
        while i < n
            invariant
                n == notes@.len(),
                nvs == views_of(notes@),
                0 <= i <= n,
                views_of(out@) == named_views(nvs.take(i as int), name@),
            decreases n - i,
        {
            let ghost pre = out@;
            proof {
                assert(nvs.take(i + 1) =~= nvs.take(i as int).push(notes@[i as int]@));
                lemma_named_views_push(nvs.take(i as int), name@, notes@[i as int]@);
            }
            if str_eq(notes[i].id.name.as_str(), name) {
                out.push(notes[i].clone());
                proof {
                    assert(views_of(out@) =~= views_of(pre).push(notes@[i as int]@));
                }
            }
            i = i + 1;
        }
        proof {
            assert(nvs.take(i as int) =~= nvs);
        }
        if out.len() == 0 {
            proof {
                assert(views_of(out@).len() == 0);
            }
            return Err(Error::NoteNotFound { name: name.to_owned() });
        }
        proof {
            assert(views_of(out@).len() > 0);
        }
        Ok(out)
    }

    /// The notes that carry the tag, in order. Fails with `TagNotFound`
    /// exactly when none does.
    pub fn find_by_tag(&self, notes: &Vec<Note>, tag: &str) -> (r: Result<Vec<Note>, Error>)
        ensures
            tagged_views(views_of(notes@), tag@).len() == 0 ==> (r matches Err(
                Error::TagNotFound { tag: t },
            ) && t@ == tag@),
            tagged_views(views_of(notes@), tag@).len() > 0 ==> (r matches Ok(ns) && views_of(ns@)
                == tagged_views(views_of(notes@), tag@)),
    {
        let ghost nvs = views_of(notes@);
        let n = notes.len();
        let mut out: Vec<Note> = Vec::new();
        proof {
            reveal(Seq::filter);
            assert(views_of(out@) =~= tagged_views(nvs.take(0), tag@));
        }
        let mut i: usize = 0;
        while i < n
            invariant
                n == notes@.len(),
                nvs == views_of(notes@),
                0 <= i <= n,
                views_of(out@) == tagged_views(nvs.take(i as int), tag@),
            decreases n - i,
        {
            let ghost pre = out@;
            proof {
                assert(nvs.take(i + 1) =~= nvs.take(i as int).push(notes@[i as int]@));
                lemma_tagged_views_push(nvs.take(i as int), tag@, notes@[i as int]@);
            }
            if notes[i].has_tag(tag) {
                out.push(notes[i].clone());
                proof {
                    assert(views_of(out@) =~= views_of(pre).push(notes@[i as int]@));
                }
            }
            i = i + 1;
        }
        proof {
            assert(nvs.take(i as int) =~= nvs);
        }
        if out.len() == 0 {
            proof {
                assert(views_of(out@).len() == 0);
            }
            return Err(Error::TagNotFound { tag: tag.to_owned() });
        }
        proof {
            assert(views_of(out@).len() > 0);
        }
        Ok(out)
    }
}

} // verus!
