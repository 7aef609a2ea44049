//! The error taxonomy of the library.

use vstd::prelude::*;
use vstd::string::StringExecFns;

verus! {

/// The description of each failure.
pub open spec fn spec_message(e: Error) -> Seq<char> {
    match e {
        Error::InvalidNoteId { id } => "Invalid note id: "@ + id@,
        Error::Frontmatter => "Malformed frontmatter block"@,
        Error::LinkExists { link } => "Note already contains a link to `"@ + link@ + "`"@,
        Error::LinkMissing { link, name } => "Link `"@ + link@ + "` does not exist on note `"@
            + name@ + "`"@,
        Error::NoteNotFound { name } => "Note with name `"@ + name@ + "` does not exist"@,
        Error::NoteNotSelected => "No note was selected"@,
        Error::TagExists { tag } => "Note already contains the tag `"@ + tag@ + "`"@,
        Error::TagMissing { tag, name } => "Tag `"@ + tag@ + "` does not exist on note `"@ + name@
            + "`"@,
        Error::TagNotFound { tag } => "No note with tag `"@ + tag@ + "` exists"@,
    }
}

/// Every failure a library operation can signal. Filesystem errors stay with
/// the unverified shell around the library; nothing here wraps an I/O error.
#[derive(Debug)]
pub enum Error {
    /// The filename does not fit the `{prefix}-{name}.{extension}` convention
    /// (its name part is empty).
    InvalidNoteId { id: String },
    /// The frontmatter block is not well-formed.
    Frontmatter,
    /// The note already links to `link`.
    LinkExists { link: String },
    /// The note `name` has no link to `link`.
    LinkMissing { link: String, name: String },
    /// No note with the given name exists.
    NoteNotFound { name: String },
    /// Interactive disambiguation selected nothing.
    NoteNotSelected,
    /// The note already carries the tag `tag`.
    TagExists { tag: String },
    /// The note `name` does not carry the tag `tag`.
    TagMissing { tag: String, name: String },
    /// No note with the given tag exists.
    TagNotFound { tag: String },
}

impl Error {
    /// A human-readable description of the failure.
    pub fn message(&self) -> (r: String)
        ensures
            r@ == spec_message(*self),
    {
        match self {
            Error::InvalidNoteId { id } => {
                let mut out = "Invalid note id: ".to_owned();
                out.append(id.as_str());
                out
            },
            Error::Frontmatter => "Malformed frontmatter block".to_owned(),
            Error::LinkExists { link } => {
                let mut out = "Note already contains a link to `".to_owned();
                out.append(link.as_str());
                out.append("`");
                out
            },
            Error::LinkMissing { link, name } => {
                let mut out = "Link `".to_owned();
                out.append(link.as_str());
                out.append("` does not exist on note `");
                out.append(name.as_str());
                out.append("`");
                out
            },
            Error::NoteNotFound { name } => {
                let mut out = "Note with name `".to_owned();
                out.append(name.as_str());
                out.append("` does not exist");
                out
            },
            Error::NoteNotSelected => "No note was selected".to_owned(),
            Error::TagExists { tag } => {
                let mut out = "Note already contains the tag `".to_owned();
                out.append(tag.as_str());
                out.append("`");
                out
            },
            Error::TagMissing { tag, name } => {
                let mut out = "Tag `".to_owned();
                out.append(tag.as_str());
                out.append("` does not exist on note `");
                out.append(name.as_str());
                out.append("`");
                out
            },
            Error::TagNotFound { tag } => {
                let mut out = "No note with tag `".to_owned();
                out.append(tag.as_str());
                out.append("` exists");
                out
            },
        }
    }
}

} // verus!
