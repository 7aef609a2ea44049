//! The note entity: an identifier, a path, frontmatter, and body content.
//!
//! A note's on-disk form is its frontmatter block immediately followed by
//! the body. Loading splits the text at the first closing delimiter line;
//! the mutation operations are precondition-checked edges, never silent
//! no-ops, and each leaves every other part of the note untouched.

use vstd::prelude::*;
use vstd::string::StrSliceExecFns;
use vstd::string::StringExecFns;

use crate::error::Error;
use crate::matter::{
    accepted_lines, accepts, block_shape, document_of, lemma_accepted_lines_ok,
    lemma_matter_lines_facts, lemma_minimal_lines_facts, spec_default, spec_serialize, Matter,
    MatterView,
};
use crate::note_id::{spec_format, spec_id_of, NoteId, NoteIdView};
use crate::path_ext::{spec_filename, unwrapped_filename};
use crate::text::{
    contains_str, find_newline_from, join_lines, lemma_chain_agree, lemma_join_lines_last,
    lemma_join_lines_one, lemma_join_lines_push, line_free, lines_ok, remove_matching, str_eq,
    suffix_from, without,
};

verus! {

/// The mathematical value of a note.
#[verifier::ext_equal]
pub ghost struct NoteView {
    pub id: NoteIdView,
    pub path: Seq<char>,
    pub matter: MatterView,
    pub content: Seq<char>,
}

/// A note: its identity, where it lives, its metadata, and everything after
/// the frontmatter block.
#[derive(Debug)]
pub struct Note {
    pub id: NoteId,
    pub path: String,
    pub matter: Matter,
    pub content: String,
}

impl View for Note {
    type V = NoteView;

    open spec fn view(&self) -> NoteView {
        NoteView {
            id: self.id@,
            path: self.path@,
            matter: self.matter@,
            content: self.content@,
        }
    }
}

impl Clone for Note {
    /// Cloning preserves the note's value.
    fn clone(&self) -> (r: Self)
        ensures
            r@ == self@,
    {
        let r = Note {
            id: self.id.clone(),
            path: self.path.clone(),
            matter: self.matter.clone(),
            content: self.content.clone(),
        };
        proof {
            assert(r@ =~= self@);
        }
        r
    }
}

/// The note whose metadata is `n`'s with the links replaced.
pub open spec fn with_links(n: NoteView, links: Seq<Seq<char>>) -> NoteView {
    NoteView { matter: MatterView { links, ..n.matter }, ..n }
}

/// The note whose metadata is `n`'s with the tags replaced.
pub open spec fn with_tags(n: NoteView, tags: Seq<Seq<char>>) -> NoteView {
    NoteView { matter: MatterView { tags, ..n.matter }, ..n }
}

/// Index just past the first closing delimiter line of a document that opens
/// with one, or `None` when the document has no such block. Whenever the
/// text is some delimited block followed by anything, the scan finds exactly
/// the end of that block.
fn find_block_end(text: &str) -> (r: Option<usize>)
    ensures
        r matches Some(e) ==> 0 < e <= text@.len(),
        forall|bs: Seq<Seq<char>>, c: Seq<char>|
            (lines_ok(bs) && block_shape(bs) && text@ == join_lines(bs) + c) ==> (r matches Some(e)
                && e as int == join_lines(bs).len()),
{
    proof {
        reveal_strlit("---");
    }
    let n = text.unicode_len();
    let first_nl = match find_newline_from(text, 0) {
        Some(j) => j,
        None => {
            proof {
                assert forall|bs: Seq<Seq<char>>, c: Seq<char>|
                    (lines_ok(bs) && block_shape(bs) && text@ == join_lines(bs) + c) implies
                    false by {
                    let h = bs[0];
                    assert(join_lines(bs) == h + seq!['\n'] + join_lines(bs.drop_first()));
                    assert(join_lines(bs)[h.len() as int] == '\n');
                    assert(text@[h.len() as int] == '\n');
                }
            }
            return None;
        },
    };
    let first = text.substring_char(0, first_nl);
    if !str_eq(first, "---") {
        proof {
            assert forall|bs: Seq<Seq<char>>, c: Seq<char>|
                (lines_ok(bs) && block_shape(bs) && text@ == join_lines(bs) + c) implies false by {
                let h = bs[0];
                assert(join_lines(bs) == h + seq!['\n'] + join_lines(bs.drop_first()));
                assert forall|q: int| 0 <= q < h.len() implies text@[q] == h[q] by {
                    assert(join_lines(bs)[q] == h[q]);
                }
                assert(text@[h.len() as int] == '\n');
                if first_nl < h.len() {
                    assert(text@[first_nl as int] == h[first_nl as int]);
                }
                if first_nl > h.len() {
                    assert(text@[h.len() as int] != '\n');
                }
                assert(first_nl == h.len());
                assert(first@ =~= h);
            }
        }
        return None;
    }
    let mut pos: usize = first_nl + 1;
    let ghost mut cs: Seq<Seq<char>> = seq![first@];
    proof {
        lemma_join_lines_one(first@);
        assert(text@.take(pos as int) =~= join_lines(cs));
    }
    while pos < n
        invariant
            n == text@.len(),
            pos <= n,
            text@.take(pos as int) == join_lines(cs),
            lines_ok(cs),
            cs.len() >= 1,
            cs[0] == "---"@,
            forall|j: int| 1 <= j < cs.len() ==> cs[j] != "---"@,
        decreases n - pos,
    {
        let j = match find_newline_from(text, pos) {
            Some(j) => j,
            None => {
                proof {
                    assert forall|bs: Seq<Seq<char>>, c: Seq<char>|
                        (lines_ok(bs) && block_shape(bs) && text@ == join_lines(bs) + c) implies
                        false by {
                        let tail = text@.subrange(pos as int, n as int);
                        assert(text@ =~= join_lines(cs) + tail);
                        lemma_chain_agree(cs, tail, bs, c);
                        if cs.len() < bs.len() {
                            let rest = bs.skip(cs.len() as int);
                            assert(tail == join_lines(rest) + c);
                            let h = rest[0];
                            assert(join_lines(rest) == h + seq!['\n'] + join_lines(
                                rest.drop_first(),
                            ));
                            assert(join_lines(rest)[h.len() as int] == '\n');
                            assert(tail[h.len() as int] == '\n');
                            assert(text@[pos + h.len()] == '\n');
                        } else {
                            assert(cs[bs.len() - 1] == bs[bs.len() - 1]);
                        }
                    }
                }
                return None;
            },
        };
        let line = text.substring_char(pos, j);
        let closing = str_eq(line, "---");
        let ghost csp = cs.push(line@);
        proof {
            lemma_join_lines_push(cs, line@);
            assert(text@.take(j + 1) =~= join_lines(cs) + line@ + seq!['\n']);
        }
        if closing {
            proof {
                assert forall|bs: Seq<Seq<char>>, c: Seq<char>|
                    (lines_ok(bs) && block_shape(bs) && text@ == join_lines(bs) + c) implies (j + 1)
                    as int == join_lines(bs).len() by {
                    let rest = text@.subrange(j + 1, n as int);
                    assert(text@ =~= join_lines(csp) + rest);
                    assert(lines_ok(csp));
                    lemma_chain_agree(csp, rest, bs, c);
                    if csp.len() < bs.len() {
                        assert(csp[csp.len() - 1] == bs[csp.len() - 1]);
                        assert(bs[csp.len() - 1] != "---"@);
                    }
                    if csp.len() > bs.len() {
                        assert(csp[bs.len() - 1] == bs[bs.len() - 1]);
                        assert(csp[bs.len() - 1] == "---"@);
                        if bs.len() - 1 < csp.len() - 1 {
                            assert(csp[bs.len() - 1] == cs[bs.len() - 1]);
                        }
                    }
                    assert(csp.len() == bs.len());
                    assert(csp =~= bs);
                    assert(text@.take(j + 1) == join_lines(bs));
                }
            }
            return Some(j + 1);
        }
        proof {
            assert(line@ != "---"@);
            assert forall|q: int| 1 <= q < csp.len() implies csp[q] != "---"@ by {
                if q < cs.len() {
                    assert(csp[q] == cs[q]);
                }
            }
        }
        proof {
            cs = csp;
        }
        pos = j + 1;
    }
    proof {
        assert forall|bs: Seq<Seq<char>>, c: Seq<char>|
            (lines_ok(bs) && block_shape(bs) && text@ == join_lines(bs) + c) implies false by {
            let tail = text@.subrange(pos as int, n as int);
            assert(tail =~= Seq::<char>::empty());
            assert(text@ =~= join_lines(cs) + tail);
            lemma_chain_agree(cs, tail, bs, c);
            if cs.len() < bs.len() {
                let rest = bs.skip(cs.len() as int);
                lemma_join_lines_last(rest);
                assert((join_lines(rest) + c).len() > 0);
            } else {
                assert(cs[bs.len() - 1] == bs[bs.len() - 1]);
            }
        }
    }
    None
}

/// A tag just added is present. By `add_tag`'s contract, a second `add_tag`
/// of the same tag on the resulting note therefore fails with `TagExists`
/// and changes nothing: the mutation operations are deliberately not
/// idempotent.
pub proof fn lemma_add_tag_not_idempotent(n0: NoteView, n1: NoteView, t: Seq<char>)
    requires
        !n0.matter.tags.contains(t),
        n1 == with_tags(n0, n0.matter.tags.push(t)),
    ensures
        n1.matter.tags.contains(t),
{
    assert(n1.matter.tags[n0.matter.tags.len() as int] == t);
}

/// Adding a link that was absent and then removing that link restores the
/// note exactly: what `add_link` appends, `remove_link` takes away again,
/// and nothing else moves.
pub proof fn lemma_link_then_unlink(n: NoteView, x: Seq<char>)
    requires
        !n.matter.links.contains(x),
    ensures
        with_links(
            with_links(n, n.matter.links.push(x)),
            without(n.matter.links.push(x), x),
        ) == n,
{
    crate::text::lemma_without_push(n.matter.links, x, x);
    crate::text::lemma_without_absent(n.matter.links, x);
    assert(with_links(
        with_links(n, n.matter.links.push(x)),
        without(n.matter.links.push(x), x),
    ) =~= n);
}

impl Note {
    /// A fresh in-memory note for `path`: its identifier parsed from the
    /// path's filename, default metadata carrying only the name, and an
    /// empty body. Fails exactly when the filename yields an empty name.
    pub fn create(path: &str) -> (r: Result<Note, Error>)
        ensures
            spec_id_of(spec_filename(path@)).name.len() == 0 ==> (r matches Err(
                Error::InvalidNoteId { id: f },
            ) && f@ == spec_filename(path@)),
            spec_id_of(spec_filename(path@)).name.len() > 0 ==> (r matches Ok(n) && n@
                == (NoteView {
                id: spec_id_of(spec_filename(path@)),
                path: path@,
                matter: MatterView {
                    name: spec_id_of(spec_filename(path@)).name,
                    tags: Seq::empty(),
                    links: Seq::empty(),
                },
                content: Seq::empty(),
            })),
    {
        let fname = unwrapped_filename(path);
        let id = NoteId::parse(fname.as_str()).unwrap();
        if id.name.as_str().is_empty() {
            return Err(Error::InvalidNoteId { id: fname });
        }
        let matter = Matter { name: id.name.clone(), tags: Vec::new(), links: Vec::new() };
        let n = Note { id, path: path.to_owned(), matter, content: String::new() };
        proof {
            assert(n@.matter.tags =~= Seq::<Seq<char>>::empty());
            assert(n@.matter.links =~= Seq::<Seq<char>>::empty());
            assert(n@ =~= NoteView {
                id: spec_id_of(spec_filename(path@)),
                path: path@,
                matter: MatterView {
                    name: spec_id_of(spec_filename(path@)).name,
                    tags: Seq::empty(),
                    links: Seq::empty(),
                },
                content: Seq::empty(),
            });
        }
        Ok(n)
    }

    /// Loads a note from the text of the file at `path`: the identifier from
    /// the filename, the metadata from the frontmatter block, and the body
    /// from everything after it. Fails with `InvalidNoteId` when the
    /// filename yields an empty name, and with `Frontmatter` when no
    /// well-formed block opens the text. Reading back any document this
    /// library writes yields exactly the note written.
    pub fn from(path: &str, text: &str) -> (r: Result<Note, Error>)
        ensures
            r matches Ok(n) ==> n@.matter.wf() && n@.path == path@ && n@.id == spec_id_of(
                spec_filename(path@),
            ) && n@.id.name.len() > 0,
            r matches Ok(n) ==> document_of(text@, n@.matter, n@.content),
            spec_id_of(spec_filename(path@)).name.len() == 0 ==> (r matches Err(
                Error::InvalidNoteId { id: f },
            ) && f@ == spec_filename(path@)),
            spec_id_of(spec_filename(path@)).name.len() > 0 && r is Err ==> r matches Err(
                Error::Frontmatter,
            ),
            forall|mv: MatterView, c: Seq<char>|
                (mv.wf() && document_of(text@, mv, c) && spec_id_of(
                    spec_filename(path@),
                ).name.len() > 0) ==> (r matches Ok(n) && n@ == (NoteView {
                    id: spec_id_of(spec_filename(path@)),
                    path: path@,
                    matter: mv,
                    content: c,
                })),
            forall|mv: MatterView, c: Seq<char>|
                (mv.wf() && text@ == spec_serialize(mv) + c && spec_id_of(
                    spec_filename(path@),
                ).name.len() > 0) ==> (r matches Ok(n) && n@ == (NoteView {
                    id: spec_id_of(spec_filename(path@)),
                    path: path@,
                    matter: mv,
                    content: c,
                })),
            forall|nm: Seq<char>, c: Seq<char>|
                (line_free(nm) && text@ == spec_default(nm) + c && spec_id_of(
                    spec_filename(path@),
                ).name.len() > 0) ==> (r matches Ok(n) && n@ == (NoteView {
                    id: spec_id_of(spec_filename(path@)),
                    path: path@,
                    matter: MatterView { name: nm, tags: Seq::empty(), links: Seq::empty() },
                    content: c,
                })),
    {
        let fname = unwrapped_filename(path);
        let id = NoteId::parse(fname.as_str()).unwrap();
        if id.name.as_str().is_empty() {
            return Err(Error::InvalidNoteId { id: fname });
        }
        let end = match find_block_end(text) {
            Some(e) => e,
            None => {
                proof {
                    assert forall|mv: MatterView, c: Seq<char>|
                        mv.wf() && text@ == spec_serialize(mv) + c implies false by {
                        lemma_matter_lines_facts(mv);
                    }
                    assert forall|nm: Seq<char>, c: Seq<char>|
                        line_free(nm) && text@ == spec_default(nm) + c implies false by {
                        lemma_minimal_lines_facts(nm);
                    }
                    assert forall|mv: MatterView, c: Seq<char>|
                        mv.wf() && document_of(text@, mv, c) implies false by {
                        let b = choose|b: Seq<char>| accepts(b, mv) && text@ == b + c;
                        let bls = choose|bls: Seq<Seq<char>>|
                            accepted_lines(bls, mv) && b == join_lines(bls);
                        lemma_accepted_lines_ok(bls, mv);
                    }
                }
                return Err(Error::Frontmatter);
            },
        };
        let block = text.substring_char(0, end);
        let content = suffix_from(text, end);
        proof {
            assert forall|mv: MatterView, c: Seq<char>|
                mv.wf() && text@ == spec_serialize(mv) + c implies (block@ == spec_serialize(mv)
                && content@ == c) by {
                lemma_matter_lines_facts(mv);
                assert(block@ =~= spec_serialize(mv));
                assert(content@ =~= c);
            }
            assert forall|nm: Seq<char>, c: Seq<char>|
                line_free(nm) && text@ == spec_default(nm) + c implies (block@ == spec_default(nm)
                && content@ == c) by {
                lemma_minimal_lines_facts(nm);
                assert(block@ =~= spec_default(nm));
                assert(content@ =~= c);
            }
            assert forall|mv: MatterView, c: Seq<char>|
                mv.wf() && document_of(text@, mv, c) implies (accepts(block@, mv) && content@
                == c) by {
                let b = choose|b: Seq<char>| accepts(b, mv) && text@ == b + c;
                let bls = choose|bls: Seq<Seq<char>>|
                    accepted_lines(bls, mv) && b == join_lines(bls);
                lemma_accepted_lines_ok(bls, mv);
                assert(block@ =~= b);
                assert(content@ =~= c);
            }
        }
        let matter = match Matter::parse(block) {
            Ok(m) => m,
            Err(e) => {
                return Err(e);
            },
        };
        let note = Note { id, path: path.to_owned(), matter, content };
        proof {
            assert(text@ =~= block@ + note@.content);
            assert(document_of(text@, note@.matter, note@.content)) by {
                assert(accepts(block@, note@.matter) && text@ == block@ + note@.content);
            }
            assert forall|mv: MatterView, c: Seq<char>|
                mv.wf() && text@ == spec_serialize(mv) + c implies note@ == (NoteView {
                id: spec_id_of(spec_filename(path@)),
                path: path@,
                matter: mv,
                content: c,
            }) by {
                assert(note@ =~= NoteView {
                    id: spec_id_of(spec_filename(path@)),
                    path: path@,
                    matter: mv,
                    content: c,
                });
            }
            assert forall|nm: Seq<char>, c: Seq<char>|
                line_free(nm) && text@ == spec_default(nm) + c implies note@ == (NoteView {
                id: spec_id_of(spec_filename(path@)),
                path: path@,
                matter: MatterView { name: nm, tags: Seq::empty(), links: Seq::empty() },
                content: c,
            }) by {
                assert(note@ =~= NoteView {
                    id: spec_id_of(spec_filename(path@)),
                    path: path@,
                    matter: MatterView { name: nm, tags: Seq::empty(), links: Seq::empty() },
                    content: c,
                });
            }
            assert forall|mv: MatterView, c: Seq<char>|
                mv.wf() && document_of(text@, mv, c) implies note@ == (NoteView {
                id: spec_id_of(spec_filename(path@)),
                path: path@,
                matter: mv,
                content: c,
            }) by {
                assert(note@ =~= NoteView {
                    id: spec_id_of(spec_filename(path@)),
                    path: path@,
                    matter: mv,
                    content: c,
                });
            }
        }
        Ok(note)
    }

    /// True when this note links to `name`.
    pub fn has_link(&self, name: &str) -> (r: bool)
        ensures
            r == self@.matter.links.contains(name@),
    {
        contains_str(&self.matter.links, name)
    }

    /// True when this note carries the tag `name`.
    pub fn has_tag(&self, name: &str) -> (r: bool)
        ensures
            r == self@.matter.tags.contains(name@),
    {
        contains_str(&self.matter.tags, name)
    }

    /// Appends a link to `name`. Fails with `LinkExists`, leaving the note
    /// unchanged, exactly when the link is already present.
    pub fn add_link(&mut self, name: &str) -> (r: Result<(), Error>)
        ensures
            old(self)@.matter.links.contains(name@) ==> (final(self)@ == old(self)@ && (r
                matches Err(Error::LinkExists { link }) && link@ == name@)),
            !old(self)@.matter.links.contains(name@) ==> (r is Ok && final(self)@ == with_links(
                old(self)@,
                old(self)@.matter.links.push(name@),
            )),
    {
        if self.has_link(name) {
            return Err(Error::LinkExists { link: name.to_owned() });
        }
        let ghost pre = self@.matter.links;
        self.matter.links.push(name.to_owned());
        proof {
            assert(self@.matter.links =~= pre.push(name@));
            assert(self@ =~= with_links(old(self)@, pre.push(name@)));
        }
        Ok(())
    }

    /// Removes every link to `name`. Fails with `LinkMissing`, leaving the
    /// note unchanged, exactly when no such link is present.
    pub fn remove_link(&mut self, name: &str) -> (r: Result<(), Error>)
        ensures
            !old(self)@.matter.links.contains(name@) ==> (final(self)@ == old(self)@ && (r
                matches Err(Error::LinkMissing { link, name: nm }) && link@ == name@ && nm@
                == spec_format(old(self)@.id))),
            old(self)@.matter.links.contains(name@) ==> (r is Ok && final(self)@ == with_links(
                old(self)@,
                without(old(self)@.matter.links, name@),
            )),
    {
        if !self.has_link(name) {
            return Err(Error::LinkMissing { link: name.to_owned(), name: self.id.format() });
        }
        let filtered = remove_matching(&self.matter.links, name);
        self.matter.links = filtered;
        proof {
            assert(self@ =~= with_links(old(self)@, without(old(self)@.matter.links, name@)));
        }
        Ok(())
    }

    /// Appends the tag `name`. Fails with `TagExists`, leaving the note
    /// unchanged, exactly when the tag is already present.
    pub fn add_tag(&mut self, name: &str) -> (r: Result<(), Error>)
        ensures
            old(self)@.matter.tags.contains(name@) ==> (final(self)@ == old(self)@ && (r
                matches Err(Error::TagExists { tag }) && tag@ == name@)),
            !old(self)@.matter.tags.contains(name@) ==> (r is Ok && final(self)@ == with_tags(
                old(self)@,
                old(self)@.matter.tags.push(name@),
            )),
    {
        if self.has_tag(name) {
            return Err(Error::TagExists { tag: name.to_owned() });
        }
        let ghost pre = self@.matter.tags;
        self.matter.tags.push(name.to_owned());
        proof {
            assert(self@.matter.tags =~= pre.push(name@));
            assert(self@ =~= with_tags(old(self)@, pre.push(name@)));
        }
        Ok(())
    }

    /// Removes every occurrence of the tag `name`. Fails with `TagMissing`,
    /// leaving the note unchanged, exactly when the tag is absent.
    pub fn remove_tag(&mut self, name: &str) -> (r: Result<(), Error>)
        ensures
            !old(self)@.matter.tags.contains(name@) ==> (final(self)@ == old(self)@ && (r
                matches Err(Error::TagMissing { tag, name: nm }) && tag@ == name@ && nm@
                == spec_format(old(self)@.id))),
            old(self)@.matter.tags.contains(name@) ==> (r is Ok && final(self)@ == with_tags(
                old(self)@,
                without(old(self)@.matter.tags, name@),
            )),
    {
        if !self.has_tag(name) {
            return Err(Error::TagMissing { tag: name.to_owned(), name: self.id.format() });
        }
        let filtered = remove_matching(&self.matter.tags, name);
        self.matter.tags = filtered;
        proof {
            assert(self@ =~= with_tags(old(self)@, without(old(self)@.matter.tags, name@)));
        }
        Ok(())
    }

    /// The paths of the notes this note links to, one per link in order,
    /// each directly under `root`.
    pub fn link_paths(&self, root: &str) -> (r: Vec<String>)
        ensures
            r@.len() == self@.matter.links.len(),
            forall|i: int|
                0 <= i < r@.len() ==> #[trigger] r.deep_view()[i] == root@ + seq!['/']
                    + self@.matter.links[i],
    {
        let n = self.matter.links.len();
        let mut out: Vec<String> = Vec::new();
        let mut i: usize = 0;
        while i < n
            invariant
                n == self@.matter.links.len(),
                0 <= i <= n,
                out@.len() == i,
                forall|j: int|
                    0 <= j < i ==> #[trigger] out.deep_view()[j] == root@ + seq!['/']
                        + self@.matter.links[j],
            decreases n - i,
        {
            let mut p = root.to_owned();
            p.append("/");
            p.append(self.matter.links[i].as_str());
            let ghost pre = out.deep_view();
            out.push(p);
            proof {
                reveal_strlit("/");
                assert(("/"@) =~= seq!['/']);
                assert(out.deep_view() =~= pre.push(
                    root@ + seq!['/'] + self@.matter.links[i as int],
                ));
            }
            i = i + 1;
        }
        out
    }

    /// The full on-disk form of the note: its serialized frontmatter block
    /// immediately followed by its body content, unchanged.
    pub fn to_text(&self) -> (r: String)
        ensures
            r@ == spec_serialize(self@.matter) + self@.content,
    {
        let mut out = self.matter.serialize();
        out.append(self.content.as_str());
        out
    }
}

} // verus!
