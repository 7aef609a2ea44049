//! The frontmatter model: a note's structured metadata block.
//!
//! A block is line-oriented text bounded by `---` delimiter lines: a
//! `name: ` line, then an optional tags section, then an optional links
//! section. An empty collection serializes as an explicit empty-sequence
//! marker (`tags: []`) rather than being omitted, and parsing rejects
//! anything outside this shape.

use vstd::prelude::*;
use vstd::string::StrSliceExecFns;
use vstd::string::StringExecFns;

use crate::error::Error;
use crate::text::{
    clone_strings, has_prefix, join_lines, lemma_join_lines_concat, lemma_join_lines_injective,
    lemma_join_lines_one, lemma_join_lines_push, lemma_join_lines_two, line_free, lines_ok,
    split_lines, str_eq, suffix_from,
};

verus! {

/// The mathematical value of a frontmatter block.
#[verifier::ext_equal]
pub ghost struct MatterView {
    pub name: Seq<char>,
    pub tags: Seq<Seq<char>>,
    pub links: Seq<Seq<char>>,
}

impl MatterView {
    /// Well-formed metadata: no field holds a line break, so each occupies
    /// exactly one line of the block.
    pub open spec fn wf(self) -> bool {
        &&& line_free(self.name)
        &&& forall|i: int| 0 <= i < self.tags.len() ==> line_free(#[trigger] self.tags[i])
        &&& forall|i: int| 0 <= i < self.links.len() ==> line_free(#[trigger] self.links[i])
    }
}

/// A note's metadata: its name, its tags, and the identifiers of the notes
/// it links to. Order is kept and duplicates are never introduced by the
/// mutation operations.
#[derive(Debug, PartialEq)]
pub struct Matter {
    pub name: String,
    pub tags: Vec<String>,
    pub links: Vec<String>,
}

impl View for Matter {
    type V = MatterView;

    open spec fn view(&self) -> MatterView {
        MatterView { name: self.name@, tags: self.tags.deep_view(), links: self.links.deep_view() }
    }
}

impl Clone for Matter {
    /// Cloning preserves the metadata value.
    fn clone(&self) -> (r: Self)
        ensures
            r@ == self@,
    {
        let r = Matter {
            name: self.name.clone(),
            tags: clone_strings(&self.tags),
            links: clone_strings(&self.links),
        };
        proof {
            assert(r@ =~= self@);
        }
        r
    }
}

/// The line an item of a tags or links section occupies.
pub open spec fn item_line(t: Seq<char>) -> Seq<char> {
    "  - "@ + t
}

/// The lines of a sequence of items, one per item.
pub open spec fn items_lines(ts: Seq<Seq<char>>) -> Seq<Seq<char>> {
    ts.map_values(|t: Seq<char>| item_line(t))
}

/// The lines of the tags section: an explicit empty marker, or a header
/// followed by one line per tag.
pub open spec fn tags_lines(ts: Seq<Seq<char>>) -> Seq<Seq<char>> {
    if ts.len() == 0 {
        seq!["tags: []"@]
    } else {
        seq!["tags:"@] + items_lines(ts)
    }
}

/// The lines of the links section, shaped like the tags section.
pub open spec fn links_lines(ks: Seq<Seq<char>>) -> Seq<Seq<char>> {
    if ks.len() == 0 {
        seq!["links: []"@]
    } else {
        seq!["links:"@] + items_lines(ks)
    }
}

/// All lines of the serialized block, delimiters included.
pub open spec fn matter_lines(m: MatterView) -> Seq<Seq<char>> {
    seq!["---"@, "name: "@ + m.name] + tags_lines(m.tags) + links_lines(m.links) + seq!["---"@]
}

/// The serialized block: its lines, each terminated by a line break.
pub open spec fn spec_serialize(m: MatterView) -> Seq<char> {
    join_lines(matter_lines(m))
}

/// The lines of the minimal block a fresh note starts with: delimiters and
/// the name line only.
pub open spec fn minimal_lines(name: Seq<char>) -> Seq<Seq<char>> {
    seq!["---"@, "name: "@ + name, "---"@]
}

/// The minimal block as text.
pub open spec fn spec_default(name: Seq<char>) -> Seq<char> {
    join_lines(minimal_lines(name))
}

/// The forms one section may take in an accepted block: absent or the
/// explicit empty marker (both only for an empty collection), or a header
/// line followed by one line per item.
pub open spec fn section_lines(
    ls: Seq<Seq<char>>,
    items: Seq<Seq<char>>,
    empty_marker: Seq<char>,
    header: Seq<char>,
) -> bool {
    ||| (items.len() == 0 && (ls == Seq::<Seq<char>>::empty() || ls == seq![empty_marker]))
    ||| ls == seq![header] + items_lines(items)
}

/// True when `ls` is a sequence of block lines the parser accepts for the
/// value `m`: delimiters, the name line, then each section in one of its
/// accepted forms.
pub open spec fn accepted_lines(ls: Seq<Seq<char>>, m: MatterView) -> bool {
    exists|tl: Seq<Seq<char>>, kl: Seq<Seq<char>>|
        #![trigger section_lines(tl, m.tags, "tags: []"@, "tags:"@), section_lines(kl, m.links, "links: []"@, "links:"@)]
        section_lines(tl, m.tags, "tags: []"@, "tags:"@) && section_lines(
            kl,
            m.links,
            "links: []"@,
            "links:"@,
        ) && ls == seq!["---"@, "name: "@ + m.name] + tl + kl + seq!["---"@]
}

/// True when the text `s` is a block the parser accepts for the value `m`.
pub open spec fn accepts(s: Seq<char>, m: MatterView) -> bool {
    exists|ls: Seq<Seq<char>>| #[trigger] accepted_lines(ls, m) && s == join_lines(ls)
}

/// Every line of a block accepted for a well-formed value is free of line
/// breaks, so the block's text splits back into exactly those lines; and the
/// lines observe the delimiter discipline, so the block's end is where the
/// document scan finds it.
pub(crate) proof fn lemma_accepted_lines_ok(ls: Seq<Seq<char>>, m: MatterView)
    requires
        m.wf(),
        accepted_lines(ls, m),
    ensures
        lines_ok(ls),
        block_shape(ls),
{
    reveal_strlit("---");
    reveal_strlit("name: ");
    reveal_strlit("tags: []");
    reveal_strlit("tags:");
    reveal_strlit("links: []");
    reveal_strlit("links:");
    reveal_strlit("  - ");
    let (tl, kl) = choose|tl: Seq<Seq<char>>, kl: Seq<Seq<char>>|
        section_lines(tl, m.tags, "tags: []"@, "tags:"@) && section_lines(
            kl,
            m.links,
            "links: []"@,
            "links:"@,
        ) && ls == seq!["---"@, "name: "@ + m.name] + tl + kl + seq!["---"@];
    let head = seq!["---"@, "name: "@ + m.name];
    let tail = seq!["---"@];
    assert(ls == ((head + tl) + kl) + tail);
    assert forall|j: int| 0 <= j < tl.len() implies line_free(tl[j]) by {
        if tl == seq!["tags:"@] + items_lines(m.tags) {
            if j >= 1 {
                assert(tl[j] == item_line(m.tags[j - 1]));
            }
        }
    }
    assert forall|j: int| 0 <= j < kl.len() implies line_free(kl[j]) by {
        if kl == seq!["links:"@] + items_lines(m.links) {
            if j >= 1 {
                assert(kl[j] == item_line(m.links[j - 1]));
            }
        }
    }
    assert forall|j: int| 0 <= j < tl.len() implies tl[j].len() != 3 by {
        if tl == seq!["tags:"@] + items_lines(m.tags) {
            if j >= 1 {
                assert(tl[j] == item_line(m.tags[j - 1]));
                assert(tl[j].len() >= 4);
            }
        }
    }
    assert forall|j: int| 0 <= j < kl.len() implies kl[j].len() != 3 by {
        if kl == seq!["links:"@] + items_lines(m.links) {
            if j >= 1 {
                assert(kl[j] == item_line(m.links[j - 1]));
                assert(kl[j].len() >= 4);
            }
        }
    }
    assert forall|j: int| 0 <= j < ls.len() implies line_free(#[trigger] ls[j]) && (1 <= j
        < ls.len() - 1 ==> ls[j] != "---"@) by {
        assert(("---"@).len() == 3);
        if j == 0 || j == ls.len() - 1 {
            assert(line_free("---"@));
        } else if j == 1 {
            assert(ls[1] == "name: "@ + m.name);
            assert(ls[1].len() == 6 + m.name.len());
        } else if j < 2 + tl.len() {
            assert(((head + tl) + kl)[j] == (head + tl)[j]);
            assert(ls[j] == tl[j - 2]);
        } else {
            assert(((head + tl) + kl)[j] == kl[j - 2 - tl.len()]);
            assert(ls[j] == kl[j - 2 - tl.len()]);
        }
    }
    assert(ls[0] == "---"@);
    assert(ls[ls.len() - 1] == tail[0]);
}

/// Every well-formed value's serialized block is accepted for that value:
/// together with the parser's contract, serializing and then parsing any
/// well-formed metadata yields it back exactly.
pub proof fn lemma_serialize_accepts(m: MatterView)
    requires
        m.wf(),
    ensures
        accepts(spec_serialize(m), m),
{
    let tl = tags_lines(m.tags);
    let kl = links_lines(m.links);
    assert(section_lines(tl, m.tags, "tags: []"@, "tags:"@));
    assert(section_lines(kl, m.links, "links: []"@, "links:"@));
    assert(matter_lines(m) == seq!["---"@, "name: "@ + m.name] + tl + kl + seq!["---"@]);
    assert(accepted_lines(matter_lines(m), m)) by {
        assert(section_lines(tl, m.tags, "tags: []"@, "tags:"@) && section_lines(
            kl,
            m.links,
            "links: []"@,
            "links:"@,
        ) && matter_lines(m) == seq!["---"@, "name: "@ + m.name] + tl + kl + seq!["---"@]);
    }
    assert(accepts(spec_serialize(m), m)) by {
        assert(accepted_lines(matter_lines(m), m) && spec_serialize(m) == join_lines(
            matter_lines(m),
        ));
    }
}

/// True when `t` is a whole note document carrying metadata `m` and body
/// `c`: an accepted block for `m` immediately followed by `c`.
pub open spec fn document_of(t: Seq<char>, m: MatterView, c: Seq<char>) -> bool {
    exists|b: Seq<char>| #[trigger] accepts(b, m) && t == b + c
}

/// The delimiter discipline of a block's lines: a delimiter line first and
/// last, and nowhere in between.
pub open spec fn block_shape(ls: Seq<Seq<char>>) -> bool {
    &&& ls.len() >= 2
    &&& ls[0] == "---"@
    &&& ls[ls.len() - 1] == "---"@
    &&& forall|j: int| 1 <= j < ls.len() - 1 ==> #[trigger] ls[j] != "---"@
}

/// True when `l` is the line of a section item.
pub open spec fn is_item(l: Seq<char>) -> bool {
    l.len() >= 4 && l.take(4) == "  - "@
}

/// The item a section line carries.
pub open spec fn item_of(l: Seq<char>) -> Seq<char> {
    l.subrange(4, l.len() as int)
}

/// Structural facts about the lines of a serialized block: every line is
/// line-free, the delimiters stand first and last and nowhere else, and each
/// region's lines are what the sections dictate.
pub(crate) proof fn lemma_matter_lines_facts(mv: MatterView)
    requires
        mv.wf(),
    ensures
        lines_ok(matter_lines(mv)),
        block_shape(matter_lines(mv)),
        matter_lines(mv).len() == 3 + tags_lines(mv.tags).len() + links_lines(mv.links).len(),
        tags_lines(mv.tags).len() == (if mv.tags.len() == 0 {
            1nat
        } else {
            1 + mv.tags.len()
        }),
        links_lines(mv.links).len() == (if mv.links.len() == 0 {
            1nat
        } else {
            1 + mv.links.len()
        }),
        matter_lines(mv)[0] == "---"@,
        matter_lines(mv)[1] == "name: "@ + mv.name,
        matter_lines(mv)[matter_lines(mv).len() - 1] == "---"@,
        forall|j: int|
            1 <= j < matter_lines(mv).len() - 1 ==> #[trigger] matter_lines(mv)[j] != "---"@,
        mv.tags.len() == 0 ==> matter_lines(mv)[2] == "tags: []"@,
        mv.tags.len() > 0 ==> matter_lines(mv)[2] == "tags:"@,
        mv.tags.len() > 0 ==> forall|j: int|
            0 <= j < mv.tags.len() ==> matter_lines(mv)[3 + j] == item_line(#[trigger] mv.tags[j]),
        mv.links.len() == 0 ==> matter_lines(mv)[2 + tags_lines(mv.tags).len() as int] == "links: []"@,
        mv.links.len() > 0 ==> matter_lines(mv)[2 + tags_lines(mv.tags).len() as int] == "links:"@,
        mv.links.len() > 0 ==> forall|j: int|
            0 <= j < mv.links.len() ==> matter_lines(mv)[3 + tags_lines(mv.tags).len() as int + j]
                == item_line(#[trigger] mv.links[j]),
{
    reveal_strlit("---");
    reveal_strlit("name: ");
    reveal_strlit("tags: []");
    reveal_strlit("tags:");
    reveal_strlit("links: []");
    reveal_strlit("links:");
    reveal_strlit("  - ");
    let t = tags_lines(mv.tags);
    let k = links_lines(mv.links);
    let l = matter_lines(mv);
    let head = seq!["---"@, "name: "@ + mv.name];
    let tail = seq!["---"@];
    assert(l == ((head + t) + k) + tail);
    assert(l.len() == 2 + t.len() + k.len() + 1);
    assert(l[0] == "---"@);
    assert(l[1] == "name: "@ + mv.name);
    assert(l[l.len() - 1] == tail[0]);
    assert forall|j: int| 0 <= j < t.len() implies l[2 + j] == t[j] by {
        assert((head + t)[2 + j] == t[j]);
        assert(((head + t) + k)[2 + j] == (head + t)[2 + j]);
    }
    assert forall|j: int| 0 <= j < k.len() implies l[2 + t.len() + j] == k[j] by {
        assert(((head + t) + k)[2 + t.len() + j] == k[j]);
    }
    if mv.tags.len() > 0 {
        assert(t[0] == "tags:"@);
        assert forall|j: int| 0 <= j < mv.tags.len() implies l[3 + j] == item_line(
            #[trigger] mv.tags[j],
        ) by {
            assert(t[1 + j] == items_lines(mv.tags)[j]);
            assert(l[2 + (1 + j)] == t[1 + j]);
        }
    }
    if mv.links.len() > 0 {
        assert(k[0] == "links:"@);
        assert forall|j: int| 0 <= j < mv.links.len() implies l[3 + t.len() + j] == item_line(
            #[trigger] mv.links[j],
        ) by {
            assert(k[1 + j] == items_lines(mv.links)[j]);
            assert(l[2 + t.len() + (1 + j)] == k[1 + j]);
        }
    }
    // every line of either section is a marker, a header, or an item line
    assert forall|j: int| 0 <= j < t.len() implies line_free(t[j]) && t[j].len() != 3 by {
        if mv.tags.len() > 0 && j >= 1 {
            assert(t[j] == item_line(mv.tags[j - 1]));
            assert(t[j].len() >= 4);
        }
    }
    assert forall|j: int| 0 <= j < k.len() implies line_free(k[j]) && k[j].len() != 3 by {
        if mv.links.len() > 0 && j >= 1 {
            assert(k[j] == item_line(mv.links[j - 1]));
            assert(k[j].len() >= 4);
        }
    }
    assert forall|j: int| 0 <= j < l.len() implies line_free(#[trigger] l[j]) by {
        if j == 0 || j == l.len() - 1 {
            assert(line_free("---"@));
        } else if j == 1 {
        } else if j < 2 + t.len() {
            assert(l[j] == t[j - 2]);
        } else {
            assert(l[j] == k[j - 2 - t.len()]);
        }
    }
    assert forall|j: int| 1 <= j < l.len() - 1 implies #[trigger] l[j] != "---"@ by {
        assert("---"@.len() == 3);
        if j == 1 {
            assert(l[j].len() == 6 + mv.name.len());
        } else if j < 2 + t.len() {
            assert(l[j] == t[j - 2]);
        } else {
            assert(l[j] == k[j - 2 - t.len()]);
        }
    }
}

/// The minimal block's lines are line-free, delimited, and nothing inside
/// them is a delimiter line.
pub(crate) proof fn lemma_minimal_lines_facts(name: Seq<char>)
    requires
        line_free(name),
    ensures
        lines_ok(minimal_lines(name)),
        block_shape(minimal_lines(name)),
        minimal_lines(name).len() == 3,
        minimal_lines(name)[0] == "---"@,
        minimal_lines(name)[1] == "name: "@ + name,
        minimal_lines(name)[2] == "---"@,
        minimal_lines(name)[1] != "---"@,
{
    reveal_strlit("---");
    reveal_strlit("name: ");
    let l = minimal_lines(name);
    assert(l[1].len() == 6 + name.len());
    assert forall|j: int| 0 <= j < l.len() implies line_free(#[trigger] l[j]) by {
        if j == 0 || j == 2 {
            assert(line_free("---"@));
        }
    }
}

/// Appends one `  - ` line per item to `out`.
fn append_items(out: &mut String, items: &Vec<String>)
    ensures
        final(out)@ == old(out)@ + join_lines(items_lines(items.deep_view())),
{
    let n = items.len();
    let mut i: usize = 0;
    while i < n
        invariant
            n == items@.len(),
            0 <= i <= n,
            out@ == old(out)@ + join_lines(items_lines(items.deep_view().take(i as int))),
        decreases n - i,
    {
        let ghost pre = items_lines(items.deep_view().take(i as int));
        out.append("  - ");
        out.append(items[i].as_str());
        out.append("\n");
        proof {
            reveal_strlit("  - ");
            reveal_strlit("\n");
            let t = items.deep_view()[i as int];
            assert(items_lines(items.deep_view().take(i + 1)) =~= pre.push(item_line(t)));
            lemma_join_lines_push(pre, item_line(t));
            assert(out@ =~= old(out)@ + join_lines(items_lines(items.deep_view().take(i + 1))));
        }
        i = i + 1;
    }
    proof {
        assert(items.deep_view().take(i as int) =~= items.deep_view());
    }
}

/// Reads one section: nothing when the line at `start` is neither the
/// section's empty marker nor its header; no items for the empty marker; and
/// the run of item lines after the header otherwise. Returns the items and
/// the index of the first line not consumed.
fn parse_section(lines: &Vec<String>, start: usize, empty_marker: &str, header: &str) -> (res: (
    Vec<String>,
    usize,
))
    requires
        start <= lines@.len(),
        empty_marker@ != header@,
    ensures
        start <= res.1 <= lines@.len(),
        lines_ok(lines.deep_view()) ==> lines_ok(res.0.deep_view()),
        (start < lines@.len() && lines.deep_view()[start as int] == empty_marker@) ==> (
        res.0.deep_view() == Seq::<Seq<char>>::empty() && res.1 == start + 1),
        (start < lines@.len() && lines.deep_view()[start as int] == header@) ==> (res.1 > start
            && res.0@.len() == res.1 - (start + 1) && (forall|j: int|
            start + 1 <= j < res.1 ==> is_item(#[trigger] lines.deep_view()[j]) && item_of(
                lines.deep_view()[j],
            ) == res.0.deep_view()[j - start - 1]) && (res.1 == lines@.len() || !is_item(
            lines.deep_view()[res.1 as int],
        ))),
        (start >= lines@.len() || (lines.deep_view()[start as int] != empty_marker@
            && lines.deep_view()[start as int] != header@)) ==> (res.0.deep_view()
            == Seq::<Seq<char>>::empty() && res.1 == start),
{
    let n = lines.len();
    let mut items: Vec<String> = Vec::new();
    proof {
        assert(items.deep_view() =~= Seq::<Seq<char>>::empty());
    }
    if start >= n {
        return (items, start);
    }
    if str_eq(lines[start].as_str(), empty_marker) {
        return (items, start + 1);
    }
    if !str_eq(lines[start].as_str(), header) {
        return (items, start);
    }
    proof {
        reveal_strlit("  - ");
    }
    let mut i: usize = start + 1;
    while i < n && has_prefix(lines[i].as_str(), "  - ")
        invariant
            n == lines@.len(),
            start + 1 <= i <= n,
            items@.len() == i - (start + 1),
            forall|j: int|
                start + 1 <= j < i ==> is_item(#[trigger] lines.deep_view()[j]) && item_of(
                    lines.deep_view()[j],
                ) == items.deep_view()[j - start - 1],
            lines_ok(lines.deep_view()) ==> lines_ok(items.deep_view()),
            "  - "@.len() == 4,
        decreases n - i,
    {
        let it = suffix_from(lines[i].as_str(), 4);
        let ghost pre = items.deep_view();
        items.push(it);
        proof {
            assert(items.deep_view() =~= pre.push(it@));
            if lines_ok(lines.deep_view()) {
                let l = lines.deep_view()[i as int];
                assert forall|q: int| 0 <= q < it@.len() implies it@[q] != '\n' by {
                    assert(it@[q] == l[4 + q]);
                }
            }
        }
        i = i + 1;
    }
    (items, i)
}

/// Reads a whole block from its lines: the opening delimiter, the name line,
/// the two sections, and the closing delimiter, which must be the last line.
#[verifier::rlimit(100)]
#[verifier::spinoff_prover]
fn parse_lines(lines: &Vec<String>) -> (r: Result<Matter, Error>)
    requires
        lines_ok(lines.deep_view()),
    ensures
        r matches Ok(m) ==> m@.wf(),
        r matches Ok(m) ==> accepted_lines(lines.deep_view(), m@),
        r is Err ==> r matches Err(Error::Frontmatter),
        forall|mv: MatterView|
            mv.wf() && accepted_lines(lines.deep_view(), mv) ==> (r matches Ok(m) && m@ == mv),
        forall|mv: MatterView|
            mv.wf() && lines.deep_view() == matter_lines(mv) ==> (r matches Ok(m) && m@ == mv),
        forall|nm: Seq<char>|
            line_free(nm) && lines.deep_view() == minimal_lines(nm) ==> (r matches Ok(m) && m@
                == (MatterView { name: nm, tags: Seq::empty(), links: Seq::empty() })),
{
    let ghost ld = lines.deep_view();
    proof {
        reveal_strlit("---");
        reveal_strlit("name: ");
        reveal_strlit("tags: []");
        reveal_strlit("tags:");
        reveal_strlit("links: []");
        reveal_strlit("links:");
        reveal_strlit("  - ");
    }
    let n = lines.len();
    if n < 3 {
        proof {
            assert forall|mv: MatterView| mv.wf() && ld == matter_lines(mv) implies false by {
                lemma_matter_lines_facts(mv);
            }
            assert forall|mv: MatterView| mv.wf() && accepted_lines(ld, mv) implies false by {
                let (tl, kl) = choose|tl: Seq<Seq<char>>, kl: Seq<Seq<char>>|
                    section_lines(tl, mv.tags, "tags: []"@, "tags:"@) && section_lines(
                        kl,
                        mv.links,
                        "links: []"@,
                        "links:"@,
                    ) && ld == seq!["---"@, "name: "@ + mv.name] + tl + kl + seq!["---"@];
                assert(ld.len() == 2 + tl.len() + kl.len() + 1);
            }
        }
        return Err(Error::Frontmatter);
    }
    if !str_eq(lines[0].as_str(), "---") {
        proof {
            assert forall|mv: MatterView| mv.wf() && ld == matter_lines(mv) implies false by {
                lemma_matter_lines_facts(mv);
            }
            assert forall|nm: Seq<char>| line_free(nm) && ld == minimal_lines(nm) implies false by {
                lemma_minimal_lines_facts(nm);
            }
            assert forall|mv: MatterView| mv.wf() && accepted_lines(ld, mv) implies false by {
                let (tl, kl) = choose|tl: Seq<Seq<char>>, kl: Seq<Seq<char>>|
                    section_lines(tl, mv.tags, "tags: []"@, "tags:"@) && section_lines(
                        kl,
                        mv.links,
                        "links: []"@,
                        "links:"@,
                    ) && ld == seq!["---"@, "name: "@ + mv.name] + tl + kl + seq!["---"@];
                assert(ld[0] == "---"@);
            }
        }
        return Err(Error::Frontmatter);
    }
    if !has_prefix(lines[1].as_str(), "name: ") {
        proof {
            assert forall|mv: MatterView| mv.wf() && ld == matter_lines(mv) implies false by {
                lemma_matter_lines_facts(mv);
                assert(ld[1].take(6) =~= "name: "@);
            }
            assert forall|nm: Seq<char>| line_free(nm) && ld == minimal_lines(nm) implies false by {
                lemma_minimal_lines_facts(nm);
                assert(ld[1].take(6) =~= "name: "@);
            }
            assert forall|mv: MatterView| mv.wf() && accepted_lines(ld, mv) implies false by {
                let (tl, kl) = choose|tl: Seq<Seq<char>>, kl: Seq<Seq<char>>|
                    section_lines(tl, mv.tags, "tags: []"@, "tags:"@) && section_lines(
                        kl,
                        mv.links,
                        "links: []"@,
                        "links:"@,
                    ) && ld == seq!["---"@, "name: "@ + mv.name] + tl + kl + seq!["---"@];
                assert(ld[1] == "name: "@ + mv.name);
                assert(ld[1].take(6) =~= "name: "@);
            }
        }
        return Err(Error::Frontmatter);
    }
    let name = suffix_from(lines[1].as_str(), 6);
    proof {
        assert(("tags: []"@).len() == 8);
        assert(("tags:"@).len() == 5);
        assert(("links: []"@).len() == 9);
        assert(("links:"@).len() == 6);
        assert(!is_item("links: []"@)) by {
            assert((("links: []"@).take(4))[0] == 'l');
            assert(("  - "@)[0] == ' ');
        }
        assert(!is_item("links:"@)) by {
            assert((("links:"@).take(4))[0] == 'l');
            assert(("  - "@)[0] == ' ');
        }
        assert(!is_item("---"@)) by {
            assert(("---"@).len() == 3);
        }
    }
    let (tags, i1) = parse_section(lines, 2, "tags: []", "tags:");
    let (links, i2) = parse_section(lines, i1, "links: []", "links:");
    proof {
        assert forall|mv: MatterView| mv.wf() && ld == matter_lines(mv) implies (i1 as int == 2
            + tags_lines(mv.tags).len() && i2 as int == 2 + tags_lines(mv.tags).len()
            + links_lines(mv.links).len() && tags.deep_view() == mv.tags && links.deep_view()
            == mv.links && name@ == mv.name) by {
            lemma_matter_lines_facts(mv);
            let tl = tags_lines(mv.tags).len() as int;
            let kl = links_lines(mv.links).len() as int;
            assert(name@ =~= mv.name);
            // the tags section is forced
            if mv.tags.len() == 0 {
                assert(ld[2] == "tags: []"@);
                assert(tags.deep_view() =~= mv.tags);
            } else {
                assert(ld[2] == "tags:"@);
                assert(ld[2] != "tags: []"@);
                assert forall|j: int| 3 <= j < 2 + tl implies is_item(#[trigger] ld[j]) by {
                    assert(ld[j] == item_line(mv.tags[j - 3]));
                    assert(ld[j].take(4) =~= "  - "@);
                }
                assert(!is_item(ld[2 + tl]));
                assert(2 + tl < ld.len());
                if (i1 as int) < 2 + tl {
                    assert(is_item(ld[i1 as int]));
                    assert(false);
                }
                if (i1 as int) > 2 + tl {
                    assert(is_item(ld[2 + tl]));
                    assert(false);
                }
                assert forall|j: int| 0 <= j < mv.tags.len() implies tags.deep_view()[j]
                    == mv.tags[j] by {
                    assert(ld[3 + j] == item_line(mv.tags[j]));
                    assert(item_of(ld[3 + j]) =~= mv.tags[j]);
                }
                assert(tags.deep_view() =~= mv.tags);
            }
            assert(i1 as int == 2 + tl);
            // the links section is forced
            if mv.links.len() == 0 {
                assert(ld[i1 as int] == "links: []"@);
                assert(links.deep_view() =~= mv.links);
            } else {
                assert(ld[i1 as int] == "links:"@);
                assert(ld[i1 as int] != "links: []"@);
                assert forall|j: int| i1 + 1 <= j < 2 + tl + kl implies is_item(
                    #[trigger] ld[j],
                ) by {
                    assert(ld[j] == item_line(mv.links[j - 3 - tl]));
                    assert(ld[j].take(4) =~= "  - "@);
                }
                assert(ld.len() == 3 + tl + kl);
                assert(ld[ld.len() - 1] == "---"@);
                assert(!is_item(ld[2 + tl + kl]));
                if (i2 as int) < 2 + tl + kl {
                    assert(is_item(ld[i2 as int]));
                    assert(false);
                }
                if (i2 as int) > 2 + tl + kl {
                    assert(is_item(ld[2 + tl + kl]));
                    assert(false);
                }
                assert forall|j: int| 0 <= j < mv.links.len() implies links.deep_view()[j]
                    == mv.links[j] by {
                    assert(ld[3 + tl + j] == item_line(mv.links[j]));
                    assert(item_of(ld[3 + tl + j]) =~= mv.links[j]);
                }
                assert(links.deep_view() =~= mv.links);
            }
            assert(i2 as int == 2 + tl + kl);
        }
        assert forall|nm: Seq<char>| line_free(nm) && ld == minimal_lines(nm) implies (i1 == 2 && i2
            == 2 && tags.deep_view() == Seq::<Seq<char>>::empty() && links.deep_view()
            == Seq::<Seq<char>>::empty() && name@ == nm) by {
            lemma_minimal_lines_facts(nm);
            assert(name@ =~= nm);
            assert(ld[2] == "---"@);
            assert(ld[2] != "tags: []"@);
            assert(ld[2] != "tags:"@);
            assert(ld[2] != "links: []"@);
            assert(ld[2] != "links:"@);
        }
        assert forall|mv: MatterView| mv.wf() && accepted_lines(ld, mv) implies (name@ == mv.name
            && tags.deep_view() == mv.tags && links.deep_view() == mv.links && i2 as int == n - 1
            && ld[n - 1] == "---"@) by {
            let (tl, kl) = choose|tl: Seq<Seq<char>>, kl: Seq<Seq<char>>|
                section_lines(tl, mv.tags, "tags: []"@, "tags:"@) && section_lines(
                    kl,
                    mv.links,
                    "links: []"@,
                    "links:"@,
                ) && ld == seq!["---"@, "name: "@ + mv.name] + tl + kl + seq!["---"@];
            let head = seq!["---"@, "name: "@ + mv.name];
            let tail = seq!["---"@];
            let tlen = tl.len() as int;
            let klen = kl.len() as int;
            assert(ld == ((head + tl) + kl) + tail);
            assert(ld.len() == 2 + tlen + klen + 1);
            assert(ld[1] == "name: "@ + mv.name);
            assert(name@ =~= mv.name);
            assert forall|j: int| 0 <= j < tlen implies ld[2 + j] == tl[j] by {
                assert((head + tl)[2 + j] == tl[j]);
                assert(((head + tl) + kl)[2 + j] == (head + tl)[2 + j]);
            }
            assert forall|j: int| 0 <= j < klen implies ld[2 + tlen + j] == kl[j] by {
                assert(((head + tl) + kl)[2 + tlen + j] == kl[j]);
            }
            assert(ld[ld.len() - 1] == tail[0]);
            // the first line after the tags region is never an item line
            assert(2 + tlen < ld.len() ==> !is_item(ld[2 + tlen])) by {
                if 2 + tlen < ld.len() {
                    if klen == 0 {
                        assert(ld[2 + tlen] == "---"@);
                        assert(("---"@).len() == 3);
                    } else if kl == seq!["links: []"@] {
                        assert(ld[2 + tlen] == kl[0]);
                    } else {
                        assert(kl == seq!["links:"@] + items_lines(mv.links));
                        assert(kl[0] == "links:"@);
                        assert(ld[2 + tlen] == kl[0]);
                    }
                }
            }
            // the tags section is forced to its form
            if tl == Seq::<Seq<char>>::empty() {
                assert(mv.tags.len() == 0);
                assert(2 < ld.len());
                assert(ld[2] != "tags: []"@ && ld[2] != "tags:"@) by {
                    if klen == 0 {
                        assert(ld[2] == "---"@);
                        assert(("---"@).len() == 3);
                    } else if kl == seq!["links: []"@] {
                        assert(ld[2] == kl[0]);
                    } else {
                        assert(kl == seq!["links:"@] + items_lines(mv.links));
                        assert(kl[0] == "links:"@);
                        assert(ld[2] == kl[0]);
                    }
                }
                assert(i1 as int == 2 + tlen);
                assert(tags.deep_view() =~= mv.tags);
            } else if tl == seq!["tags: []"@] {
                assert(mv.tags.len() == 0) by {
                    if tl == seq!["tags:"@] + items_lines(mv.tags) {
                        assert(tl[0] == "tags:"@);
                    }
                }
                assert(ld[2] == tl[0]);
                assert(i1 as int == 2 + tlen);
                assert(tags.deep_view() =~= mv.tags);
            } else {
                assert(tl == seq!["tags:"@] + items_lines(mv.tags));
                assert(tlen == 1 + mv.tags.len());
                assert(ld[2] == tl[0]);
                assert(ld[2] != "tags: []"@);
                assert forall|j: int| 3 <= j < 2 + tlen implies is_item(#[trigger] ld[j]) by {
                    assert(ld[j] == tl[j - 2]);
                    assert(tl[j - 2] == items_lines(mv.tags)[j - 3]);
                    assert(ld[j] == item_line(mv.tags[j - 3]));
                    assert(ld[j].take(4) =~= "  - "@);
                }
                assert(2 + tlen < ld.len());
                if (i1 as int) < 2 + tlen {
                    assert(is_item(ld[i1 as int]));
                    assert(false);
                }
                if (i1 as int) > 2 + tlen {
                    assert(is_item(ld[2 + tlen]));
                    assert(false);
                }
                assert forall|j: int| 0 <= j < mv.tags.len() implies tags.deep_view()[j]
                    == mv.tags[j] by {
                    assert(ld[3 + j] == item_line(mv.tags[j]));
                    assert(item_of(ld[3 + j]) =~= mv.tags[j]);
                }
                assert(tags.deep_view() =~= mv.tags);
            }
            assert(i1 as int == 2 + tlen);
            // the links section is forced to its form
            if kl == Seq::<Seq<char>>::empty() {
                assert(mv.links.len() == 0);
                assert(i1 as int == ld.len() - 1);
                assert(ld[i1 as int] == "---"@);
                assert(("---"@).len() == 3);
                assert(ld[i1 as int] != "links: []"@ && ld[i1 as int] != "links:"@);
                assert(i2 as int == 2 + tlen + klen);
                assert(links.deep_view() =~= mv.links);
            } else if kl == seq!["links: []"@] {
                assert(mv.links.len() == 0) by {
                    if kl == seq!["links:"@] + items_lines(mv.links) {
                        assert(kl[0] == "links:"@);
                    }
                }
                assert(ld[i1 as int] == kl[0]);
                assert(i2 as int == 2 + tlen + klen);
                assert(links.deep_view() =~= mv.links);
            } else {
                assert(kl == seq!["links:"@] + items_lines(mv.links));
                assert(klen == 1 + mv.links.len());
                assert(ld[i1 as int] == kl[0]);
                assert(ld[i1 as int] != "links: []"@);
                assert forall|j: int| i1 + 1 <= j < 2 + tlen + klen implies is_item(
                    #[trigger] ld[j],
                ) by {
                    assert(ld[j] == kl[j - 2 - tlen]);
                    assert(kl[j - 2 - tlen] == items_lines(mv.links)[j - 3 - tlen]);
                    assert(ld[j] == item_line(mv.links[j - 3 - tlen]));
                    assert(ld[j].take(4) =~= "  - "@);
                }
                assert(2 + tlen + klen == ld.len() - 1);
                assert(ld[2 + tlen + klen] == "---"@);
                assert(("---"@).len() == 3);
                assert(!is_item(ld[2 + tlen + klen]));
                if (i2 as int) < 2 + tlen + klen {
                    assert(is_item(ld[i2 as int]));
                    assert(false);
                }
                if (i2 as int) > 2 + tlen + klen {
                    assert(is_item(ld[2 + tlen + klen]));
                    assert(false);
                }
                assert forall|j: int| 0 <= j < mv.links.len() implies links.deep_view()[j]
                    == mv.links[j] by {
                    assert(ld[3 + tlen + j] == item_line(mv.links[j]));
                    assert(item_of(ld[3 + tlen + j]) =~= mv.links[j]);
                }
                assert(links.deep_view() =~= mv.links);
            }
            assert(i2 as int == 2 + tlen + klen);
            assert(ld[n - 1] == "---"@);
        }
    }
    if i2 != n - 1 {
        proof {
            assert forall|mv: MatterView| mv.wf() && ld == matter_lines(mv) implies false by {
                lemma_matter_lines_facts(mv);
            }
            assert forall|mv: MatterView| mv.wf() && accepted_lines(ld, mv) implies false by {}
        }
        return Err(Error::Frontmatter);
    }
    if !str_eq(lines[i2].as_str(), "---") {
        proof {
            assert forall|mv: MatterView| mv.wf() && ld == matter_lines(mv) implies false by {
                lemma_matter_lines_facts(mv);
            }
            assert forall|nm: Seq<char>| line_free(nm) && ld == minimal_lines(nm) implies false by {
                lemma_minimal_lines_facts(nm);
            }
            assert forall|mv: MatterView| mv.wf() && accepted_lines(ld, mv) implies false by {}
        }
        return Err(Error::Frontmatter);
    }
    let m = Matter { name, tags, links };
    proof {
        // the extracted fields are line-free
        assert forall|q: int| 0 <= q < m@.name.len() implies m@.name[q] != '\n' by {
            assert(m@.name[q] == ld[1][6 + q]);
        }
        // soundness: the lines are an accepted shape for the value returned
        let tl = ld.subrange(2, i1 as int);
        let kl = ld.subrange(i1 as int, i2 as int);
        assert(section_lines(tl, m@.tags, "tags: []"@, "tags:"@)) by {
            if 2 < n && ld[2] == "tags: []"@ {
                assert(tl =~= seq!["tags: []"@]);
                assert(m@.tags =~= Seq::<Seq<char>>::empty());
            } else if 2 < n && ld[2] == "tags:"@ {
                assert forall|j: int|
                    0 <= j < tags.deep_view().len() implies items_lines(tags.deep_view())[j] == ld[3
                    + j] by {
                    assert(is_item(ld[3 + j]));
                    assert(item_of(ld[3 + j]) == tags.deep_view()[j]);
                    assert(item_line(item_of(ld[3 + j])) =~= ld[3 + j]);
                }
                assert(tl =~= seq!["tags:"@] + items_lines(tags.deep_view()));
            } else {
                assert(tl =~= Seq::<Seq<char>>::empty());
                assert(m@.tags =~= Seq::<Seq<char>>::empty());
            }
        }
        assert(section_lines(kl, m@.links, "links: []"@, "links:"@)) by {
            if (i1 as int) < n && ld[i1 as int] == "links: []"@ {
                assert(kl =~= seq!["links: []"@]);
                assert(m@.links =~= Seq::<Seq<char>>::empty());
            } else if (i1 as int) < n && ld[i1 as int] == "links:"@ {
                assert forall|j: int|
                    0 <= j < links.deep_view().len() implies items_lines(links.deep_view())[j]
                    == ld[i1 + 1 + j] by {
                    assert(is_item(ld[i1 + 1 + j]));
                    assert(item_of(ld[i1 + 1 + j]) == links.deep_view()[j]);
                    assert(item_line(item_of(ld[i1 + 1 + j])) =~= ld[i1 + 1 + j]);
                }
                assert(kl =~= seq!["links:"@] + items_lines(links.deep_view()));
            } else {
                assert(kl =~= Seq::<Seq<char>>::empty());
                assert(m@.links =~= Seq::<Seq<char>>::empty());
            }
        }
        assert(ld[1] =~= "name: "@ + m@.name);
        assert(ld =~= seq!["---"@, "name: "@ + m@.name] + tl + kl + seq!["---"@]);
        assert(accepted_lines(ld, m@)) by {
            assert(section_lines(tl, m@.tags, "tags: []"@, "tags:"@) && section_lines(
                kl,
                m@.links,
                "links: []"@,
                "links:"@,
            ) && ld == seq!["---"@, "name: "@ + m@.name] + tl + kl + seq!["---"@]);
        }
        assert forall|mv: MatterView| mv.wf() && ld == matter_lines(mv) implies m@ == mv by {
            assert(m@ =~= mv);
        }
        assert forall|nm: Seq<char>| line_free(nm) && ld == minimal_lines(nm) implies m@
            == (MatterView { name: nm, tags: Seq::empty(), links: Seq::empty() }) by {
            assert(m@ =~= MatterView { name: nm, tags: Seq::empty(), links: Seq::empty() });
        }
        assert forall|mv: MatterView| mv.wf() && accepted_lines(ld, mv) implies m@ == mv by {
            assert(m@ =~= mv);
        }
    }
    Ok(m)
}

impl Matter {
    /// Metadata with the given fields.
    pub fn new(name: &str, tags: Vec<String>, links: Vec<String>) -> (m: Matter)
        ensures
            m@ == (MatterView {
                name: name@,
                tags: tags.deep_view(),
                links: links.deep_view(),
            }),
    {
        let m = Matter { name: name.to_owned(), tags, links };
        proof {
            assert(m@ =~= MatterView { name: name@, tags: m.tags.deep_view(), links: m.links.deep_view() });
        }
        m
    }

    /// The minimal frontmatter block a fresh note starts with: delimiters
    /// and the `name: ` line, no tags or links sections.
    pub fn default(name: &str) -> (r: String)
        ensures
            r@ == spec_default(name@),
    {
        let mut out = String::new();
        out.append("---\nname: ");
        out.append(name);
        out.append("\n---\n");
        proof {
            reveal_strlit("---\nname: ");
            reveal_strlit("\n---\n");
            reveal_strlit("---");
            reveal_strlit("name: ");
            lemma_join_lines_one("---"@);
            assert(seq!["---"@, "name: "@ + name@, "---"@].drop_first() =~= seq![
                "name: "@ + name@,
                "---"@,
            ]);
            lemma_join_lines_two("name: "@ + name@, "---"@);
            assert(out@ =~= spec_default(name@));
        }
        out
    }

    /// Parses a frontmatter block, delimiters included. Returns the
    /// metadata it carries, or `Frontmatter` when the text is not a
    /// well-formed block. Reading back anything `serialize` wrote, or the
    /// minimal block of a fresh note, yields exactly the value written.
    pub fn parse(s: &str) -> (r: Result<Matter, Error>)
        ensures
            r matches Ok(m) ==> m@.wf() && accepts(s@, m@),
            r is Err ==> r matches Err(Error::Frontmatter),
            forall|mv: MatterView|
                mv.wf() && accepts(s@, mv) ==> (r matches Ok(m) && m@ == mv),
            forall|mv: MatterView|
                mv.wf() && s@ == spec_serialize(mv) ==> (r matches Ok(m) && m@ == mv),
            forall|nm: Seq<char>|
                line_free(nm) && s@ == spec_default(nm) ==> (r matches Ok(m) && m@ == (MatterView {
                    name: nm,
                    tags: Seq::empty(),
                    links: Seq::empty(),
                })),
    {
        match split_lines(s) {
            Some(lines) => {
                proof {
                    assert forall|mv: MatterView|
                        mv.wf() && s@ == spec_serialize(mv) implies lines.deep_view()
                        == matter_lines(mv) by {
                        lemma_matter_lines_facts(mv);
                        lemma_join_lines_injective(lines.deep_view(), matter_lines(mv));
                    }
                    assert forall|nm: Seq<char>|
                        line_free(nm) && s@ == spec_default(nm) implies lines.deep_view()
                        == minimal_lines(nm) by {
                        lemma_minimal_lines_facts(nm);
                        lemma_join_lines_injective(lines.deep_view(), minimal_lines(nm));
                    }
                    assert forall|mv: MatterView|
                        mv.wf() && accepts(s@, mv) implies accepted_lines(
                        lines.deep_view(),
                        mv,
                    ) by {
                        let bls = choose|bls: Seq<Seq<char>>|
                            accepted_lines(bls, mv) && s@ == join_lines(bls);
                        lemma_accepted_lines_ok(bls, mv);
                        lemma_join_lines_injective(lines.deep_view(), bls);
                    }
                }
                let r = parse_lines(&lines);
                proof {
                    if r is Ok {
                        assert(accepted_lines(lines.deep_view(), r->Ok_0@) && s@ == join_lines(
                            lines.deep_view(),
                        ));
                    }
                }
                r
            },
            None => {
                proof {
                    assert forall|mv: MatterView|
                        mv.wf() && s@ == spec_serialize(mv) implies false by {
                        lemma_matter_lines_facts(mv);
                    }
                    assert forall|nm: Seq<char>|
                        line_free(nm) && s@ == spec_default(nm) implies false by {
                        lemma_minimal_lines_facts(nm);
                    }
                    assert forall|mv: MatterView| mv.wf() && accepts(s@, mv) implies false by {
                        let bls = choose|bls: Seq<Seq<char>>|
                            accepted_lines(bls, mv) && s@ == join_lines(bls);
                        lemma_accepted_lines_ok(bls, mv);
                    }
                }
                Err(Error::Frontmatter)
            },
        }
    }

    /// Serializes the metadata as its frontmatter block. Empty tags or links
    /// are written as the explicit empty-sequence marker, never omitted, so
    /// that every well-formed value can be read back.
    pub fn serialize(&self) -> (r: String)
        ensures
            r@ == spec_serialize(self@),
    {
        let mut out = String::new();
        out.append("---\nname: ");
        out.append(self.name.as_str());
        out.append("\n");
        let ghost head = seq!["---"@, "name: "@ + self@.name];
        proof {
            reveal_strlit("---\nname: ");
            reveal_strlit("\n");
            reveal_strlit("---");
            reveal_strlit("name: ");
            lemma_join_lines_two("---"@, "name: "@ + self@.name);
            assert(out@ =~= join_lines(head));
        }
        if self.tags.len() == 0 {
            out.append("tags: []\n");
            proof {
                reveal_strlit("tags: []\n");
                reveal_strlit("tags: []");
                lemma_join_lines_one("tags: []"@);
                assert(out@ =~= join_lines(head) + join_lines(tags_lines(self@.tags)));
            }
        } else {
            out.append("tags:\n");
            append_items(&mut out, &self.tags);
            proof {
                reveal_strlit("tags:\n");
                reveal_strlit("tags:");
                lemma_join_lines_one("tags:"@);
                lemma_join_lines_concat(seq!["tags:"@], items_lines(self@.tags));
                assert(out@ =~= join_lines(head) + join_lines(tags_lines(self@.tags)));
            }
        }
        let ghost mid = join_lines(head) + join_lines(tags_lines(self@.tags));
        if self.links.len() == 0 {
            out.append("links: []\n");
            proof {
                reveal_strlit("links: []\n");
                reveal_strlit("links: []");
                lemma_join_lines_one("links: []"@);
                assert(out@ =~= mid + join_lines(links_lines(self@.links)));
            }
        } else {
            out.append("links:\n");
            append_items(&mut out, &self.links);
            proof {
                reveal_strlit("links:\n");
                reveal_strlit("links:");
                lemma_join_lines_one("links:"@);
                lemma_join_lines_concat(seq!["links:"@], items_lines(self@.links));
                assert(out@ =~= mid + join_lines(links_lines(self@.links)));
            }
        }
        out.append("---\n");
        proof {
            reveal_strlit("---\n");
            reveal_strlit("---");
            lemma_join_lines_one("---"@);
            lemma_join_lines_concat(
                seq!["---"@, "name: "@ + self@.name] + tags_lines(self@.tags) + links_lines(
                    self@.links,
                ),
                seq!["---"@],
            );
            lemma_join_lines_concat(
                seq!["---"@, "name: "@ + self@.name] + tags_lines(self@.tags),
                links_lines(self@.links),
            );
            lemma_join_lines_concat(seq!["---"@, "name: "@ + self@.name], tags_lines(self@.tags));
            assert(out@ =~= spec_serialize(self@));
        }
        out
    }
}

} // verus!
