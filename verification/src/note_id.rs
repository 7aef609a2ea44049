//! Note identity: the `{prefix}-{name}.{extension}` filename convention.
//!
//! The prefix and name are joined by the first separator of the stem, and the
//! extension is the text after the last dot of the filename. Parsing is
//! total: a filename without a separator yields an empty name and the whole
//! stem as the prefix.

use vstd::prelude::*;
use vstd::string::StrSliceExecFns;
use vstd::string::StringExecFns;

use crate::text::{
    find_first_sep, first_sep, is_sep, last_index_of, lemma_first_sep, lemma_last_index_of, rfind,
    suffix_from,
};

verus! {

/// The mathematical value of a note identifier.
#[verifier::ext_equal]
pub ghost struct NoteIdView {
    pub prefix: Seq<char>,
    pub name: Seq<char>,
    pub extension: Seq<char>,
}

/// Identity of a note, derived from its filename and immutable afterwards.
#[derive(Debug, PartialEq)]
pub struct NoteId {
    pub prefix: String,
    pub name: String,
    pub extension: String,
}

impl View for NoteId {
    type V = NoteIdView;

    open spec fn view(&self) -> NoteIdView {
        NoteIdView { prefix: self.prefix@, name: self.name@, extension: self.extension@ }
    }
}

impl Clone for NoteId {
    /// Cloning preserves the identifier's value.
    fn clone(&self) -> (r: Self)
        ensures
            r@ == self@,
    {
        NoteId {
            prefix: self.prefix.clone(),
            name: self.name.clone(),
            extension: self.extension.clone(),
        }
    }
}

/// The stem of a filename: everything before the last dot, or the whole
/// filename when it has none.
pub open spec fn spec_stem(f: Seq<char>) -> Seq<char> {
    let d = last_index_of(f, '.');
    if d >= 0 {
        f.take(d)
    } else {
        f
    }
}

/// The extension of a filename: everything after the last dot, or empty.
pub open spec fn spec_extension(f: Seq<char>) -> Seq<char> {
    let d = last_index_of(f, '.');
    if d >= 0 {
        f.subrange(d + 1, f.len() as int)
    } else {
        Seq::empty()
    }
}

/// The identifier a filename denotes: the stem split at its first separator,
/// and the extension. Without a separator the name is empty.
pub open spec fn spec_id_of(f: Seq<char>) -> NoteIdView {
    let stem = spec_stem(f);
    let k = first_sep(stem);
    NoteIdView {
        prefix: stem.take(k),
        name: if k < stem.len() {
            stem.subrange(k + 1, stem.len() as int)
        } else {
            Seq::empty()
        },
        extension: spec_extension(f),
    }
}

/// The canonical filename of an identifier. An empty extension adds no dot.
pub open spec fn spec_format(id: NoteIdView) -> Seq<char> {
    id.prefix + seq!['-'] + id.name + if id.extension.len() == 0 {
        Seq::<char>::empty()
    } else {
        seq!['.'] + id.extension
    }
}

/// True when every character of `s` is a decimal digit.
pub open spec fn all_digits(s: Seq<char>) -> bool {
    forall|i: int| 0 <= i < s.len() ==> '0' <= #[trigger] s[i] && s[i] <= '9'
}

/// The decimal digit character for `d`.
pub open spec fn digit_char(d: int) -> char {
    if d == 0 {
        '0'
    } else if d == 1 {
        '1'
    } else if d == 2 {
        '2'
    } else if d == 3 {
        '3'
    } else if d == 4 {
        '4'
    } else if d == 5 {
        '5'
    } else if d == 6 {
        '6'
    } else if d == 7 {
        '7'
    } else if d == 8 {
        '8'
    } else {
        '9'
    }
}

/// The decimal digit string of `n`, most significant digit first.
pub open spec fn spec_digits(n: nat) -> Seq<char>
    decreases n,
{
    if n < 10 {
        seq![digit_char(n as int)]
    } else {
        spec_digits(n / 10).push(digit_char((n % 10) as int))
    }
}

proof fn lemma_spec_digits(n: nat)
    ensures
        spec_digits(n).len() >= 1,
        all_digits(spec_digits(n)),
    decreases n,
{
    if n < 10 {
    } else {
        lemma_spec_digits(n / 10);
        assert forall|i: int| 0 <= i < spec_digits(n).len() implies '0' <= #[trigger] spec_digits(
            n,
        )[i] && spec_digits(n)[i] <= '9' by {
            if i < spec_digits(n).len() - 1 {
                assert(spec_digits(n)[i] == spec_digits(n / 10)[i]);
            }
        }
    }
}

/// Relies on chrono's `From<SystemTime>` conversion and
/// `DateTime::timestamp`: the current time by the system clock, as whole
/// seconds since the Unix epoch. Nothing is assumed of the value; the clock
/// may say anything, and a clock before the epoch yields a negative number
/// (the conversion, unlike `Utc::now`, does not panic on such a clock).
#[verifier::external_body]
fn now_epoch_seconds() -> i64 {
    chrono::DateTime::<chrono::Utc>::from(std::time::SystemTime::now()).timestamp()
}

/// Appends the decimal digits of `n` to `out`.
fn push_digits(n: u64, out: &mut String)
    ensures
        final(out)@ == old(out)@ + spec_digits(n as nat),
    decreases n,
{
    if n >= 10 {
        proof {
            assert(n / 10 < n) by (nonlinear_arith)
                requires
                    n >= 10,
            ;
        }
        push_digits(n / 10, out);
    }
    let d = n % 10;
    proof {
        assert(n % 10 < 10) by (nonlinear_arith);
    }
    if d == 0 {
        out.append("0");
    } else if d == 1 {
        out.append("1");
    } else if d == 2 {
        out.append("2");
    } else if d == 3 {
        out.append("3");
    } else if d == 4 {
        out.append("4");
    } else if d == 5 {
        out.append("5");
    } else if d == 6 {
        out.append("6");
    } else if d == 7 {
        out.append("7");
    } else if d == 8 {
        out.append("8");
    } else {
        out.append("9");
    }
    proof {
        reveal_strlit("0");
        reveal_strlit("1");
        reveal_strlit("2");
        reveal_strlit("3");
        reveal_strlit("4");
        reveal_strlit("5");
        reveal_strlit("6");
        reveal_strlit("7");
        reveal_strlit("8");
        reveal_strlit("9");
        assert(out@ =~= old(out)@ + spec_digits(n as nat));
    }
}

impl NoteId {
    /// A fresh identifier for a new note: the current UTC time in epoch
    /// seconds as the prefix, the given name, and the `md` extension.
    pub fn new(name: &str) -> (r: NoteId)
        ensures
            r@.name == name@,
            r@.extension == "md"@,
            all_digits(r@.prefix),
            r@.prefix.len() >= 1,
    {
        let t = now_epoch_seconds();
        let secs: u64 = if t >= 0 {
            t as u64
        } else {
            0
        };
        let mut prefix = String::new();
        push_digits(secs, &mut prefix);
        proof {
            lemma_spec_digits(secs as nat);
        }
        NoteId { prefix, name: name.to_owned(), extension: "md".to_owned() }
    }

    /// Splits a filename into its identifier. Total: every filename parses,
    /// and one without a separator yields an empty name.
    pub fn parse(filename: &str) -> (r: Option<NoteId>)
        ensures
            r matches Some(id) && id@ == spec_id_of(filename@),
    {
        let n = filename.unicode_len();
        proof {
            lemma_last_index_of(filename@, '.');
        }
        let (stem, extension): (&str, String) = match rfind(filename, '.') {
            Some(d) => (filename.substring_char(0, d), suffix_from(filename, d + 1)),
            None => (filename.substring_char(0, n), String::new()),
        };
        proof {
            assert(stem@ =~= spec_stem(filename@));
            assert(extension@ =~= spec_extension(filename@));
        }
        let stem_len = stem.unicode_len();
        let k = find_first_sep(stem);
        proof {
            lemma_first_sep(stem@);
        }
        let prefix = stem.substring_char(0, k).to_owned();
        let name = if k < stem_len {
            suffix_from(stem, k + 1)
        } else {
            String::new()
        };
        proof {
            lemma_first_sep(stem@);
            assert(prefix@ =~= spec_id_of(filename@).prefix);
            assert(name@ =~= spec_id_of(filename@).name);
        }
        Some(NoteId { prefix, name, extension })
    }

    /// The canonical filename of this identifier.
    pub fn format(&self) -> (r: String)
        ensures
            r@ == spec_format(self@),
    {
        let mut out = self.prefix.clone();
        out.append("-");
        out.append(self.name.as_str());
        if !self.extension.as_str().is_empty() {
            out.append(".");
            out.append(self.extension.as_str());
        }
        proof {
            reveal_strlit("-");
            reveal_strlit(".");
            assert(out@ =~= spec_format(self@));
        }
        out
    }
}

/// Formatting an identifier and parsing the resulting filename yields the
/// identifier back, for every identifier whose prefix holds no separator,
/// whose extension holds no dot, and — when the extension is empty — whose
/// prefix and name hold no dot.
pub proof fn lemma_format_then_parse(id: NoteIdView)
    requires
        !id.prefix.contains('-'),
        !id.prefix.contains(' '),
        !id.extension.contains('.'),
        id.extension.len() == 0 ==> !id.prefix.contains('.') && !id.name.contains('.'),
    ensures
        spec_id_of(spec_format(id)) == id,
{
    let f = spec_format(id);
    let p = id.prefix;
    let nm = id.name;
    let e = id.extension;
    lemma_last_index_of(f, '.');
    let dd = last_index_of(f, '.');
    if e.len() == 0 {
        assert(f =~= p + seq!['-'] + nm);
        assert(dd == -1) by {
            if dd >= 0 {
                if dd < p.len() {
                    assert(p[dd] == '.');
                } else if dd == p.len() {
                    assert(f[dd] == '-');
                } else {
                    assert(nm[dd - p.len() - 1] == '.');
                }
            }
        }
        assert(spec_stem(f) == f);
        assert(spec_extension(f) =~= e);
    } else {
        let dot = p.len() + 1 + nm.len();
        assert(f =~= (p + seq!['-'] + nm) + (seq!['.'] + e));
        assert(f[dot as int] == '.');
        assert(dd == dot) by {
            assert forall|j: int| dot < j < f.len() implies f[j] != '.' by {
                assert(f[j] == e[j - dot - 1]);
            }
            if dd < dot {
                assert(f[dot as int] != '.');
            }
            if dd > dot {
                assert(f[dd] == e[dd - dot - 1]);
            }
        }
        assert(spec_stem(f) =~= p + seq!['-'] + nm);
        assert(spec_extension(f) =~= e);
    }
    let stem = spec_stem(f);
    assert(stem =~= p + seq!['-'] + nm);
    lemma_first_sep(stem);
    let k = first_sep(stem);
    assert(stem[p.len() as int] == '-');
    assert(k == p.len()) by {
        if k > p.len() {
            assert(is_sep(stem[p.len() as int]));
        }
        if k < p.len() {
            assert(is_sep(stem[k]));
            assert(stem[k] == p[k]);
        }
    }
    assert(spec_id_of(f).prefix =~= p);
    assert(spec_id_of(f).name =~= nm);
    assert(spec_id_of(f) =~= id);
}

} // verus!
