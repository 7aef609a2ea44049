//! Character-sequence utilities shared by the identifier and frontmatter
//! parsers: searching for separators, joining and splitting newline-terminated
//! lines, and the uniqueness lemmas that make those operations invertible.

use vstd::prelude::*;
use vstd::string::StrSliceExecFns;

verus! {

/// True when no character of `s` is a line break; every field stored in a
/// frontmatter block must satisfy this, since the block is line-oriented.
pub open spec fn line_free(s: Seq<char>) -> bool {
    forall|i: int| 0 <= i < s.len() ==> s[i] != '\n'
}

/// Index of the last occurrence of `c` in `s`, or `-1` when `c` is absent.
pub open spec fn last_index_of(s: Seq<char>, c: char) -> int
    decreases s.len(),
{
    if s.len() == 0 {
        -1
    } else if s[s.len() - 1] == c {
        s.len() - 1
    } else {
        last_index_of(s.drop_last(), c)
    }
}

/// `last_index_of` finds an occurrence and nothing follows it.
pub proof fn lemma_last_index_of(s: Seq<char>, c: char)
    ensures
        -1 <= last_index_of(s, c) < s.len(),
        last_index_of(s, c) >= 0 ==> s[last_index_of(s, c)] == c,
        forall|j: int| last_index_of(s, c) < j < s.len() ==> s[j] != c,
    decreases s.len(),
{
    if s.len() == 0 {
    } else if s[s.len() - 1] == c {
    } else {
        lemma_last_index_of(s.drop_last(), c);
        assert forall|j: int| last_index_of(s, c) < j < s.len() implies s[j] != c by {
            if j < s.len() - 1 {
                assert(s.drop_last()[j] == s[j]);
            }
        }
    }
}

/// A separator is the character that joins prefix and name in a filename.
pub open spec fn is_sep(c: char) -> bool {
    c == '-' || c == ' '
}

/// Index of the first separator in `s`, or `s.len()` when none occurs.
pub open spec fn first_sep(s: Seq<char>) -> int
    decreases s.len(),
{
    if s.len() == 0 {
        0
    } else if is_sep(s[0]) {
        0
    } else {
        1 + first_sep(s.drop_first())
    }
}

/// `first_sep` finds a separator and nothing precedes it.
pub proof fn lemma_first_sep(s: Seq<char>)
    ensures
        0 <= first_sep(s) <= s.len(),
        first_sep(s) < s.len() ==> is_sep(s[first_sep(s)]),
        forall|j: int| 0 <= j < first_sep(s) ==> !is_sep(s[j]),
    decreases s.len(),
{
    if s.len() == 0 {
    } else if is_sep(s[0]) {
    } else {
        lemma_first_sep(s.drop_first());
        assert forall|j: int| 0 <= j < first_sep(s) implies !is_sep(s[j]) by {
            if j > 0 {
                assert(s.drop_first()[j - 1] == s[j]);
            }
        }
    }
}

/// The text formed by terminating each line of `ls` with a line break and
/// concatenating the results.
pub open spec fn join_lines(ls: Seq<Seq<char>>) -> Seq<char>
    decreases ls.len(),
{
    if ls.len() == 0 {
        Seq::empty()
    } else {
        ls[0] + seq!['\n'] + join_lines(ls.drop_first())
    }
}

/// True when every element of `ls` is a line without a line break.
pub open spec fn lines_ok(ls: Seq<Seq<char>>) -> bool {
    forall|i: int| 0 <= i < ls.len() ==> line_free(#[trigger] ls[i])
}

/// Appending one line extends the joined text by that line and a break.
pub proof fn lemma_join_lines_push(ls: Seq<Seq<char>>, l: Seq<char>)
    ensures
        join_lines(ls.push(l)) == join_lines(ls) + l + seq!['\n'],
    decreases ls.len(),
{
    let p = ls.push(l);
    if ls.len() == 0 {
        assert(p.drop_first() =~= Seq::<Seq<char>>::empty());
        assert(join_lines(Seq::<Seq<char>>::empty()) == Seq::<char>::empty());
        assert(p[0] == l);
        assert(join_lines(p) == l + seq!['\n'] + Seq::<char>::empty());
        assert(join_lines(ls.push(l)) =~= join_lines(ls) + l + seq!['\n']);
    } else {
        assert(p.drop_first() =~= ls.drop_first().push(l));
        lemma_join_lines_push(ls.drop_first(), l);
        assert(p[0] == ls[0]);
        assert(join_lines(p) == ls[0] + seq!['\n'] + (join_lines(ls.drop_first()) + l + seq![
            '\n',
        ]));
        assert(join_lines(ls.push(l)) =~= join_lines(ls) + l + seq!['\n']);
    }
}

/// Joining a concatenation of line sequences joins each part in turn.
pub proof fn lemma_join_lines_concat(a: Seq<Seq<char>>, b: Seq<Seq<char>>)
    ensures
        join_lines(a + b) == join_lines(a) + join_lines(b),
    decreases a.len(),
{
    if a.len() == 0 {
        assert(a + b =~= b);
        assert(join_lines(a) + join_lines(b) =~= join_lines(b));
    } else {
        assert((a + b).drop_first() =~= a.drop_first() + b);
        lemma_join_lines_concat(a.drop_first(), b);
        assert(join_lines(a + b) =~= join_lines(a) + join_lines(b));
    }
}

/// A non-empty joined text ends with a line break.
pub proof fn lemma_join_lines_last(ls: Seq<Seq<char>>)
    requires
        ls.len() > 0,
    ensures
        join_lines(ls).len() > 0,
        join_lines(ls)[join_lines(ls).len() - 1] == '\n',
    decreases ls.len(),
{
    if ls.len() == 1 {
        assert(join_lines(ls.drop_first()) =~= Seq::<char>::empty());
    } else {
        lemma_join_lines_last(ls.drop_first());
    }
}

/// Joining a single line appends one break to it.
pub proof fn lemma_join_lines_one(l: Seq<char>)
    ensures
        join_lines(seq![l]) == l + seq!['\n'],
{
    assert(seq![l].drop_first() =~= Seq::<Seq<char>>::empty());
    assert(join_lines(Seq::<Seq<char>>::empty()) == Seq::<char>::empty());
    assert(join_lines(seq![l]) =~= l + seq!['\n']);
}

/// Joining two lines terminates each with a break.
pub proof fn lemma_join_lines_two(a: Seq<char>, b: Seq<char>)
    ensures
        join_lines(seq![a, b]) == a + seq!['\n'] + b + seq!['\n'],
{
    lemma_join_lines_one(b);
    assert(seq![a, b].drop_first() =~= seq![b]);
    assert(join_lines(seq![a, b]) =~= a + seq!['\n'] + b + seq!['\n']);
}

/// Joined texts of line-free lines determine the lines.
pub proof fn lemma_join_lines_injective(ls1: Seq<Seq<char>>, ls2: Seq<Seq<char>>)
    requires
        lines_ok(ls1),
        lines_ok(ls2),
        join_lines(ls1) == join_lines(ls2),
    ensures
        ls1 == ls2,
{
    let e = Seq::<char>::empty();
    assert(join_lines(ls1) + e =~= join_lines(ls1));
    assert(join_lines(ls2) + e =~= join_lines(ls2));
    lemma_chain_agree(ls1, e, ls2, e);
    if ls1.len() < ls2.len() {
        lemma_join_lines_last(ls2.skip(ls1.len() as int));
        assert((join_lines(ls2.skip(ls1.len() as int)) + e).len() > 0);
        assert(false);
    }
    if ls2.len() < ls1.len() {
        lemma_join_lines_last(ls1.skip(ls2.len() as int));
        assert((join_lines(ls1.skip(ls2.len() as int)) + e).len() > 0);
        assert(false);
    }
    assert(ls1 =~= ls2);
}

/// Index of the first line break at or after `from`, or `None` when the rest
/// of `s` has none.
pub fn find_newline_from(s: &str, from: usize) -> (r: Option<usize>)
    requires
        from <= s@.len(),
    ensures
        r matches Some(j) ==> from <= j < s@.len() && s@[j as int] == '\n' && (forall|q: int|
            from <= q < j ==> s@[q] != '\n'),
        r is None ==> forall|q: int| from <= q < s@.len() ==> s@[q] != '\n',
{
    let n = s.unicode_len();
    let mut i = from;
    while i < n
        invariant
            from <= i <= n,
            n == s@.len(),
            forall|q: int| from <= q < i ==> s@[q] != '\n',
        decreases n - i,
    {
        if s.get_char(i) == '\n' {
            return Some(i);
        }
        i = i + 1;
    }
    None
}

/// True exactly when some element of `v` equals `s`.
pub fn contains_str(v: &Vec<String>, s: &str) -> (r: bool)
    ensures
        r == v.deep_view().contains(s@),
{
    let n = v.len();
    let mut i: usize = 0;
    while i < n
        invariant
            n == v@.len(),
            0 <= i <= n,
            forall|j: int| 0 <= j < i ==> v.deep_view()[j] != s@,
        decreases n - i,
    {
        if str_eq(v[i].as_str(), s) {
            proof {
                assert(v.deep_view()[i as int] == s@);
            }
            return true;
        }
        i = i + 1;
    }
    proof {
        assert forall|j: int| 0 <= j < v.deep_view().len() implies v.deep_view()[j] != s@ by {}
    }
    false
}

/// The strings of `v` that differ from `s`, in order.
pub open spec fn without(v: Seq<Seq<char>>, s: Seq<char>) -> Seq<Seq<char>> {
    v.filter(|l: Seq<char>| l != s)
}

/// Removing from an extended sequence keeps what was removed before and
/// appends the new element exactly when it differs.
pub proof fn lemma_without_push(v: Seq<Seq<char>>, s: Seq<char>, x: Seq<char>)
    ensures
        x != s ==> without(v.push(x), s) == without(v, s).push(x),
        x == s ==> without(v.push(x), s) == without(v, s),
{
    reveal(Seq::filter);
    assert(v.push(x).drop_last() =~= v);
    assert(v.push(x).last() == x);
}

/// Removing an absent string changes nothing.
pub proof fn lemma_without_absent(v: Seq<Seq<char>>, s: Seq<char>)
    requires
        !v.contains(s),
    ensures
        without(v, s) == v,
    decreases v.len(),
{
    reveal(Seq::filter);
    if v.len() == 0 {
    } else {
        assert forall|i: int| 0 <= i < v.drop_last().len() implies v.drop_last()[i] != s by {
            assert(v.drop_last()[i] == v[i]);
        }
        lemma_without_absent(v.drop_last(), s);
        assert(v.last() != s);
        assert(without(v, s) =~= v);
    }
}

/// What remains after removing `s` never contains `s`.
pub proof fn lemma_without_not_contains(v: Seq<Seq<char>>, s: Seq<char>)
    ensures
        !without(v, s).contains(s),
    decreases v.len(),
{
    reveal(Seq::filter);
    if v.len() == 0 {
    } else {
        lemma_without_not_contains(v.drop_last(), s);
        if without(v, s).contains(s) {
            let i = choose|i: int|
                0 <= i < without(v, s).len() && without(v, s)[i] == s;
            if v.last() != s && i == without(v, s).len() - 1 {
                assert(without(v, s)[i] == v.last());
            } else {
                assert(without(v, s)[i] == without(v.drop_last(), s)[i]);
            }
        }
    }
}

/// The elements of `v` that differ from `s`, in order.
pub fn remove_matching(v: &Vec<String>, s: &str) -> (r: Vec<String>)
    ensures
        r.deep_view() == without(v.deep_view(), s@),
{
    let n = v.len();
    let mut r: Vec<String> = Vec::new();
    proof {
        reveal(Seq::filter);
        assert(v.deep_view().take(0).len() == 0);
        assert(r.deep_view() =~= without(v.deep_view().take(0), s@));
    }
    let mut i: usize = 0;
    while i < n
        invariant
            n == v@.len(),
            0 <= i <= n,
            r.deep_view() == without(v.deep_view().take(i as int), s@),
        decreases n - i,
    {
        let ghost pre = r.deep_view();
        let ghost taken = v.deep_view().take(i as int);
        let keep = !str_eq(v[i].as_str(), s);
        if keep {
            r.push(v[i].clone());
        }
        proof {
            let x = v.deep_view()[i as int];
            assert(v.deep_view().take(i + 1) =~= taken.push(x));
            lemma_without_push(taken, s@, x);
            if keep {
                assert(r.deep_view() =~= pre.push(x));
            }
        }
        i = i + 1;
    }
    proof {
        assert(v.deep_view().take(i as int) =~= v.deep_view());
    }
    r
}

/// An element-wise copy of a vector of strings.
pub fn clone_strings(v: &Vec<String>) -> (r: Vec<String>)
    ensures
        r.deep_view() == v.deep_view(),
{
    let mut r: Vec<String> = Vec::new();
    let mut i: usize = 0;
    while i < v.len()
        invariant
            0 <= i <= v@.len(),
            r.deep_view() == v.deep_view().take(i as int),
        decreases v@.len() - i,
    {
        let ghost pre = r.deep_view();
        r.push(v[i].clone());
        proof {
            assert(r.deep_view() =~= pre.push(v@[i as int]@));
            assert(r.deep_view() =~= v.deep_view().take(i + 1));
        }
        i = i + 1;
    }
    proof {
        assert(v.deep_view().take(i as int) =~= v.deep_view());
    }
    r
}

/// Two equal texts with equal line-free prefixes before a break agree on the
/// prefix and on what follows it.
pub proof fn lemma_line_head(h1: Seq<char>, t1: Seq<char>, h2: Seq<char>, t2: Seq<char>)
    requires
        line_free(h1),
        line_free(h2),
        h1 + seq!['\n'] + t1 == h2 + seq!['\n'] + t2,
    ensures
        h1 == h2,
        t1 == t2,
{
    let s = h1 + seq!['\n'] + t1;
    if h1.len() < h2.len() {
        assert(s[h1.len() as int] == '\n');
        assert(s[h1.len() as int] == h2[h1.len() as int]);
        assert(false);
    }
    if h2.len() < h1.len() {
        assert(s[h2.len() as int] == '\n');
        assert(s[h2.len() as int] == h1[h2.len() as int]);
        assert(false);
    }
    assert(h1 =~= h2) by {
        assert forall|i: int| 0 <= i < h1.len() implies h1[i] == h2[i] by {
            assert(s[i] == h1[i]);
            assert(s[i] == h2[i]);
        }
    }
    assert((h1 + seq!['\n'] + t1).len() == h1.len() + 1 + t1.len());
    assert((h2 + seq!['\n'] + t2).len() == h2.len() + 1 + t2.len());
    assert(t1.len() == t2.len());
    assert(t1 =~= t2) by {
        assert forall|i: int| 0 <= i < t1.len() implies t1[i] == t2[i] by {
            assert((h1 + seq!['\n'] + t1)[h1.len() + 1 + i] == t1[i]);
            assert((h2 + seq!['\n'] + t2)[h2.len() + 1 + i] == t2[i]);
        }
    }
}

/// Two decompositions of one text into joined lines plus a remainder agree
/// line by line as far as both go, and the shorter side's remainder carries
/// the other side's surplus lines.
pub proof fn lemma_chain_agree(ls1: Seq<Seq<char>>, t1: Seq<char>, ls2: Seq<Seq<char>>, t2: Seq<char>)
    requires
        lines_ok(ls1),
        lines_ok(ls2),
        join_lines(ls1) + t1 == join_lines(ls2) + t2,
    ensures
        forall|i: int| 0 <= i < ls1.len() && i < ls2.len() ==> ls1[i] == ls2[i],
        ls1.len() <= ls2.len() ==> t1 == join_lines(ls2.skip(ls1.len() as int)) + t2,
        ls2.len() <= ls1.len() ==> t2 == join_lines(ls1.skip(ls2.len() as int)) + t1,
    decreases ls1.len(),
{
    if ls1.len() == 0 {
        assert(join_lines(ls1) + t1 =~= t1);
        assert(ls2.skip(0) =~= ls2);
    } else if ls2.len() == 0 {
        assert(join_lines(ls2) + t2 =~= t2);
        assert(ls1.skip(0) =~= ls1);
    } else {
        let r1 = join_lines(ls1.drop_first()) + t1;
        let r2 = join_lines(ls2.drop_first()) + t2;
        assert(ls1[0] + seq!['\n'] + r1 =~= join_lines(ls1) + t1);
        assert(ls2[0] + seq!['\n'] + r2 =~= join_lines(ls2) + t2);
        lemma_line_head(ls1[0], r1, ls2[0], r2);
        lemma_chain_agree(ls1.drop_first(), t1, ls2.drop_first(), t2);
        assert forall|i: int| 0 <= i < ls1.len() && i < ls2.len() implies ls1[i] == ls2[i] by {
            if i > 0 {
                assert(ls1.drop_first()[i - 1] == ls1[i]);
                assert(ls2.drop_first()[i - 1] == ls2[i]);
            }
        }
        if ls1.len() <= ls2.len() {
            assert(ls2.drop_first().skip(ls1.len() - 1) =~= ls2.skip(ls1.len() as int));
        }
        if ls2.len() <= ls1.len() {
            assert(ls1.drop_first().skip(ls2.len() - 1) =~= ls1.skip(ls2.len() as int));
        }
    }
}

/// Index of the last occurrence of `c` in `s`, or `None` when `c` is absent.
pub fn rfind(s: &str, c: char) -> (r: Option<usize>)
    ensures
        r matches Some(k) ==> k as int == last_index_of(s@, c),
        r is None ==> last_index_of(s@, c) == -1,
{
    let mut i = s.unicode_len();
    while i > 0
        invariant
            i <= s@.len(),
            forall|j: int| i <= j < s@.len() ==> s@[j] != c,
        decreases i,
    {
        i = i - 1;
        if s.get_char(i) == c {
            proof {
                lemma_last_index_of(s@, c);
            }
            return Some(i);
        }
    }
    proof {
        lemma_last_index_of(s@, c);
    }
    None
}

/// Index of the first separator in `s`, or its length when none occurs.
pub fn find_first_sep(s: &str) -> (k: usize)
    ensures
        k as int == first_sep(s@),
{
    let n = s.unicode_len();
    let mut i: usize = 0;
    while i < n
        invariant
            n == s@.len(),
            0 <= i <= n,
            forall|j: int| 0 <= j < i ==> !is_sep(s@[j]),
        decreases n - i,
    {
        let c = s.get_char(i);
        if c == '-' || c == ' ' {
            proof {
                lemma_first_sep(s@);
            }
            return i;
        }
        i = i + 1;
    }
    proof {
        lemma_first_sep(s@);
    }
    n
}

/// Character-wise equality of two string slices.
pub fn str_eq(a: &str, b: &str) -> (r: bool)
    ensures
        r == (a@ == b@),
{
    let n = a.unicode_len();
    if n != b.unicode_len() {
        return false;
    }
    let mut i: usize = 0;
    while i < n
        invariant
            n == a@.len(),
            n == b@.len(),
            0 <= i <= n,
            forall|j: int| 0 <= j < i ==> a@[j] == b@[j],
        decreases n - i,
    {
        if a.get_char(i) != b.get_char(i) {
            return false;
        }
        i = i + 1;
    }
    proof {
        assert(a@ =~= b@);
    }
    true
}

/// True exactly when `p` is a prefix of `s`.
pub fn has_prefix(s: &str, p: &str) -> (r: bool)
    ensures
        r == (s@.len() >= p@.len() && s@.take(p@.len() as int) == p@),
{
    let n = p.unicode_len();
    if s.unicode_len() < n {
        return false;
    }
    let mut i: usize = 0;
    while i < n
        invariant
            n == p@.len(),
            n <= s@.len(),
            0 <= i <= n,
            forall|j: int| 0 <= j < i ==> s@[j] == p@[j],
        decreases n - i,
    {
        if s.get_char(i) != p.get_char(i) {
            return false;
        }
        i = i + 1;
    }
    proof {
        assert(s@.take(p@.len() as int) =~= p@);
    }
    true
}

/// The characters of `s` from `from` (inclusive) to its end, as an owned string.
pub fn suffix_from(s: &str, from: usize) -> (r: String)
    requires
        from <= s@.len(),
    ensures
        r@ == s@.subrange(from as int, s@.len() as int),
{
    let n = s.unicode_len();
    s.substring_char(from, n).to_owned()
}

/// Splits `s` into its newline-terminated lines. Returns `None` exactly when
/// `s` is not a concatenation of newline-terminated lines, that is, when it is
/// non-empty and does not end with a line break.
pub fn split_lines(s: &str) -> (r: Option<Vec<String>>)
    ensures
        r matches Some(ls) ==> lines_ok(ls.deep_view()) && s@ == join_lines(ls.deep_view()),
        forall|ls2: Seq<Seq<char>>| lines_ok(ls2) && s@ == join_lines(ls2) ==> r is Some,
{
    let len = s.unicode_len();
    let mut lines: Vec<String> = Vec::new();
    let mut start: usize = 0;
    let mut i: usize = 0;
    while i < len
        invariant
            len == s@.len(),
            0 <= start <= i <= len,
            join_lines(lines.deep_view()) == s@.take(start as int),
            lines_ok(lines.deep_view()),
            forall|j: int| start <= j < i ==> s@[j] != '\n',
        decreases len - i,
    {
        let c = s.get_char(i);
        if c == '\n' {
            let line = s.substring_char(start, i).to_owned();
            let ghost pre = lines.deep_view();
            lines.push(line);
            proof {
                assert(lines.deep_view() =~= pre.push(line@));
                lemma_join_lines_push(pre, line@);
                assert(s@.take(i + 1) =~= s@.take(start as int) + line@ + seq!['\n']);
            }
            start = i + 1;
        }
        i = i + 1;
    }
    if start != len {
        proof {
            assert forall|ls2: Seq<Seq<char>>|
                lines_ok(ls2) && s@ == join_lines(ls2) implies false by {
                if ls2.len() == 0 {
                    assert(s@.len() == 0);
                } else {
                    lemma_join_lines_last(ls2);
                    assert(s@[len - 1] == '\n');
                }
            }
        }
        None
    } else {
        proof {
            assert(s@.take(len as int) =~= s@);
        }
        Some(lines)
    }
}

} // verus!
