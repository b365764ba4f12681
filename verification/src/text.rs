//! Verified text helpers: character tests, equality, trimming, and the
//! mathematical form of joining several texts into one.

use vstd::prelude::*;

verus! {

/// The first character of a text, if any.
pub open spec fn spec_first_char(t: Seq<char>) -> Option<char> {
    if t.len() > 0 {
        Some(t[0])
    } else {
        None
    }
}

/// The last character of a text, if any.
pub open spec fn spec_last_char(t: Seq<char>) -> Option<char> {
    if t.len() > 0 {
        Some(t[t.len() - 1])
    } else {
        None
    }
}

/// `t` without its leading spaces.
pub open spec fn spec_trim_front(t: Seq<char>) -> Seq<char>
    decreases t.len(),
{
    if t.len() > 0 && t[0] == ' ' {
        spec_trim_front(t.drop_first())
    } else {
        t
    }
}

/// `t` without its trailing spaces.
pub open spec fn spec_trim_back(t: Seq<char>) -> Seq<char>
    decreases t.len(),
{
    if t.len() > 0 && t[t.len() - 1] == ' ' {
        spec_trim_back(t.drop_last())
    } else {
        t
    }
}

/// `t` without its leading and trailing spaces.
pub open spec fn spec_trim(t: Seq<char>) -> Seq<char> {
    spec_trim_back(spec_trim_front(t))
}

/// The texts joined with a single space between consecutive texts.
pub open spec fn join_space(texts: Seq<Seq<char>>) -> Seq<char>
    decreases texts.len(),
{
    if texts.len() == 0 {
        Seq::empty()
    } else if texts.len() == 1 {
        texts[0]
    } else {
        join_space(texts.drop_last()) + seq![' '] + texts.last()
    }
}

/// The texts concatenated with nothing between them.
pub open spec fn concat_texts(texts: Seq<Seq<char>>) -> Seq<char>
    decreases texts.len(),
{
    if texts.len() == 0 {
        Seq::empty()
    } else {
        concat_texts(texts.drop_last()) + texts.last()
    }
}

/// Joining distributes over splitting a run of texts in two: the join of
/// the whole is the join of each part, with one space between the parts
/// when both are non-empty.
pub proof fn lemma_join_space_concat(a: Seq<Seq<char>>, b: Seq<Seq<char>>)
    ensures
        join_space(a + b) == if a.len() == 0 {
            join_space(b)
        } else if b.len() == 0 {
            join_space(a)
        } else {
            join_space(a) + seq![' '] + join_space(b)
        },
    decreases b.len(),
{
    if b.len() == 0 {
        assert(a + b =~= a);
    } else if a.len() == 0 {
        assert(a + b =~= b);
    } else if b.len() == 1 {
        let ab = a + b;
        assert(ab.len() == a.len() + 1);
        assert(ab.drop_last() =~= a);
        assert(ab.last() == b[0]);
        assert(join_space(b) == b[0]);
    } else {
        let ab = a + b;
        assert(ab.drop_last() =~= a + b.drop_last());
        lemma_join_space_concat(a, b.drop_last());
        assert(ab.last() == b.last());
        assert(join_space(a) + seq![' '] + join_space(b.drop_last()) + seq![' '] + b.last()
            =~= join_space(a) + seq![' '] + (join_space(b.drop_last()) + seq![' '] + b.last()));
    }
}

/// A join whose last text is non-empty is itself non-empty.
pub proof fn lemma_join_space_last_nonempty(a: Seq<Seq<char>>)
    requires
        a.len() > 0,
        a.last().len() > 0,
    ensures
        join_space(a).len() > 0,
{
    if a.len() == 1 {
        assert(join_space(a) == a[0]);
    }
}

/// Whether two texts are the same, character for character.
pub fn str_eq(a: &str, b: &str) -> (r: bool)
    ensures
        r == (a@ == b@),
{
    let na = a.unicode_len();
    let nb = b.unicode_len();
    if na != nb {
        return false;
    }
    let mut i: usize = 0;
    while i < na
        invariant
            na == a@.len() == b@.len(),
            i <= na,
            forall|m: int| 0 <= m < i ==> a@[m] == b@[m],
        decreases na - i,
    {
        if a.get_char(i) != b.get_char(i) {
            return false;
        }
        i += 1;
    }
    proof {
        assert(a@ =~= b@);
    }
    true
}

/// The first character of `s`, if `s` is not empty.
pub fn first_char(s: &str) -> (r: Option<char>)
    ensures
        r == spec_first_char(s@),
{
    if s.unicode_len() == 0 {
        None
    } else {
        Some(s.get_char(0))
    }
}

/// The last character of `s`, if `s` is not empty.
pub fn last_char(s: &str) -> (r: Option<char>)
    ensures
        r == spec_last_char(s@),
{
    let n = s.unicode_len();
    if n == 0 {
        None
    } else {
        Some(s.get_char(n - 1))
    }
}

/// Whether `s` begins with a space, the recognizer's word-start marker.
pub fn starts_with_space(s: &str) -> (r: bool)
    ensures
        r == (s@.len() > 0 && s@[0] == ' '),
{
    match first_char(s) {
        Some(c) => c == ' ',
        None => false,
    }
}

/// Trimming only skips over leading spaces: if the first `j` characters are
/// spaces and the next one (if any) is not, the front-trimmed text is the
/// rest.
proof fn lemma_trim_front_skip(t: Seq<char>, j: int)
    requires
        0 <= j <= t.len(),
        forall|m: int| 0 <= m < j ==> t[m] == ' ',
        j == t.len() || t[j] != ' ',
    ensures
        spec_trim_front(t) == t.subrange(j, t.len() as int),
    decreases j,
{
    if j == 0 {
        assert(t.subrange(0, t.len() as int) =~= t);
    } else {
        let rest = t.drop_first();
        lemma_trim_front_skip(rest, j - 1);
        assert(rest.subrange(j - 1, rest.len() as int) =~= t.subrange(j, t.len() as int));
    }
}

/// Trimming only removes trailing spaces: if the characters from `j` on are
/// spaces and the one before (if any) is not, the back-trimmed text is the
/// prefix.
proof fn lemma_trim_back_skip(t: Seq<char>, j: int)
    requires
        0 <= j <= t.len(),
        forall|m: int| j <= m < t.len() ==> t[m] == ' ',
        j == 0 || t[j - 1] != ' ',
    ensures
        spec_trim_back(t) == t.subrange(0, j),
    decreases t.len() - j,
{
    if j == t.len() {
        assert(t.subrange(0, j) =~= t);
    } else {
        let rest = t.drop_last();
        lemma_trim_back_skip(rest, j);
        assert(rest.subrange(0, j) =~= t.subrange(0, j));
    }
}

/// A copy of `s` with its leading and trailing spaces removed.
pub fn trim_spaces(s: &str) -> (r: String)
    ensures
        r@ == spec_trim(s@),
{
    let n = s.unicode_len();
    let mut i: usize = 0;
    while i < n && s.get_char(i) == ' '
        invariant
            n == s@.len(),
            i <= n,
            forall|m: int| 0 <= m < i ==> s@[m] == ' ',
        decreases n - i,
    {
        i += 1;
    }
    proof {
        lemma_trim_front_skip(s@, i as int);
    }
    let mut k: usize = n;
    while k > i && s.get_char(k - 1) == ' '
        invariant
            n == s@.len(),
            i <= k <= n,
            forall|m: int| 0 <= m < i ==> s@[m] == ' ',
            i == n || s@[i as int] != ' ',
            forall|m: int| k <= m < n ==> s@[m] == ' ',
        decreases k,
    {
        k -= 1;
    }
    proof {
        let front = s@.subrange(i as int, n as int);
        lemma_trim_back_skip(front, k - i);
        assert(front.subrange(0, k - i) =~= s@.subrange(i as int, k as int));
    }
    let piece = s.substring_char(i, k);
    piece.to_owned()
}

} // verus!
