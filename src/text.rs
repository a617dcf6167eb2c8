//! Character classes and the scanning primitives that the record parser is
//! built from.

use vstd::prelude::*;

verus! {

/// The Unicode `White_Space` property.
pub open spec fn is_white_space(c: char) -> bool {
    let n = c as u32;
    (0x9 <= n <= 0xd) || n == 0x20 || n == 0x85 || n == 0xa0 || n == 0x1680 || (0x2000 <= n
        <= 0x200a) || n == 0x2028 || n == 0x2029 || n == 0x202f || n == 0x205f || n == 0x3000
}

/// Whether a character has the Unicode `Alphabetic` property.
pub uninterp spec fn alphabetic(c: char) -> bool;

/// An ASCII decimal digit, `0` to `9`.
pub open spec fn is_ascii_digit(c: char) -> bool {
    48 <= c as u32 <= 57
}

/// Relies on nom_unicode::is_whitespace, which is `char::is_whitespace`: the
/// Unicode `White_Space` property.
#[verifier::external_body]
fn is_space(c: char) -> (r: bool)
    ensures
        r == is_white_space(c),
{
    nom_unicode::is_whitespace(c)
}

/// Relies on nom_unicode::is_alphabetic, which is `char::is_alphabetic`; the
/// answer depends on the character alone, and among ASCII characters only the
/// letters have the `Alphabetic` property.
#[verifier::external_body]
fn is_letter(c: char) -> (r: bool)
    ensures
        r == alphabetic(c),
        (c as u32) < 128 ==> (r <==> (65 <= c as u32 <= 90 || 97 <= c as u32 <= 122)),
{
    nom_unicode::is_alphabetic(c)
}

/// A class of characters that a scan runs over.
pub enum Class {
    /// Every character but the given one.
    Not(char),
    Space,
    Alphabetic,
    NotAlphabetic,
    Digit,
    NotDigit,
}

impl Class {
    pub open spec fn holds(self, c: char) -> bool {
        match self {
            Class::Not(x) => c != x,
            Class::Space => is_white_space(c),
            Class::Alphabetic => alphabetic(c),
            Class::NotAlphabetic => !alphabetic(c),
            Class::Digit => is_ascii_digit(c),
            Class::NotDigit => !is_ascii_digit(c),
        }
    }

    pub fn test(&self, c: char) -> (r: bool)
        ensures
            r == self.holds(c),
    {
        match self {
            Class::Not(x) => c != *x,
            Class::Space => is_space(c),
            Class::Alphabetic => is_letter(c),
            Class::NotAlphabetic => !is_letter(c),
            Class::Digit => 48 <= c as u32 && c as u32 <= 57,
            Class::NotDigit => !(48 <= c as u32 && c as u32 <= 57),
        }
    }
}

/// Length of the longest prefix of `s` whose characters are all in `k`.
pub open spec fn span(s: Seq<char>, k: Class) -> nat
    decreases s.len(),
{
    if s.len() > 0 && k.holds(s[0]) {
        1 + span(s.drop_first(), k)
    } else {
        0
    }
}

/// Length of the longest suffix of `s` whose characters are all in `k`.
pub open spec fn span_back(s: Seq<char>, k: Class) -> nat
    decreases s.len(),
{
    if s.len() > 0 && k.holds(s.last()) {
        1 + span_back(s.drop_last(), k)
    } else {
        0
    }
}

/// `s` without the white space at its start and at its end.
pub open spec fn trim(s: Seq<char>) -> Seq<char> {
    let u = s.skip(span(s, Class::Space) as int);
    u.take(u.len() - span_back(u, Class::Space))
}

pub proof fn lemma_span_bounds(s: Seq<char>, k: Class)
    ensures
        span(s, k) <= s.len(),
        span_back(s, k) <= s.len(),
        forall|i: int| 0 <= i < span(s, k) ==> k.holds(#[trigger] s[i]),
        span(s, k) < s.len() ==> !k.holds(s[span(s, k) as int]),
    decreases s.len(),
{
    if s.len() > 0 {
        lemma_span_bounds(s.drop_first(), k);
        lemma_span_bounds(s.drop_last(), k);
        assert forall|i: int| 0 <= i < span(s, k) implies k.holds(#[trigger] s[i]) by {
            if i > 0 {
                assert(s[i] == s.drop_first()[i - 1]);
            }
        }
    }
}

proof fn lemma_span_step(s: Seq<char>, lo: int, hi: int, k: Class)
    requires
        0 <= lo < hi <= s.len(),
        k.holds(s[lo]),
    ensures
        span(s.subrange(lo, hi), k) == 1 + span(s.subrange(lo + 1, hi), k),
{
    assert(s.subrange(lo, hi).drop_first() =~= s.subrange(lo + 1, hi));
}

proof fn lemma_span_back_step(s: Seq<char>, lo: int, hi: int, k: Class)
    requires
        0 <= lo < hi <= s.len(),
        k.holds(s[hi - 1]),
    ensures
        span_back(s.subrange(lo, hi), k) == 1 + span_back(s.subrange(lo, hi - 1), k),
{
    assert(s.subrange(lo, hi).drop_last() =~= s.subrange(lo, hi - 1));
}

/// The end of the run of characters in `k` that starts at `lo` and stops at
/// `hi` at the latest.
pub fn scan(s: &str, lo: usize, hi: usize, k: &Class) -> (r: usize)
    requires
        lo <= hi <= s@.len(),
    ensures
        r == lo + span(s@.subrange(lo as int, hi as int), *k),
        lo <= r <= hi,
{
    let mut i = lo;
    while i < hi && k.test(s.get_char(i))
        invariant
            lo <= i <= hi <= s@.len(),
            lo + span(s@.subrange(lo as int, hi as int), *k) == i + span(
                s@.subrange(i as int, hi as int),
                *k,
            ),
        decreases hi - i,
    {
        proof {
            lemma_span_step(s@, i as int, hi as int, *k);
        }
        i = i + 1;
    }
    proof {
        lemma_span_bounds(s@.subrange(i as int, hi as int), *k);
    }
    i
}

/// The start of the run of characters in `k` that ends at `hi` and starts at
/// `lo` at the earliest.
pub fn scan_back(s: &str, lo: usize, hi: usize, k: &Class) -> (r: usize)
    requires
        lo <= hi <= s@.len(),
    ensures
        r + span_back(s@.subrange(lo as int, hi as int), *k) == hi,
        lo <= r <= hi,
{
    let mut j = hi;
    while j > lo && k.test(s.get_char(j - 1))
        invariant
            lo <= j <= hi <= s@.len(),
            span_back(s@.subrange(lo as int, hi as int), *k) == (hi - j) + span_back(
                s@.subrange(lo as int, j as int),
                *k,
            ),
        decreases j - lo,
    {
        proof {
            lemma_span_back_step(s@, lo as int, j as int, *k);
        }
        j = j - 1;
    }
    proof {
        lemma_span_bounds(s@.subrange(lo as int, j as int), *k);
    }
    j
}

/// The bounds of `trim` of the characters from `lo` to `hi`.
pub fn trim_range(s: &str, lo: usize, hi: usize) -> (r: (usize, usize))
    requires
        lo <= hi <= s@.len(),
    ensures
        lo <= r.0 <= r.1 <= hi,
        s@.subrange(r.0 as int, r.1 as int) == trim(s@.subrange(lo as int, hi as int)),
{
    let a = scan(s, lo, hi, &Class::Space);
    let b = scan_back(s, a, hi, &Class::Space);
    proof {
        let t = s@.subrange(lo as int, hi as int);
        lemma_span_bounds(t, Class::Space);
        assert(t.skip(span(t, Class::Space) as int) =~= s@.subrange(a as int, hi as int));
        assert(s@.subrange(b as int, b as int).len() == 0);
        assert(s@.subrange(a as int, b as int) =~= s@.subrange(a as int, hi as int).take(
            (hi - a) - span_back(s@.subrange(a as int, hi as int), Class::Space),
        ));
    }
    (a, b)
}

/// The characters of `s` from `lo` to `hi`, as a new string.
pub fn slice(s: &str, lo: usize, hi: usize) -> (r: String)
    requires
        lo <= hi <= s@.len(),
    ensures
        r@ == s@.subrange(lo as int, hi as int),
{
    String::from_str(s.substring_char(lo, hi))
}

/// `s` trimmed of white space at both ends.
pub fn trimmed(s: &str) -> (r: String)
    ensures
        r@ == trim(s@),
{
    let n = s.unicode_len();
    let (a, b) = trim_range(s, 0, n);
    proof {
        assert(s@.subrange(0, n as int) =~= s@);
    }
    slice(s, a, b)
}

/// A run that stops inside `x` stops at the same place in `x + y`; one that
/// covers `x` goes on into `y`.
pub proof fn lemma_span_concat(x: Seq<char>, y: Seq<char>, k: Class)
    ensures
        span(x, k) < x.len() ==> span(x + y, k) == span(x, k),
        span(x, k) == x.len() ==> span(x + y, k) == x.len() + span(y, k),
    decreases x.len(),
{
    if x.len() > 0 {
        assert((x + y).drop_first() =~= x.drop_first() + y);
        lemma_span_concat(x.drop_first(), y, k);
    } else {
        assert(x + y =~= y);
    }
}

/// A run from the back that stops inside `y` stops at the same place in
/// `x + y`.
pub proof fn lemma_span_back_concat(x: Seq<char>, y: Seq<char>, k: Class)
    ensures
        span_back(y, k) < y.len() ==> span_back(x + y, k) == span_back(y, k),
    decreases y.len(),
{
    if y.len() > 0 {
        assert((x + y).drop_last() =~= x + y.drop_last());
        lemma_span_back_concat(x, y.drop_last(), k);
    }
}

/// Every character of `s` is in `k`.
pub open spec fn all_in(s: Seq<char>, k: Class) -> bool {
    forall|i: int| 0 <= i < s.len() ==> k.holds(#[trigger] s[i])
}

/// A run over `s` covers it exactly when all its characters are in the class.
pub proof fn lemma_span_all(s: Seq<char>, k: Class)
    ensures
        all_in(s, k) <==> span(s, k) == s.len(),
    decreases s.len(),
{
    lemma_span_bounds(s, k);
    if s.len() > 0 {
        lemma_span_all(s.drop_first(), k);
        if all_in(s, k) {
            assert forall|i: int| 0 <= i < s.drop_first().len() implies k.holds(
                #[trigger] s.drop_first()[i],
            ) by {
                assert(s.drop_first()[i] == s[i + 1]);
            }
        }
    }
}

/// Text that neither starts nor ends with white space is its own trim.
pub proof fn lemma_trim_plain(s: Seq<char>)
    requires
        s.len() > 0,
        !is_white_space(s[0]),
        !is_white_space(s.last()),
    ensures
        trim(s) == s,
{
    assert(s.skip(0) =~= s);
    assert(s.take(s.len() as int) =~= s);
}

/// One space before such text goes with the trim.
pub proof fn lemma_trim_space(s: Seq<char>)
    requires
        s.len() > 0,
        !is_white_space(s[0]),
        !is_white_space(s.last()),
    ensures
        trim(seq![' '] + s) == s,
{
    let x = seq![' '] + s;
    assert(x[0] == ' ');
    assert(is_white_space(x[0]));
    assert(x.drop_first() =~= s);
    assert(span(s, Class::Space) == 0);
    assert(span(x, Class::Space) == 1);
    assert(x.skip(1) =~= s);
    assert(span_back(s, Class::Space) == 0);
    assert(s.take(s.len() as int) =~= s);
}

/// The parts one after another, with `sep` between each two.
pub open spec fn join(parts: Seq<Seq<char>>, sep: Seq<char>) -> Seq<char>
    decreases parts.len(),
{
    if parts.len() == 0 {
        Seq::empty()
    } else if parts.len() == 1 {
        parts[0]
    } else {
        join(parts.drop_last(), sep) + sep + parts.last()
    }
}

/// Appends `sep` and then `part` to a string that holds the join of the
/// parts before `part`.
pub(crate) fn join_step(
    acc: &mut String,
    sep: &str,
    part: &str,
    first: bool,
    Ghost(parts): Ghost<Seq<Seq<char>>>,
)
    requires
        parts.len() > 0,
        first == (parts.len() == 1),
        parts.last() == part@,
        old(acc)@ == join(parts.drop_last(), sep@),
    ensures
        final(acc)@ == join(parts, sep@),
{
    if !first {
        acc.append(sep);
    } else {
        assert(old(acc)@ =~= Seq::<char>::empty());
    }
    acc.append(part);
    assert(final(acc)@ =~= join(parts, sep@));
}

} // verus!
