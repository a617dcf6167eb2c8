//! The record parser and the record splitter.

use crate::book::{Book, BookModel};
use crate::clipping::{Clipping, ClippingModel};
use crate::shelf::{added, lemma_add_new_book, lemma_add_same_book_twice, same_book, BookShelf};
use crate::timestamp::{is_valid_date_time, Timestamp};
use crate::text::{
    all_in, is_ascii_digit, is_white_space, lemma_span_all, lemma_span_back_concat, lemma_span_bounds,
    lemma_span_concat, lemma_trim_plain, lemma_trim_space, scan, slice, span, span_back, trim,
    trim_range, Class,
};
use vstd::prelude::*;

verus! {

/// Why a record could not be read.
#[derive(Clone, Copy, Debug, PartialEq, Eq, Structural)]
pub enum ParseError {
    /// The book line has no title before a parenthesis, or no author group.
    BookLine,
    /// The position line has no `#` that starts the position.
    PositionLine,
    /// The date and time after the position do not make a valid timestamp.
    DateTime,
    /// The group holds fewer than the three lines of a record.
    MissingLines,
}

/// The parenthesized group at the start of `s` once trimmed: its content, and
/// what follows the closing parenthesis up to the trimmed end.
pub open spec fn leading_group(s: Seq<char>) -> Option<(Seq<char>, Seq<char>)> {
    let t = trim(s);
    if t.len() > 0 && t[0] == '(' {
        let body = t.drop_first();
        let j = span(body, Class::Not(')'));
        if j < body.len() {
            Some((body.take(j as int), body.skip(j + 1 as int)))
        } else {
            None
        }
    } else {
        None
    }
}

/// The content of the last of the parenthesized groups that `s` is made of:
/// `(Tag) (Author)` gives `Author`.
pub open spec fn last_group(s: Seq<char>) -> Option<Seq<char>>
    decreases s.len(),
{
    match leading_group(s) {
        Some((content, rest)) => if rest.len() == 0 {
            Some(content)
        } else if rest.len() < s.len() {
            last_group(rest)
        } else {
            None
        },
        None => None,
    }
}

/// The text of the group at the start of `s` up to a nested open parenthesis:
/// `(A(B))` gives `A`.
pub open spec fn nested_group_head(s: Seq<char>) -> Option<Seq<char>> {
    let t = trim(s);
    if t.len() > 0 && t[0] == '(' {
        let body = t.drop_first();
        let j = span(body, Class::Not('('));
        if j < body.len() {
            Some(body.take(j as int))
        } else {
            None
        }
    } else {
        None
    }
}

/// The author in the groups that follow a title: the last group, or where
/// that fails the head of a nested group.
pub open spec fn author_of(s: Seq<char>) -> Option<Seq<char>> {
    match last_group(s) {
        Some(a) => Some(a),
        None => nested_group_head(s),
    }
}

/// Title and author of a book line, before they are trimmed: the title is all
/// that comes before the first `(` of the trimmed line, and must not be empty.
pub open spec fn book_of(line: Seq<char>) -> Option<(Seq<char>, Seq<char>)> {
    let t = trim(line);
    let i = span(t, Class::Not('('));
    if 0 < i < t.len() {
        match author_of(t.skip(i as int)) {
            Some(a) => Some((t.take(i as int), a)),
            None => None,
        }
    } else {
        None
    }
}

pub open spec fn book_model(title: Seq<char>, author: Seq<char>) -> BookModel {
    BookModel { title: trim(title), author: trim(author), clippings: seq![] }
}

/// Bounds of the content and of the rest, as `leading_group` gives them.
fn leading_group_at(s: &str, lo: usize, hi: usize) -> (r: Option<(usize, usize, usize, usize)>)
    requires
        lo <= hi <= s@.len(),
    ensures
        r is Some <==> leading_group(s@.subrange(lo as int, hi as int)) is Some,
        r matches Some((a, b, c, d)) ==> {
            &&& lo < a <= b < c <= d <= hi
            &&& leading_group(s@.subrange(lo as int, hi as int)) == Some(
                (s@.subrange(a as int, b as int), s@.subrange(c as int, d as int)),
            )
        },
{
    let (a, b) = trim_range(s, lo, hi);
    let ghost t = s@.subrange(a as int, b as int);
    if a < b && s.get_char(a) == '(' {
        let j = scan(s, a + 1, b, &Class::Not(')'));
        proof {
            assert(t.drop_first() =~= s@.subrange(a + 1, b as int));
        }
        if j < b {
            proof {
                let body = t.drop_first();
                assert(body.take(j - a - 1) =~= s@.subrange(a + 1, j as int));
                assert(body.skip(j - a) =~= s@.subrange(j + 1, b as int));
            }
            Some((a + 1, j, j + 1, b))
        } else {
            None
        }
    } else {
        None
    }
}

/// Bounds of what `last_group` gives.
fn last_group_at(s: &str, lo: usize, hi: usize) -> (r: Option<(usize, usize)>)
    requires
        lo <= hi <= s@.len(),
    ensures
        r is Some <==> last_group(s@.subrange(lo as int, hi as int)) is Some,
        r matches Some((a, b)) ==> a <= b <= s@.len() && last_group(
            s@.subrange(lo as int, hi as int),
        ) == Some(s@.subrange(a as int, b as int)),
{
    let mut x = lo;
    let mut y = hi;
    loop
        invariant
            lo <= x <= y <= hi <= s@.len(),
            last_group(s@.subrange(lo as int, hi as int)) == last_group(
                s@.subrange(x as int, y as int),
            ),
        decreases y - x,
    {
        match leading_group_at(s, x, y) {
            None => {
                return None;
            },
            Some((a, b, c, d)) => {
                if c == d {
                    return Some((a, b));
                }
                x = c;
                y = d;
            },
        }
    }
}

/// Bounds of what `nested_group_head` gives.
fn nested_group_head_at(s: &str, lo: usize, hi: usize) -> (r: Option<(usize, usize)>)
    requires
        lo <= hi <= s@.len(),
    ensures
        r is Some <==> nested_group_head(s@.subrange(lo as int, hi as int)) is Some,
        r matches Some((a, b)) ==> a <= b <= s@.len() && nested_group_head(
            s@.subrange(lo as int, hi as int),
        ) == Some(s@.subrange(a as int, b as int)),
{
    let (a, b) = trim_range(s, lo, hi);
    let ghost t = s@.subrange(a as int, b as int);
    if a < b && s.get_char(a) == '(' {
        let j = scan(s, a + 1, b, &Class::Not('('));
        proof {
            assert(t.drop_first() =~= s@.subrange(a + 1, b as int));
        }
        if j < b {
            proof {
                assert(t.drop_first().take(j - a - 1) =~= s@.subrange(a + 1, j as int));
            }
            Some((a + 1, j))
        } else {
            None
        }
    } else {
        None
    }
}

/// Bounds of what `author_of` gives.
fn author_at(s: &str, lo: usize, hi: usize) -> (r: Option<(usize, usize)>)
    requires
        lo <= hi <= s@.len(),
    ensures
        r is Some <==> author_of(s@.subrange(lo as int, hi as int)) is Some,
        r matches Some((a, b)) ==> a <= b <= s@.len() && author_of(
            s@.subrange(lo as int, hi as int),
        ) == Some(s@.subrange(a as int, b as int)),
{
    match last_group_at(s, lo, hi) {
        Some(r) => Some(r),
        None => nested_group_head_at(s, lo, hi),
    }
}

/// The author named by the groups after a title, untrimmed.
pub fn parse_author(line: &str) -> (r: Result<String, ParseError>)
    ensures
        r is Ok <==> author_of(line@) is Some,
        r matches Ok(a) ==> author_of(line@) == Some(a@),
        r matches Err(e) ==> e == ParseError::BookLine,
{
    let n = line.unicode_len();
    proof {
        assert(line@.subrange(0, n as int) =~= line@);
    }
    match author_at(line, 0, n) {
        Some((a, b)) => Ok(slice(line, a, b)),
        None => Err(ParseError::BookLine),
    }
}

/// The book that a book line names.
pub fn parse_book(line: &str) -> (r: Result<Book, ParseError>)
    ensures
        r is Ok <==> book_of(line@) is Some,
        r matches Ok(b) ==> book_of(line@) matches Some((t, a)) && b@ == book_model(t, a),
        r matches Err(e) ==> e == ParseError::BookLine,
{
    let n = line.unicode_len();
    proof {
        assert(line@.subrange(0, n as int) =~= line@);
    }
    let (lo, hi) = trim_range(line, 0, n);
    let ghost t = line@.subrange(lo as int, hi as int);
    let i = scan(line, lo, hi, &Class::Not('('));
    if lo < i && i < hi {
        proof {
            assert(t.skip(i - lo) =~= line@.subrange(i as int, hi as int));
            assert(t.take(i - lo) =~= line@.subrange(lo as int, i as int));
        }
        match author_at(line, i, hi) {
            Some((a, b)) => {
                let title = slice(line, lo, i);
                let author = slice(line, a, b);
                Ok(Book::new(title, author))
            },
            None => Err(ParseError::BookLine),
        }
    } else {
        Err(ParseError::BookLine)
    }
}

/// The value of a run of decimal digits.
pub open spec fn digits_value(d: Seq<char>) -> int
    decreases d.len(),
{
    if d.len() == 0 {
        0
    } else {
        10 * digits_value(d.drop_last()) + (d.last() as u32 - 48)
    }
}

/// The first run of decimal digits in `s`, past everything before it: its
/// value and what follows it. There is none where `s` holds no digit, or the
/// value does not fit in `u32`.
pub open spec fn number(s: Seq<char>) -> Option<(u32, Seq<char>)> {
    let u = s.skip(span(s, Class::NotDigit) as int);
    let n = span(u, Class::Digit);
    let d = u.take(n as int);
    if n > 0 && digits_value(d) <= u32::MAX {
        Some((digits_value(d) as u32, u.skip(n as int)))
    } else {
        None
    }
}

/// The hour on a 24-hour clock: the morning marker `上午` keeps it, any other
/// marker adds twelve, and a sum of 24 or more wraps round.
pub open spec fn clock_hour(hour: int, marker: Seq<char>) -> int {
    let h = if marker == seq!['上', '午'] {
        hour
    } else {
        hour + 12
    };
    if h >= 24 {
        h - 24
    } else {
        h
    }
}

/// The timestamp in the text after a position: year, month and day as the
/// first three numbers; then, past the letters that end the day and the white
/// space after them, a run of letters that marks morning or afternoon; then
/// hour, minute and second.
pub open spec fn date_time_of(s: Seq<char>) -> Option<Timestamp> {
    match number(s) {
        None => None,
        Some((year, s1)) => match number(s1) {
            None => None,
            Some((month, s2)) => match number(s2) {
                None => None,
                Some((day, s3)) => {
                    let s4 = s3.skip(span(s3, Class::Alphabetic) as int);
                    let s5 = s4.skip(span(s4, Class::Space) as int);
                    let m = span(s5, Class::Alphabetic);
                    let marker = s5.take(m as int);
                    if m == 0 {
                        None
                    } else {
                        match number(s5.skip(m as int)) {
                            None => None,
                            Some((hour, s7)) => match number(s7) {
                                None => None,
                                Some((minute, s8)) => match number(s8) {
                                    None => None,
                                    Some((second, _)) => {
                                        let h = clock_hour(hour as int, marker);
                                        if hour as int + 12 <= u32::MAX && is_valid_date_time(
                                            year as int,
                                            month as int,
                                            day as int,
                                            h,
                                            minute as int,
                                            second as int,
                                        ) {
                                            Some(
                                                Timestamp {
                                                    year: year as i32,
                                                    month,
                                                    day,
                                                    hour: h as u32,
                                                    minute,
                                                    second,
                                                },
                                            )
                                        } else {
                                            None
                                        }
                                    },
                                },
                            },
                        }
                    }
                },
            },
        },
    }
}

proof fn lemma_digits_value_prefix(d: Seq<char>, k: int)
    requires
        0 <= k <= d.len(),
        forall|i: int| 0 <= i < d.len() ==> is_ascii_digit(#[trigger] d[i]),
    ensures
        0 <= digits_value(d.take(k)) <= digits_value(d),
    decreases d.len(),
{
    if k == d.len() {
        assert(d.take(k) =~= d);
        lemma_digits_value_nonneg(d);
    } else {
        assert(d.drop_last().take(k) =~= d.take(k));
        lemma_digits_value_prefix(d.drop_last(), k);
        lemma_digits_value_nonneg(d.drop_last());
    }
}

proof fn lemma_digits_value_nonneg(d: Seq<char>)
    requires
        forall|i: int| 0 <= i < d.len() ==> is_ascii_digit(#[trigger] d[i]),
    ensures
        0 <= digits_value(d),
    decreases d.len(),
{
    if d.len() > 0 {
        lemma_digits_value_nonneg(d.drop_last());
    }
}

/// The number that `number` finds in the characters from `lo` to `hi`, and
/// where what follows it starts.
fn number_at(s: &str, lo: usize, hi: usize) -> (r: Option<(u32, usize)>)
    requires
        lo <= hi <= s@.len(),
    ensures
        r is Some <==> number(s@.subrange(lo as int, hi as int)) is Some,
        r matches Some((v, e)) ==> lo <= e <= hi && number(s@.subrange(lo as int, hi as int))
            == Some((v, s@.subrange(e as int, hi as int))),
{
    let ghost t = s@.subrange(lo as int, hi as int);
    let a = scan(s, lo, hi, &Class::NotDigit);
    let e = scan(s, a, hi, &Class::Digit);
    let ghost u = s@.subrange(a as int, hi as int);
    let ghost d = s@.subrange(a as int, e as int);
    proof {
        lemma_span_bounds(t, Class::NotDigit);
        lemma_span_bounds(u, Class::Digit);
        assert(t.skip(a - lo) =~= u);
        assert(u.take(e - a) =~= d);
        assert(u.skip(e - a) =~= s@.subrange(e as int, hi as int));
        assert(span(t, Class::NotDigit) == a - lo);
        assert(span(u, Class::Digit) == e - a);
    }
    if a == e {
        return None;
    }
    proof {
        assert forall|i: int| 0 <= i < d.len() implies is_ascii_digit(#[trigger] d[i]) by {
            assert(d[i] == u[i]);
            assert(Class::Digit.holds(u[i]));
        }
    }
    let mut v: u64 = 0;
    let mut k: usize = a;
    while k < e
        invariant
            lo <= a <= k <= e <= hi <= s@.len(),
            d == s@.subrange(a as int, e as int),
            t == s@.subrange(lo as int, hi as int),
            span(t, Class::NotDigit) == a - lo,
            span(u, Class::Digit) == e - a,
            t.skip(a - lo) == u,
            u.take(e - a) == d,
            u.skip(e - a) == s@.subrange(e as int, hi as int),
            forall|i: int| 0 <= i < d.len() ==> is_ascii_digit(#[trigger] d[i]),
            v == digits_value(d.take(k - a)),
            v <= u32::MAX,
        decreases e - k,
    {
        let c = s.get_char(k);
        proof {
            assert(d[k - a] == c);
            assert(u[k - a] == c);
        }
        proof {
            assert(d.take(k + 1 - a).drop_last() =~= d.take(k - a));
            assert(d.take(k + 1 - a).last() == c);
        }
        v = v * 10 + (c as u32 - 48) as u64;
        if v > u32::MAX as u64 {
            proof {
                lemma_digits_value_prefix(d, k + 1 - a);
            }
            return None;
        }
        k = k + 1;
    }
    proof {
        assert(d.take(k - a) =~= d);
    }
    Some((v as u32, e))
}

/// The timestamp that `date_time_of` finds in the characters from `lo` to
/// `hi`.
fn date_time_at(s: &str, lo: usize, hi: usize) -> (r: Option<Timestamp>)
    requires
        lo <= hi <= s@.len(),
    ensures
        r == date_time_of(s@.subrange(lo as int, hi as int)),
        r matches Some(t) ==> t.wf(),
{
    let (year, after_year) = match number_at(s, lo, hi) {
        Some(x) => x,
        None => {
            return None;
        },
    };
    let (month, after_month) = match number_at(s, after_year, hi) {
        Some(x) => x,
        None => {
            return None;
        },
    };
    let (day, after_day) = match number_at(s, after_month, hi) {
        Some(x) => x,
        None => {
            return None;
        },
    };
    let past_letters = scan(s, after_day, hi, &Class::Alphabetic);
    let marker_start = scan(s, past_letters, hi, &Class::Space);
    let marker_end = scan(s, marker_start, hi, &Class::Alphabetic);
    let ghost from_day = s@.subrange(after_day as int, hi as int);
    let ghost from_letters = s@.subrange(past_letters as int, hi as int);
    let ghost from_marker = s@.subrange(marker_start as int, hi as int);
    let ghost marker = from_marker.take(marker_end - marker_start);
    proof {
        assert(from_day.skip(past_letters - after_day) =~= from_letters);
        assert(from_letters.skip(marker_start - past_letters) =~= from_marker);
        assert(from_marker.skip(marker_end - marker_start) =~= s@.subrange(
            marker_end as int,
            hi as int,
        ));
    }
    if marker_end == marker_start {
        return None;
    }
    let morning = marker_end - marker_start == 2 && s.get_char(marker_start) == '上' && s.get_char(
        marker_start + 1,
    ) == '午';
    proof {
        if morning {
            assert(marker =~= seq!['上', '午']);
        } else if marker.len() == 2 {
            assert(marker[0] == s@[marker_start as int] && marker[1] == s@[marker_start + 1]);
        }
        assert(morning == (marker == seq!['上', '午']));
    }
    let (hour, after_hour) = match number_at(s, marker_end, hi) {
        Some(x) => x,
        None => {
            return None;
        },
    };
    let (minute, after_minute) = match number_at(s, after_hour, hi) {
        Some(x) => x,
        None => {
            return None;
        },
    };
    let (second, _) = match number_at(s, after_minute, hi) {
        Some(x) => x,
        None => {
            return None;
        },
    };
    if hour > u32::MAX - 12 || year > i32::MAX as u32 {
        return None;
    }
    let offset: u32 = if morning {
        0
    } else {
        12
    };
    let h0 = hour + offset;
    let h = if h0 >= 24 {
        h0 - 24
    } else {
        h0
    };
    Timestamp::from_parts(year as i32, month, day, h, minute, second)
}

/// The timestamp in the text after a position.
pub fn parse_date_time(line: &str) -> (r: Result<Timestamp, ParseError>)
    ensures
        r is Ok <==> date_time_of(line@) is Some,
        r matches Ok(t) ==> date_time_of(line@) == Some(t) && t.wf(),
        r matches Err(e) ==> e == ParseError::DateTime,
{
    let n = line.unicode_len();
    proof {
        assert(line@.subrange(0, n as int) =~= line@);
    }
    match date_time_at(line, 0, n) {
        Some(t) => Ok(t),
        None => Err(ParseError::DateTime),
    }
}

/// The position and what follows it: the position starts at the first `#`
/// and runs up to the next letter.
pub open spec fn position_split(s: Seq<char>) -> Option<(Seq<char>, Seq<char>)> {
    let i = span(s, Class::Not('#'));
    if i < s.len() {
        let u = s.skip(i as int);
        let p = span(u, Class::NotAlphabetic);
        Some((u.take(p as int), u.skip(p as int)))
    } else {
        None
    }
}

/// The position and the timestamp of a position line.
pub fn parse_position_date_time(line: &str) -> (r: Result<(String, Timestamp), ParseError>)
    ensures
        r matches Err(e) ==> (e == ParseError::PositionLine <==> position_split(line@) is None),
        r matches Err(e) ==> (e == ParseError::DateTime <==> (position_split(line@) matches Some(
            (_, rest),
        ) && date_time_of(rest) is None)),
        r matches Ok((p, t)) ==> position_split(line@) matches Some((q, rest)) && p@ == q
            && date_time_of(rest) == Some(t) && t.wf(),
        r is Ok <==> (position_split(line@) matches Some((_, rest)) && date_time_of(rest) is Some),
{
    let n = line.unicode_len();
    proof {
        assert(line@.subrange(0, n as int) =~= line@);
    }
    let i = scan(line, 0, n, &Class::Not('#'));
    if i == n {
        return Err(ParseError::PositionLine);
    }
    let p = scan(line, i, n, &Class::NotAlphabetic);
    proof {
        let u = line@.subrange(i as int, n as int);
        assert(line@.skip(i as int) =~= u);
        assert(u.take(p - i) =~= line@.subrange(i as int, p as int));
        assert(u.skip(p - i) =~= line@.subrange(p as int, n as int));
    }
    let position = slice(line, i, p);
    match date_time_at(line, p, n) {
        Some(t) => Ok((position, t)),
        None => Err(ParseError::DateTime),
    }
}

/// The book and the clipping of a record of three lines: the book line, the
/// position line, and the quoted text as it stands.
pub open spec fn record_of(l0: Seq<char>, l1: Seq<char>, l2: Seq<char>) -> Option<
    (BookModel, ClippingModel),
> {
    match book_of(l0) {
        None => None,
        Some((title, author)) => match position_split(l1) {
            None => None,
            Some((position, rest)) => match date_time_of(rest) {
                None => None,
                Some(t) => Some(
                    (
                        book_model(title, author),
                        ClippingModel { text: l2, position, date_time: t, mark: None },
                    ),
                ),
            },
        },
    }
}

/// Reads one record from its three lines.
pub fn parse_record(l0: &str, l1: &str, l2: &String) -> (r: Result<(Book, Clipping), ParseError>)
    ensures
        r is Ok <==> record_of(l0@, l1@, l2@) is Some,
        r matches Ok((b, c)) ==> record_of(l0@, l1@, l2@) == Some((b@, c@)),
        r matches Err(e) ==> (e == ParseError::BookLine <==> book_of(l0@) is None),
        r matches Err(e) ==> (e == ParseError::PositionLine <==> (book_of(l0@) is Some
            && position_split(l1@) is None)),
        r matches Err(e) ==> e != ParseError::MissingLines,
{
    let book = parse_book(l0)?;
    let (position, date_time) = match parse_position_date_time(l1) {
        Ok(x) => x,
        Err(e) => {
            return Err(e);
        },
    };
    let clipping = Clipping::new(l2.clone(), position, date_time, None);
    Ok((book, clipping))
}

/// Reads the record in the first three of `lines`; fewer lines are no record.
pub fn parse_lines(lines: &[String]) -> (r: Result<(Book, Clipping), ParseError>)
    ensures
        r matches Err(e) ==> (e == ParseError::MissingLines <==> lines@.len() < 3),
        lines@.len() < 3 ==> r is Err,
        lines@.len() >= 3 ==> (r is Ok <==> record_of(lines@[0]@, lines@[1]@, lines@[2]@) is Some),
        r matches Ok((b, c)) ==> lines@.len() >= 3 && record_of(
            lines@[0]@,
            lines@[1]@,
            lines@[2]@,
        ) == Some((b@, c@)),
{
    if lines.len() < 3 {
        return Err(ParseError::MissingLines);
    }
    parse_record(lines[0].as_str(), lines[1].as_str(), &lines[2])
}

/// The line that separates records in the export.
pub open spec fn delimiter() -> Seq<char> {
    "=========="@
}

/// The lines that take part in records: all but the empty ones and the
/// delimiters, in order.
pub open spec fn kept_lines(ls: Seq<String>) -> Seq<Seq<char>>
    decreases ls.len(),
{
    if ls.len() == 0 {
        Seq::empty()
    } else {
        let k = kept_lines(ls.drop_last());
        let l = ls.last()@;
        if l.len() > 0 && l != delimiter() {
            k.push(l)
        } else {
            k
        }
    }
}

/// The books that the first `g` groups of three kept lines give, the groups
/// that are no record left out.
pub open spec fn shelf_of(ls: Seq<Seq<char>>, g: nat) -> Seq<BookModel>
    decreases g,
{
    if g == 0 {
        Seq::empty()
    } else {
        let prev = shelf_of(ls, (g - 1) as nat);
        match record_of(ls[3 * g - 3], ls[3 * g - 2], ls[3 * g - 1]) {
            Some((b, c)) => added(prev, b, c),
            None => prev,
        }
    }
}

/// The library that the lines of an export give: the kept lines in groups of
/// three, each group that is a record added in turn; a last group of fewer
/// than three lines is left out.
pub open spec fn library_of(ls: Seq<String>) -> Seq<BookModel> {
    let k = kept_lines(ls);
    shelf_of(k, k.len() / 3)
}

/// Each index of `idx` is that of a line of `ls`, and the line there is the
/// line of `ks` at the same place.
pub open spec fn indexes_lines(idx: Seq<usize>, ls: Seq<String>, ks: Seq<Seq<char>>) -> bool {
    &&& idx.len() == ks.len()
    &&& forall|j: int|
        0 <= j < idx.len() ==> #[trigger] idx[j] < ls.len() && ls[idx[j] as int]@ == ks[j]
}

/// Builds the library from the lines of an export.
pub fn parse(lines: &[String]) -> (r: BookShelf)
    ensures
        r@ == library_of(lines@),
        r.wf(),
{
    let delim = String::from_str("==========");
    let mut kept: Vec<usize> = Vec::new();
    let mut i: usize = 0;
    while i < lines.len()
        invariant
            0 <= i <= lines@.len(),
            delim@ == delimiter(),
            indexes_lines(kept@, lines@, kept_lines(lines@.take(i as int))),
        decreases lines@.len() - i,
    {
        let ghost prev = kept_lines(lines@.take(i as int));
        proof {
            assert(lines@.take(i + 1).drop_last() =~= lines@.take(i as int));
            assert(lines@.take(i + 1).last() == lines@[i as int]);
        }
        let empty = lines[i].as_str().is_empty();
        let is_delim = lines[i] == delim;
        proof {
            assert(empty == (lines@[i as int]@.len() == 0));
            assert(is_delim == (lines@[i as int]@ == delimiter()));
        }
        let ghost before = kept@;
        if !empty && !is_delim {
            kept.push(i);
        }
        proof {
            let next = kept_lines(lines@.take(i + 1));
            if !empty && !is_delim {
                assert(next == prev.push(lines@[i as int]@));
                assert(kept@ == before.push(i));
                assert forall|j: int| 0 <= j < kept@.len() implies #[trigger] kept@[j]
                    < lines@.len() && lines@[kept@[j] as int]@ == next[j] by {
                    if j < before.len() {
                        assert(kept@[j] == before[j]);
                        assert(lines@[before[j] as int]@ == prev[j]);
                    }
                }
            } else {
                assert(next == prev);
            }
            assert(indexes_lines(kept@, lines@, next));
        }
        i = i + 1;
    }
    let ghost k = kept_lines(lines@);
    proof {
        assert(lines@.take(i as int) =~= lines@);
        assert(kept_lines(lines@.take(i as int)) == k);
    }
    let mut shelf = BookShelf::new();
    let total = kept.len();
    let groups = total / 3;
    let mut g: usize = 0;
    while g < groups
        invariant
            0 <= g <= groups == k.len() / 3,
            kept@.len() == k.len() == total,
            indexes_lines(kept@, lines@, k),
            k == kept_lines(lines@),
            shelf@ == shelf_of(k, g as nat),
            shelf.wf(),
        decreases groups - g,
    {
        proof {
            assert(3 * g + 2 < kept@.len()) by (nonlinear_arith)
                requires
                    g < groups,
                    groups == kept@.len() / 3,
            ;
        }
        let a = kept[3 * g];
        let b = kept[3 * g + 1];
        let c = kept[3 * g + 2];
        proof {
            assert(lines@[a as int]@ == k[3 * g]);
            assert(lines@[b as int]@ == k[3 * g + 1]);
            assert(lines@[c as int]@ == k[3 * g + 2]);
        }
        match parse_record(lines[a].as_str(), lines[b].as_str(), &lines[c]) {
            Ok((book, clipping)) => {
                shelf.add_book_and_clipping(book, clipping);
            },
            Err(_) => {},
        }
        g = g + 1;
    }
    shelf
}

/// The groups that follow a title: each tag as `(tag) `, then `(author)`.
pub open spec fn groups_text(tags: Seq<Seq<char>>, author: Seq<char>) -> Seq<char>
    decreases tags.len(),
{
    if tags.len() == 0 {
        seq!['('] + author + seq![')']
    } else {
        seq!['('] + tags[0] + seq![')', ' '] + groups_text(tags.drop_first(), author)
    }
}

/// The book line `title (tag) ... (author)`.
pub open spec fn book_line(title: Seq<char>, tags: Seq<Seq<char>>, author: Seq<char>) -> Seq<
    char,
> {
    title + seq![' '] + groups_text(tags, author)
}

proof fn lemma_groups_shape(tags: Seq<Seq<char>>, author: Seq<char>)
    ensures
        groups_text(tags, author).len() > 0,
        groups_text(tags, author)[0] == '(',
        groups_text(tags, author).last() == ')',
    decreases tags.len(),
{
    if tags.len() > 0 {
        lemma_groups_shape(tags.drop_first(), author);
    }
}

/// Text that trims to the groups of a book line has the author as its last
/// group.
proof fn lemma_last_group_of_groups(s: Seq<char>, tags: Seq<Seq<char>>, author: Seq<char>)
    requires
        trim(s) == groups_text(tags, author),
        forall|i: int| 0 <= i < tags.len() ==> all_in(#[trigger] tags[i], Class::Not(')')),
        all_in(author, Class::Not(')')),
    ensures
        last_group(s) == Some(author),
    decreases tags.len(),
{
    let g = groups_text(tags, author);
    let k = Class::Not(')');
    lemma_groups_shape(tags, author);
    if tags.len() == 0 {
        let body = g.drop_first();
        assert(body =~= author + seq![')']);
        lemma_span_all(author, k);
        lemma_span_concat(author, seq![')'], k);
        assert(span(seq![')'], k) == 0);
        assert(body.take(author.len() as int) =~= author);
        assert(body.skip(author.len() + 1 as int) =~= Seq::<char>::empty());
    } else {
        let rest_groups = groups_text(tags.drop_first(), author);
        let body = g.drop_first();
        let tag = tags[0];
        assert(body =~= tag + (seq![')', ' '] + rest_groups));
        lemma_span_all(tag, k);
        lemma_span_concat(tag, seq![')', ' '] + rest_groups, k);
        assert(span(seq![')', ' '] + rest_groups, k) == 0);
        let rest = body.skip(tag.len() + 1 as int);
        assert(rest =~= seq![' '] + rest_groups);
        lemma_groups_shape(tags.drop_first(), author);
        lemma_trim_space(rest_groups);
        let u = s.skip(span(s, Class::Space) as int);
        lemma_span_bounds(s, Class::Space);
        lemma_span_bounds(u, Class::Space);
        assert(rest.len() < s.len());
        assert forall|i: int| 0 <= i < tags.drop_first().len() implies all_in(
            #[trigger] tags.drop_first()[i],
            k,
        ) by {
            assert(tags.drop_first()[i] == tags[i + 1]);
        }
        lemma_last_group_of_groups(rest, tags.drop_first(), author);
    }
}

/// In `title` followed by a space and groups, the title ends before the
/// space, and the groups are what follows it.
proof fn lemma_title_split(title: Seq<char>, g: Seq<char>)
    requires
        trim(title).len() > 0,
        all_in(title, Class::Not('(')),
        g.len() > 0,
        g[0] == '(',
        g.last() == ')',
    ensures
        ({
            let t = trim(title + seq![' '] + g);
            let i = span(t, Class::Not('('));
            &&& 0 < i < t.len()
            &&& t.skip(i as int) == g
            &&& trim(t.take(i as int)) == trim(title)
        }),
{
    let line = title + seq![' '] + g;
    let sp = Class::Space;
    let p = span(title, sp);
    lemma_span_bounds(title, sp);
    if p == title.len() {
        assert(title.skip(p as int).len() == 0);
    }
    assert(p < title.len());
    assert(line =~= title + (seq![' '] + g));
    lemma_span_concat(title, seq![' '] + g, sp);
    let w = title.skip(p as int);
    let u = line.skip(p as int);
    assert(u =~= (w + seq![' ']) + g);
    lemma_span_back_concat(w + seq![' '], g, sp);
    assert(span_back(g, sp) == 0);
    let t = trim(line);
    assert(t =~= u);
    let np = Class::Not('(');
    assert(all_in(w, np)) by {
        assert forall|i: int| 0 <= i < w.len() implies np.holds(#[trigger] w[i]) by {
            assert(w[i] == title[i + p]);
        }
    }
    lemma_span_all(w, np);
    assert(u =~= w + (seq![' '] + g));
    lemma_span_concat(w, seq![' '] + g, np);
    assert((seq![' '] + g).drop_first() =~= g);
    assert(span(g, np) == 0);
    assert(span(seq![' '] + g, np) == 1);
    let i = w.len() + 1;
    assert(span(t, np) == i);
    assert(t.skip(i as int) =~= g);
    assert(t.take(i as int) =~= w + seq![' ']);
    let x = w + seq![' '];
    assert(!is_white_space(w[0]));
    lemma_span_concat(w, seq![' '], sp);
    lemma_span_bounds(w, sp);
    assert(span(w, sp) == 0);
    assert(x.skip(0) =~= x);
    assert(x.drop_last() =~= w);
    assert(span_back(x, sp) == 1 + span_back(w, sp));
    assert(trim(x) =~= w.take(w.len() - span_back(w, sp)));
}

/// In a book line `title (tag) ... (author)`, however many tag groups come
/// before the author's, the title and the author read back as they were
/// written, trimmed.
pub proof fn lemma_book_line(title: Seq<char>, tags: Seq<Seq<char>>, author: Seq<char>)
    requires
        trim(title).len() > 0,
        all_in(title, Class::Not('(')),
        forall|i: int| 0 <= i < tags.len() ==> all_in(#[trigger] tags[i], Class::Not(')')),
        all_in(author, Class::Not(')')),
    ensures
        book_of(book_line(title, tags, author)) matches Some((t, a)) && trim(t) == trim(title)
            && trim(a) == trim(author),
{
    let g = groups_text(tags, author);
    lemma_groups_shape(tags, author);
    lemma_title_split(title, g);
    lemma_trim_plain(g);
    lemma_last_group_of_groups(g, tags, author);
}

/// In a book line `title (A(B))` whose one group holds a nested group, the
/// author is `A`, what comes before the nested open parenthesis.
pub proof fn lemma_book_line_nested(title: Seq<char>, a: Seq<char>, b: Seq<char>)
    requires
        trim(title).len() > 0,
        all_in(title, Class::Not('(')),
        all_in(a, Class::Not('(')),
        all_in(a, Class::Not(')')),
        all_in(b, Class::Not(')')),
    ensures
        book_of(title + seq![' ', '('] + a + seq!['('] + b + seq![')', ')']) matches Some((t, x))
            && trim(t) == trim(title) && trim(x) == trim(a),
{
    let g = seq!['('] + (a + seq!['('] + b) + seq![')', ')'];
    assert(title + seq![' '] + g =~= title + seq![' ', '('] + a + seq!['('] + b + seq![')', ')']);
    lemma_title_split(title, g);
    lemma_trim_plain(g);
    // the last group fails: its group closes before the final `)`
    let cp = Class::Not(')');
    let np = Class::Not('(');
    let body = g.drop_first();
    assert(body =~= (a + seq!['(']) + (b + seq![')', ')']));
    assert(all_in(a + seq!['('], cp));
    lemma_span_all(a + seq!['('], cp);
    lemma_span_all(b, cp);
    lemma_span_concat(a + seq!['('], b + seq![')', ')'], cp);
    lemma_span_concat(b, seq![')', ')'], cp);
    assert(span(seq![')', ')'], cp) == 0);
    let j = a.len() + 1 + b.len();
    assert(body.skip(j + 1 as int) =~= seq![')']);
    lemma_trim_plain(seq![')']);
    assert(last_group(seq![')']) is None);
    assert(last_group(g) is None);
    // the nested group gives `A`
    assert(body =~= a + (seq!['('] + b + seq![')', ')']));
    lemma_span_all(a, np);
    lemma_span_concat(a, seq!['('] + b + seq![')', ')'], np);
    assert(body.take(a.len() as int) =~= a);
    assert(nested_group_head(g) == Some(a));
}

/// On a 12-hour reading (hour below 24), the morning marker `上午` keeps the
/// hour and the afternoon marker `下午` adds twelve, wrapping round to stay in
/// `0..24`.
pub proof fn lemma_clock_hour(hour: int)
    requires
        0 <= hour < 24,
    ensures
        clock_hour(hour, seq!['上', '午']) == hour,
        clock_hour(hour, seq!['下', '午']) == (hour + 12) % 24,
        0 <= clock_hour(hour, seq!['下', '午']) < 24,
{
    assert(seq!['下', '午'] != seq!['上', '午']) by {
        assert(seq!['下', '午'][0] != seq!['上', '午'][0]);
    }
}

proof fn lemma_kept_step(ls: Seq<String>, i: int)
    requires
        0 <= i < ls.len(),
    ensures
        kept_lines(ls.take(i + 1)) == if ls[i]@.len() > 0 && ls[i]@ != delimiter() {
            kept_lines(ls.take(i)).push(ls[i]@)
        } else {
            kept_lines(ls.take(i))
        },
{
    assert(ls.take(i + 1).drop_last() =~= ls.take(i));
    assert(ls.take(i + 1).last() == ls[i]);
}

/// Two delimited records of one book and a malformed third record give one
/// book holding the two clippings in file order; the malformed record leaves
/// nothing behind.
pub proof fn lemma_two_records_and_a_malformed_one(
    lines: Seq<String>,
    b1: BookModel,
    c1: ClippingModel,
    b2: BookModel,
    c2: ClippingModel,
)
    requires
        lines.len() == 12,
        lines[3]@ == delimiter(),
        lines[7]@ == delimiter(),
        lines[11]@ == delimiter(),
        forall|i: int|
            0 <= i < 12 && i != 3 && i != 7 && i != 11 ==> #[trigger] lines[i]@.len() > 0
                && lines[i]@ != delimiter(),
        record_of(lines[0]@, lines[1]@, lines[2]@) == Some((b1, c1)),
        record_of(lines[4]@, lines[5]@, lines[6]@) == Some((b2, c2)),
        same_book(b1, b2),
        record_of(lines[8]@, lines[9]@, lines[10]@) is None,
    ensures
        library_of(lines) == seq![BookModel { clippings: seq![c1, c2], ..b1 }],
{
    assert(lines.take(0) =~= Seq::<String>::empty());
    lemma_kept_step(lines, 0);
    assert(lines[0]@.len() > 0 && lines[0]@ != delimiter());
    assert(kept_lines(lines.take(1)) =~= seq![lines[0]@]);
    lemma_kept_step(lines, 1);
    assert(lines[1]@.len() > 0 && lines[1]@ != delimiter());
    assert(kept_lines(lines.take(2)) =~= seq![lines[0]@, lines[1]@]);
    lemma_kept_step(lines, 2);
    assert(lines[2]@.len() > 0 && lines[2]@ != delimiter());
    assert(kept_lines(lines.take(3)) =~= seq![lines[0]@, lines[1]@, lines[2]@]);
    lemma_kept_step(lines, 3);
    assert(kept_lines(lines.take(4)) =~= seq![lines[0]@, lines[1]@, lines[2]@]);
    lemma_kept_step(lines, 4);
    assert(lines[4]@.len() > 0 && lines[4]@ != delimiter());
    assert(kept_lines(lines.take(5)) =~= seq![lines[0]@, lines[1]@, lines[2]@, lines[4]@]);
    lemma_kept_step(lines, 5);
    assert(lines[5]@.len() > 0 && lines[5]@ != delimiter());
    assert(kept_lines(lines.take(6)) =~= seq![lines[0]@, lines[1]@, lines[2]@, lines[4]@, lines[5]@]);
    lemma_kept_step(lines, 6);
    assert(lines[6]@.len() > 0 && lines[6]@ != delimiter());
    assert(kept_lines(lines.take(7)) =~= seq![lines[0]@, lines[1]@, lines[2]@, lines[4]@, lines[5]@, lines[6]@]);
    lemma_kept_step(lines, 7);
    assert(kept_lines(lines.take(8)) =~= seq![lines[0]@, lines[1]@, lines[2]@, lines[4]@, lines[5]@, lines[6]@]);
    lemma_kept_step(lines, 8);
    assert(lines[8]@.len() > 0 && lines[8]@ != delimiter());
    assert(kept_lines(lines.take(9)) =~= seq![lines[0]@, lines[1]@, lines[2]@, lines[4]@, lines[5]@, lines[6]@, lines[8]@]);
    lemma_kept_step(lines, 9);
    assert(lines[9]@.len() > 0 && lines[9]@ != delimiter());
    assert(kept_lines(lines.take(10)) =~= seq![lines[0]@, lines[1]@, lines[2]@, lines[4]@, lines[5]@, lines[6]@, lines[8]@, lines[9]@]);
    lemma_kept_step(lines, 10);
    assert(lines[10]@.len() > 0 && lines[10]@ != delimiter());
    assert(kept_lines(lines.take(11)) =~= seq![lines[0]@, lines[1]@, lines[2]@, lines[4]@, lines[5]@, lines[6]@, lines[8]@, lines[9]@, lines[10]@]);
    lemma_kept_step(lines, 11);
    assert(kept_lines(lines.take(12)) =~= seq![lines[0]@, lines[1]@, lines[2]@, lines[4]@, lines[5]@, lines[6]@, lines[8]@, lines[9]@, lines[10]@]);
    assert(lines.take(12) =~= lines);
    let k = kept_lines(lines);
    assert(k.len() == 9);
    assert(k[0] == lines[0]@ && k[1] == lines[1]@ && k[2] == lines[2]@);
    assert(k[3] == lines[4]@ && k[4] == lines[5]@ && k[5] == lines[6]@);
    assert(k[6] == lines[8]@ && k[7] == lines[9]@ && k[8] == lines[10]@);
    let empty = Seq::<BookModel>::empty();
    assert(shelf_of(k, 0) == empty);
    assert(!crate::shelf::has_book(empty, b1));
    lemma_add_new_book(empty, b1, c1);
    assert(shelf_of(k, 1) == added(empty, b1, c1));
    assert(shelf_of(k, 2) == added(added(empty, b1, c1), b2, c2));
    lemma_add_same_book_twice(empty, b1, c1, b2, c2);
    assert(shelf_of(k, 3) == shelf_of(k, 2));
    assert(library_of(lines) == shelf_of(k, 3));
    assert(empty.push(BookModel { clippings: seq![c1, c2], ..b1 }) =~= seq![
        BookModel { clippings: seq![c1, c2], ..b1 },
    ]);
}

} // verus!
