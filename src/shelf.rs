//! The library: every book of one conversion, in first-seen order.

use crate::book::{book_markdown, Book, BookModel};
use crate::clipping::{Clipping, ClippingModel};
use crate::text::{join, join_step};
use crate::traits::Markdown;
use vstd::prelude::*;

verus! {

/// Two books are the same book when title and author match exactly.
pub open spec fn same_book(a: BookModel, b: BookModel) -> bool {
    a.title == b.title && a.author == b.author
}

/// No two books of the sequence are the same book.
pub open spec fn books_unique(bs: Seq<BookModel>) -> bool {
    forall|i: int, j: int| 0 <= i < j < bs.len() ==> !same_book(#[trigger] bs[i], #[trigger] bs[j])
}

/// A book of `b`'s title and author that holds the one clipping `c`.
pub open spec fn new_book(b: BookModel, c: ClippingModel) -> BookModel {
    BookModel { clippings: seq![c], ..b }
}

pub open spec fn has_book(bs: Seq<BookModel>, b: BookModel) -> bool {
    exists|i: int| 0 <= i < bs.len() && same_book(#[trigger] bs[i], b)
}

/// The books after a clipping of `b` is added: it goes to the book already
/// there that is the same book, or else a new book of `b`'s title and author,
/// holding that clipping alone, goes at the end.
pub open spec fn added(bs: Seq<BookModel>, b: BookModel, c: ClippingModel) -> Seq<BookModel> {
    if has_book(bs, b) {
        let i = choose|i: int| 0 <= i < bs.len() && same_book(#[trigger] bs[i], b);
        bs.update(i, BookModel { clippings: bs[i].clippings.push(c), ..bs[i] })
    } else {
        bs.push(new_book(b, c))
    }
}

pub open spec fn content_line(b: BookModel) -> Seq<char> {
    "- ["@ + b.title + "](./"@ + b.title + ".md)"@
}

pub open spec fn summary_line(b: BookModel) -> Seq<char> {
    "- ["@ + b.title + "](./clipping/"@ + b.title + ".md)"@
}

/// The index document: a link to each book's document.
pub open spec fn content_text(bs: Seq<BookModel>) -> Seq<char> {
    "# Clipping \r\r"@ + join(bs.map_values(|b: BookModel| content_line(b)), "\n"@)
}

/// The summary document: a link to the index, then one to each book's
/// document.
pub open spec fn summary_text(bs: Seq<BookModel>) -> Seq<char> {
    "- [Clipping](./clipping/index.md) \r  "@ + join(
        bs.map_values(|b: BookModel| summary_line(b)),
        "\n  "@,
    )
}

/// All the books' documents, separated by carriage returns.
pub open spec fn shelf_markdown(bs: Seq<BookModel>) -> Seq<char> {
    join(bs.map_values(|b: BookModel| book_markdown(b)), "\r"@)
}

#[derive(Debug, PartialEq)]
pub struct BookShelf {
    books: Vec<Book>,
}

impl View for BookShelf {
    type V = Seq<BookModel>;

    closed spec fn view(&self) -> Seq<BookModel> {
        self.books@.map_values(|b: Book| b@)
    }
}

impl BookShelf {
    /// No two of the books are the same book.
    pub open spec fn wf(&self) -> bool {
        books_unique(self@)
    }

    pub fn new() -> (r: BookShelf)
        ensures
            r@ == Seq::<BookModel>::empty(),
            r.wf(),
    {
        let r = BookShelf { books: Vec::new() };
        assert(r@ =~= Seq::<BookModel>::empty());
        r
    }

    /// Adds a clipping of `book`: to the book of the same title and author
    /// where there is one, else to a new book of that title and author, which
    /// then goes at the end; clippings that `book` already holds are not kept.
    pub fn add_book_and_clipping(&mut self, book: Book, clipping: Clipping)
        requires
            old(self).wf(),
        ensures
            final(self)@ == added(old(self)@, book@, clipping@),
            final(self).wf(),
    {
        let ghost bs = self@;
        let n = self.books.len();
        let mut i: usize = 0;
        while i < n && !self.books[i].is_identical(&book)
            invariant
                0 <= i <= n == self.books@.len(),
                bs == self@,
                forall|j: int| 0 <= j < i ==> !same_book(#[trigger] bs[j], book@),
            decreases n - i,
        {
            i = i + 1;
        }
        if i < n {
            proof {
                assert(same_book(bs[i as int], book@));
                let k = choose|k: int| 0 <= k < bs.len() && same_book(#[trigger] bs[k], book@);
                assert(k == i) by {
                    if k < i {
                    } else if k > i {
                        assert(!same_book(bs[i as int], bs[k]));
                    }
                }
            }
            let mut b = self.books.remove(i);
            b.add_clipping(clipping);
            self.books.insert(i, b);
            proof {
                let after = added(bs, book@, clipping@);
                assert(self@ =~= after);
                assert forall|p: int, q: int| 0 <= p < q < after.len() implies !same_book(
                    #[trigger] after[p],
                    #[trigger] after[q],
                ) by {
                    assert(same_book(after[p], bs[p]) && same_book(after[q], bs[q]));
                }
            }
        } else {
            let ghost old_book = book@;
            let mut book = book;
            book.clear_clippings();
            book.add_clipping(clipping);
            self.books.push(book);
            proof {
                assert(!has_book(bs, old_book));
                assert(self@ =~= added(bs, old_book, clipping@));
            }
        }
    }

    /// The books, in first-seen order.
    pub fn books(&self) -> (r: &Vec<Book>)
        ensures
            r@.map_values(|b: Book| b@) == self@,
    {
        &self.books
    }

    /// The index document, with a link to each book's document.
    pub fn to_content(&self) -> (r: String)
        ensures
            r@ == content_text(self@),
    {
        let ghost parts = self@.map_values(|b: BookModel| content_line(b));
        let mut body = String::new();
        let mut i: usize = 0;
        while i < self.books.len()
            invariant
                0 <= i <= self.books@.len() == parts.len(),
                parts == self@.map_values(|b: BookModel| content_line(b)),
                body@ == join(parts.take(i as int), "\n"@),
            decreases self.books@.len() - i,
        {
            let title = self.books[i].get_title();
            let mut line = String::from_str("- [");
            line.append(title);
            line.append("](./");
            line.append(title);
            line.append(".md)");
            proof {
                assert(parts.take(i + 1).drop_last() =~= parts.take(i as int));
                assert(parts[i as int] == line@);
            }
            join_step(&mut body, "\n", line.as_str(), i == 0, Ghost(parts.take(i + 1)));
            i = i + 1;
        }
        assert(parts.take(i as int) =~= parts);
        let mut s = String::from_str("# Clipping \r\r");
        s.append(body.as_str());
        s
    }

    /// The summary document, with a link to the index and one to each book's
    /// document.
    pub fn to_summary(&self) -> (r: String)
        ensures
            r@ == summary_text(self@),
    {
        let ghost parts = self@.map_values(|b: BookModel| summary_line(b));
        let mut body = String::new();
        let mut i: usize = 0;
        while i < self.books.len()
            invariant
                0 <= i <= self.books@.len() == parts.len(),
                parts == self@.map_values(|b: BookModel| summary_line(b)),
                body@ == join(parts.take(i as int), "\n  "@),
            decreases self.books@.len() - i,
        {
            let title = self.books[i].get_title();
            let mut line = String::from_str("- [");
            line.append(title);
            line.append("](./clipping/");
            line.append(title);
            line.append(".md)");
            proof {
                assert(parts.take(i + 1).drop_last() =~= parts.take(i as int));
                assert(parts[i as int] == line@);
            }
            join_step(&mut body, "\n  ", line.as_str(), i == 0, Ghost(parts.take(i + 1)));
            i = i + 1;
        }
        assert(parts.take(i as int) =~= parts);
        let mut s = String::from_str("- [Clipping](./clipping/index.md) \r  ");
        s.append(body.as_str());
        s
    }
}

impl Markdown for BookShelf {
    open spec fn markdown(&self) -> Seq<char> {
        shelf_markdown(self@)
    }

    fn to_markdown(&self) -> (r: String) {
        let ghost parts = self@.map_values(|b: BookModel| book_markdown(b));
        let mut s = String::new();
        let mut i: usize = 0;
        while i < self.books.len()
            invariant
                0 <= i <= self.books@.len() == parts.len(),
                parts == self@.map_values(|b: BookModel| book_markdown(b)),
                s@ == join(parts.take(i as int), "\r"@),
            decreases self.books@.len() - i,
        {
            let part = self.books[i].to_markdown();
            proof {
                assert(parts.take(i + 1).drop_last() =~= parts.take(i as int));
            }
            join_step(&mut s, "\r", part.as_str(), i == 0, Ghost(parts.take(i + 1)));
            i = i + 1;
        }
        assert(parts.take(i as int) =~= parts);
        s
    }
}


/// A clipping of a book that the library does not hold yet adds that book at
/// the end, with the clipping, and leaves the other books as they were.
pub proof fn lemma_add_new_book(bs: Seq<BookModel>, b: BookModel, c: ClippingModel)
    requires
        !has_book(bs, b),
    ensures
        added(bs, b, c) == bs.push(new_book(b, c)),
        books_unique(bs) ==> books_unique(added(bs, b, c)),
{
    let r = added(bs, b, c);
    if books_unique(bs) {
        assert forall|i: int, j: int| 0 <= i < j < r.len() implies !same_book(
            #[trigger] r[i],
            #[trigger] r[j],
        ) by {
            if j == bs.len() {
                assert(r[i] == bs[i]);
            }
        }
    }
}

/// How many clippings the books hold in all.
pub open spec fn total_clippings(bs: Seq<BookModel>) -> int
    decreases bs.len(),
{
    if bs.len() == 0 {
        0
    } else {
        total_clippings(bs.drop_last()) + bs.last().clippings.len()
    }
}

proof fn lemma_total_update(bs: Seq<BookModel>, i: int, x: BookModel)
    requires
        0 <= i < bs.len(),
    ensures
        total_clippings(bs.update(i, x)) == total_clippings(bs) - bs[i].clippings.len()
            + x.clippings.len(),
    decreases bs.len(),
{
    if i == bs.len() - 1 {
        assert(bs.update(i, x).drop_last() =~= bs.drop_last());
    } else {
        assert(bs.update(i, x).drop_last() =~= bs.drop_last().update(i, x));
        lemma_total_update(bs.drop_last(), i, x);
    }
}

/// Adding a clipping adds exactly one clipping to the library: nothing is
/// lost and nothing is duplicated.
pub proof fn lemma_add_counts_one(bs: Seq<BookModel>, b: BookModel, c: ClippingModel)
    ensures
        total_clippings(added(bs, b, c)) == total_clippings(bs) + 1,
{
    if has_book(bs, b) {
        let i = choose|i: int| 0 <= i < bs.len() && same_book(#[trigger] bs[i], b);
        lemma_total_update(bs, i, BookModel { clippings: bs[i].clippings.push(c), ..bs[i] });
    } else {
        assert(bs.push(new_book(b, c)).drop_last() =~= bs);
    }
}

/// Two clippings of one new book, added one after the other, make one book
/// at the end that holds both, in the order they were added.
pub proof fn lemma_add_same_book_twice(
    bs: Seq<BookModel>,
    b1: BookModel,
    c1: ClippingModel,
    b2: BookModel,
    c2: ClippingModel,
)
    requires
        books_unique(bs),
        !has_book(bs, b1),
        same_book(b1, b2),
    ensures
        added(added(bs, b1, c1), b2, c2) == bs.push(
            BookModel { clippings: seq![c1, c2], ..b1 },
        ),
{
    lemma_add_new_book(bs, b1, c1);
    let r1 = added(bs, b1, c1);
    let n = bs.len() as int;
    assert(same_book(r1[n], b2));
    assert(has_book(r1, b2));
    let k = choose|k: int| 0 <= k < r1.len() && same_book(#[trigger] r1[k], b2);
    if k != n {
        assert(r1[k] == bs[k]);
        assert(same_book(bs[k], b1));
    }
    assert(seq![c1].push(c2) =~= seq![c1, c2]);
    assert(added(r1, b2, c2) =~= bs.push(
        BookModel { clippings: seq![c1, c2], ..b1 },
    ));
}

/// Clippings of two books that share a title but not an author are not
/// merged: each book is added on its own.
pub proof fn lemma_add_same_title_other_author(
    bs: Seq<BookModel>,
    b1: BookModel,
    c1: ClippingModel,
    b2: BookModel,
    c2: ClippingModel,
)
    requires
        books_unique(bs),
        !has_book(bs, b1),
        !has_book(bs, b2),
        b1.title == b2.title,
        b1.author != b2.author,
    ensures
        added(added(bs, b1, c1), b2, c2) == bs.push(new_book(b1, c1)).push(
            new_book(b2, c2),
        ),
{
    lemma_add_new_book(bs, b1, c1);
    let r1 = added(bs, b1, c1);
    assert(!has_book(r1, b2)) by {
        if has_book(r1, b2) {
            let k = choose|k: int| 0 <= k < r1.len() && same_book(#[trigger] r1[k], b2);
            if k < bs.len() {
                assert(r1[k] == bs[k]);
            }
        }
    }
    lemma_add_new_book(r1, b2, c2);
}

/// Rendering depends on nothing but the books: two renderings of the same
/// library give the same documents, character for character.
pub proof fn lemma_rendering_repeats(s1: &BookShelf, s2: &BookShelf)
    requires
        s1@ == s2@,
    ensures
        s1.markdown() == s2.markdown(),
        content_text(s1@) == content_text(s2@),
        summary_text(s1@) == summary_text(s2@),
        forall|i: int|
            0 <= i < s1@.len() ==> book_markdown(#[trigger] s1@[i]) == book_markdown(s2@[i]),
{
}

} // verus!
