//! A book: its identity and the clippings taken from it.

use crate::clipping::{clipping_markdown, Clipping, ClippingModel};
use crate::text::{join, join_step, trim, trimmed};
use crate::traits::Markdown;
use vstd::prelude::*;

verus! {

/// What a book holds: title and author, trimmed, and its clippings in the
/// order they were added.
pub struct BookModel {
    pub title: Seq<char>,
    pub author: Seq<char>,
    pub clippings: Seq<ClippingModel>,
}

/// The Markdown document of a book: a heading with the title, the author,
/// and the clippings' blocks separated by carriage returns.
pub open spec fn book_markdown(b: BookModel) -> Seq<char> {
    "# "@ + b.title + " \nAuthor: `"@ + b.author + "` \n"@ + join(
        b.clippings.map_values(|c: ClippingModel| clipping_markdown(c)),
        "\r"@,
    )
}

#[derive(Debug, PartialEq)]
pub struct Book {
    title: String,
    author: String,
    clipping: Vec<Clipping>,
}

impl View for Book {
    type V = BookModel;

    closed spec fn view(&self) -> BookModel {
        BookModel {
            title: self.title@,
            author: self.author@,
            clippings: self.clipping@.map_values(|c: Clipping| c@),
        }
    }
}

impl Book {
    /// A book with no clippings yet; title and author are trimmed.
    pub fn new(title: String, author: String) -> (r: Book)
        ensures
            r@ == (BookModel { title: trim(title@), author: trim(author@), clippings: seq![] }),
    {
        let r = Book {
            title: trimmed(title.as_str()),
            author: trimmed(author.as_str()),
            clipping: Vec::new(),
        };
        assert(r@.clippings =~= seq![]);
        r
    }

    pub fn add_clipping(&mut self, clipping: Clipping)
        ensures
            final(self)@ == (BookModel {
                clippings: old(self)@.clippings.push(clipping@),
                ..old(self)@
            }),
    {
        self.clipping.push(clipping);
        assert(final(self)@.clippings =~= old(self)@.clippings.push(clipping@));
    }

    /// Drops every clipping, keeping title and author.
    pub fn clear_clippings(&mut self)
        ensures
            final(self)@ == (BookModel { clippings: seq![], ..old(self)@ }),
    {
        self.clipping = Vec::new();
        assert(final(self)@.clippings =~= seq![]);
    }

    /// Whether the two books have the same title and the same author.
    pub fn is_identical(&self, book: &Book) -> (r: bool)
        ensures
            r == (self@.title == book@.title && self@.author == book@.author),
    {
        self.author == book.author && self.title == book.title
    }

    pub fn get_title(&self) -> (r: &str)
        ensures
            r@ == self@.title,
    {
        self.title.as_str()
    }

    pub fn get_author(&self) -> (r: &str)
        ensures
            r@ == self@.author,
    {
        self.author.as_str()
    }

    /// The clippings, in the order they were added.
    pub fn clippings(&self) -> (r: &Vec<Clipping>)
        ensures
            r@.map_values(|c: Clipping| c@) == self@.clippings,
    {
        &self.clipping
    }
}

impl Markdown for Book {
    open spec fn markdown(&self) -> Seq<char> {
        book_markdown(self@)
    }

    fn to_markdown(&self) -> (r: String) {
        let ghost parts = self@.clippings.map_values(|c: ClippingModel| clipping_markdown(c));
        let mut body = String::new();
        let mut i: usize = 0;
        while i < self.clipping.len()
            invariant
                0 <= i <= self.clipping@.len(),
                parts.len() == self.clipping@.len(),
                parts == self@.clippings.map_values(|c: ClippingModel| clipping_markdown(c)),
                body@ == join(parts.take(i as int), "\r"@),
            decreases self.clipping@.len() - i,
        {
            let part = self.clipping[i].to_markdown();
            proof {
                assert(parts.take(i + 1).drop_last() =~= parts.take(i as int));
                assert(parts[i as int] == part@);
            }
            join_step(&mut body, "\r", part.as_str(), i == 0, Ghost(parts.take(i + 1)));
            i = i + 1;
        }
        assert(parts.take(i as int) =~= parts);
        let mut s = String::from_str("# ");
        s.append(self.title.as_str());
        s.append(" \nAuthor: `");
        s.append(self.author.as_str());
        s.append("` \n");
        s.append(body.as_str());
        s
    }
}

} // verus!
