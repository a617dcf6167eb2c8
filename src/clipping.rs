//! One highlighted passage of a book.

use crate::timestamp::Timestamp;
use crate::traits::Markdown;
use vstd::prelude::*;

verus! {

/// What a clipping holds.
pub struct ClippingModel {
    pub text: Seq<char>,
    pub position: Seq<char>,
    pub date_time: Timestamp,
    pub mark: Option<Seq<char>>,
}

pub open spec fn mark_view(mark: Option<String>) -> Option<Seq<char>> {
    match mark {
        Some(m) => Some(m@),
        None => None,
    }
}

/// The Markdown block of a clipping: the quoted text, then its timestamp
/// aligned to the right.
pub open spec fn clipping_markdown(c: ClippingModel) -> Seq<char> {
    "> &emsp; \n> "@ + c.text + "\n> \n> <p align=\"right\"> "@ + c.date_time.text()
        + " </p>\n> &emsp;\n"@
}

/// A highlighted passage: its text, where it stands in the book, and when it
/// was taken.
#[derive(Debug, PartialEq)]
pub struct Clipping {
    date_time: Timestamp,
    position: String,
    clipping: String,
    mark: Option<String>,
}

impl View for Clipping {
    type V = ClippingModel;

    closed spec fn view(&self) -> ClippingModel {
        ClippingModel {
            text: self.clipping@,
            position: self.position@,
            date_time: self.date_time,
            mark: mark_view(self.mark),
        }
    }
}

impl Clipping {
    #[verifier::type_invariant]
    spec fn inv(&self) -> bool {
        self.date_time.wf()
    }

    pub fn new(
        clipping: String,
        position: String,
        date_time: Timestamp,
        mark: Option<String>,
    ) -> (r: Clipping)
        requires
            date_time.wf(),
        ensures
            r@ == (ClippingModel {
                text: clipping@,
                position: position@,
                date_time,
                mark: mark_view(mark),
            }),
    {
        Clipping { date_time, position, clipping, mark }
    }

    /// The quoted text.
    pub fn text(&self) -> (r: &str)
        ensures
            r@ == self@.text,
    {
        self.clipping.as_str()
    }

    /// The position in the book, such as `#116-119`.
    pub fn position(&self) -> (r: &str)
        ensures
            r@ == self@.position,
    {
        self.position.as_str()
    }

    pub fn date_time(&self) -> (r: Timestamp)
        ensures
            r == self@.date_time,
            r.wf(),
    {
        proof {
            use_type_invariant(self);
        }
        self.date_time
    }
}

impl Markdown for Clipping {
    open spec fn markdown(&self) -> Seq<char> {
        clipping_markdown(self@)
    }

    fn to_markdown(&self) -> (r: String) {
        proof {
            use_type_invariant(self);
        }
        let mut s = String::from_str("> &emsp; \n> ");
        s.append(self.clipping.as_str());
        s.append("\n> \n> <p align=\"right\"> ");
        let t = self.date_time.to_text();
        s.append(t.as_str());
        s.append(" </p>\n> &emsp;\n");
        s
    }
}

} // verus!
