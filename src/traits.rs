//! Rendering to Markdown.

use vstd::prelude::*;

verus! {

/// A value that has a Markdown rendering.
pub trait Markdown {
    /// The Markdown text of the value.
    spec fn markdown(&self) -> Seq<char>;

    fn to_markdown(&self) -> (r: String)
        ensures
            r@ == self.markdown(),
    ;
}

} // verus!
