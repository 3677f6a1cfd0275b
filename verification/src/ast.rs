//! A parsed Tailwind class, as the merge reads it.
use vstd::prelude::*;
use crate::text::views;

verus! {

/// One class of a class list, split into its parts: `hover:!-mt-[3px]` has
/// the variant `hover`, is important, and so on.
#[derive(Debug, PartialEq, Eq)]
pub struct AstStyle {
    /// The class exactly as it was written.
    pub source: String,
    /// Whether the class carries the important marker `!`.
    pub important: bool,
    /// The variants (modifiers) before the class, in written order.
    pub variants: Vec<String>,
    /// The dash-separated parts of the class name.
    pub elements: Vec<String>,
    /// The content of an arbitrary value or property in brackets, if any.
    pub arbitrary: Option<String>,
}

/// The mathematical content of an [`AstStyle`].
pub struct StyleView {
    pub source: Seq<char>,
    pub important: bool,
    pub variants: Seq<Seq<char>>,
    pub elements: Seq<Seq<char>>,
    pub arbitrary: Option<Seq<char>>,
}

/// The characters of an optional string.
pub open spec fn opt_chars(s: Option<String>) -> Option<Seq<char>> {
    match s {
        Some(s) => Some(s@),
        None => None,
    }
}

impl View for AstStyle {
    type V = StyleView;

    open spec fn view(&self) -> StyleView {
        StyleView {
            source: self.source@,
            important: self.important,
            variants: views(self.variants@),
            elements: views(self.elements@),
            arbitrary: opt_chars(self.arbitrary),
        }
    }
}

} // verus!
