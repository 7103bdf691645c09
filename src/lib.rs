use vstd::prelude::*;

pub mod document;
pub mod error;
pub mod html;
pub mod inline;
pub mod md;
pub mod queue;

pub use html::HTML;
pub use md::MarkDown;

verus! {

} // verus!
