use vstd::prelude::*;

verus! {

/// The error type of parsing a text. Every line parses, so no parse
/// produces it.
#[derive(Debug, Clone, Copy, PartialEq, Eq, Structural)]
pub enum MdError {
    Never,
}

} // verus!
