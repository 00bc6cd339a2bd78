use vstd::prelude::*;

verus! {

/// The error kinds the engine reports: configuration errors (an unsupported
/// normalization form, an invalid pattern), training errors (an empty corpus,
/// a target vocabulary smaller than the base alphabet), and format errors
/// (a corrupt or version-mismatched persisted tokenizer).
#[derive(Clone, Copy, Debug, PartialEq, Eq, Structural)]
pub enum TokenizerError {
    Config,
    Training,
    Format,
}

impl TokenizerError {
    /// A short description of the error kind.
    pub fn describe(&self) -> (r: &'static str)
        ensures
            self is Config ==> r@ == "unsupported configuration"@,
            self is Training ==> r@ == "training failed"@,
            self is Format ==> r@ == "malformed persisted tokenizer"@,
    {
        match self {
            TokenizerError::Config => "unsupported configuration",
            TokenizerError::Training => "training failed",
            TokenizerError::Format => "malformed persisted tokenizer",
        }
    }
}

} // verus!
