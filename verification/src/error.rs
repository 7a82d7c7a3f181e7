//! The ways in which reading a tree can fail.
use vstd::prelude::*;

verus! {

/// Why a text could not be read as a tree.
#[derive(Clone, Copy, Debug, PartialEq, Eq, Structural)]
pub enum ParseError {
    /// The text holds fewer than two structural tokens, too few to form a tree.
    StructuralError,
    /// An opening token is the last structural token, so nothing ends its label.
    UnterminatedLabel,
    /// A closing token was met while no node was open.
    UnbalancedClosingToken,
    /// The bytes of a label are not valid UTF-8.
    InvalidEncoding,
    /// An opening token was met after the root had been closed, so the node
    /// it starts has no parent.
    MultipleRoots,
}

impl ParseError {
    /// The text of [`ParseError::message`].
    pub open spec fn spec_message(self) -> Seq<char> {
        match self {
            ParseError::StructuralError => "input has too few structural tokens to form a tree"@,
            ParseError::UnterminatedLabel => "an opening token has no token after it to end its label"@,
            ParseError::UnbalancedClosingToken => "a closing token has no open node to close"@,
            ParseError::InvalidEncoding => "a label is not valid UTF-8"@,
            ParseError::MultipleRoots => "an opening token follows the end of the root"@,
        }
    }

    /// A sentence that describes the failure, one per kind.
    pub fn message(&self) -> (msg: &'static str)
        ensures
            msg@ == self.spec_message(),
    {
        match self {
            ParseError::StructuralError => "input has too few structural tokens to form a tree",
            ParseError::UnterminatedLabel => "an opening token has no token after it to end its label",
            ParseError::UnbalancedClosingToken => "a closing token has no open node to close",
            ParseError::InvalidEncoding => "a label is not valid UTF-8",
            ParseError::MultipleRoots => "an opening token follows the end of the root",
        }
    }
}

} // verus!
