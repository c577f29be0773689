//! What can go wrong while an automaton is compiled.

use vstd::prelude::*;

verus! {

/// What can go wrong while an automaton is compiled.
#[derive(Clone, Copy, Debug, PartialEq, Eq, Structural)]
pub enum Error {
    /// The automaton would have more states than the caller allows.
    TooManyStates,
}

impl Error {
    /// The error in words.
    pub open spec fn description_spec(self) -> Seq<char> {
        match self {
            Error::TooManyStates => "State overflow"@,
        }
    }

    /// The error in words.
    pub fn description(&self) -> (r: &'static str)
        ensures
            r@ == self.description_spec(),
    {
        match self {
            Error::TooManyStates => "State overflow",
        }
    }
}

} // verus!
