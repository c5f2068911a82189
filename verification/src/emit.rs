//! How a report is put in front of the code it is about.

use vstd::prelude::*;

verus! {

/// What was checked.
#[derive(Copy, Clone, Debug, PartialEq, Eq, Structural)]
pub enum Kind {
    /// The variants of an enum.
    Enum,
    /// The arms of a match expression.
    Match,
    /// The fields of a struct.
    Struct,
    /// The arms of the match expression that a `let` binds.
    Let,
}

impl Kind {
    /// Whether the report and the code go into one block. A match expression
    /// stands where one expression is expected, so the two are put in braces;
    /// an item or a statement takes the report in front of it as it is.
    pub fn in_block(self) -> (b: bool)
        ensures
            b == (self == Kind::Match),
    {
        match self {
            Kind::Enum | Kind::Let | Kind::Struct => false,
            Kind::Match => true,
        }
    }
}

} // verus!
