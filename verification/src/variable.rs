use vstd::prelude::*;

verus! {

/// A propositional variable. Variables are numbered in the order in which
/// their names are first met by the parser.
#[derive(Debug, Clone, Copy, PartialEq, Eq, Structural)]
pub struct Variable(pub u8);

impl Variable {
    /// The variable with the given number.
    pub fn new(name: u8) -> (var: Self)
        ensures
            var.0 == name,
    {
        Self(name)
    }
}

} // verus!
