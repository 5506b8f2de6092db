use vstd::prelude::*;

verus! {

/// The ways in which the model of a program can fail to represent a construct.
#[derive(Clone, Copy, Debug, PartialEq, Eq, Structural)]
pub enum AdvisorError {
    /// The root name of a path is bound nowhere along the active scope chain.
    PathNotFound,
    /// An owned binding is read at its exact path after it was moved.
    UseAfterMove,
    /// The root of a path is bound, but the path continues with a field that the
    /// binding does not have.
    UnresolvedField,
    /// A dereference of an operand that is no reference to a binding.
    Undereferenceable,
}

} // verus!
