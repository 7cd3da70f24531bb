use vstd::prelude::*;

verus! {

/// Why a pattern was rejected. A rejected pattern yields no automaton.
#[derive(Clone, Copy, Debug, PartialEq, Eq, Structural)]
pub enum CompileError {
    /// A group that is closed without having been opened, or a token
    /// sequence that does not reduce to exactly one expression.
    SyntaxError,
    /// The pattern is well formed but its automaton needs more than 64 nodes.
    CapacityError,
}

} // verus!
