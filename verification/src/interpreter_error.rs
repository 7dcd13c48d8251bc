use vstd::prelude::*;

verus! {

/// Long-named counterpart of [`crate::interp_err::InterpErr`], kept for
/// callers that prefer spelled-out variant names.
#[derive(Clone, Copy, Debug, PartialEq, Eq, Structural)]
pub enum InterpreterError {
    AddingOverflow,
    CommandLine,
    NoFuelLeft,
    NoInput,
    NoLoopEnd,
    SubtractionOverflow,
    UnexpectedInstruction,
    UnexpectedLoopEnd,
}

} // verus!
