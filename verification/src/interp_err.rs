use vstd::prelude::*;

verus! {

/// The failure conditions of a run: the two parse errors, the checked
/// arithmetic and cursor errors, input exhaustion, and an exhausted
/// step budget.
#[derive(Clone, Copy, Debug, PartialEq, Eq, Structural)]
pub enum InterpErr {
    AddOvflw,
    CmdLn,
    NoFuel,
    NoInpt,
    NoLpEn,
    SubOvflw,
    UnexpInst,
    UnexpLpEn,
}

} // verus!
