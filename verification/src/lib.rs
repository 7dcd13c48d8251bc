//! An interpreter for a minimal tape-based esoteric language: source
//! bytes are lexed into flat commands, structurally parsed into a
//! nested loop tree, and executed against a bounded, checked memory
//! tape.
//!
//! Every stage carries a full functional contract. The lexer is an
//! order-preserving filter of the recognized bytes; the parser returns
//! the one well-formed tree whose flattening is the token sequence, or
//! says exactly which marker imbalance stopped it; the executor is
//! proved equal to a fuel-indexed big-step evaluator over a ghost
//! machine state. The fuel is an explicit step budget a caller hands
//! in — the language itself has no step limit, so a caller that wants
//! an unbounded run passes the largest budget the type offers —
//! and exhausting it is a distinguished failure, kept apart from the
//! arithmetic, cursor and input failures by the evaluator and its
//! determinism lemma alike.

pub mod brainfuck;
pub mod interp_err;
pub mod interpreter_error;
pub mod sem;
pub mod tp;
