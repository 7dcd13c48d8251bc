//! The mathematical model of a run: ghost command trees, the machine
//! state, and a fuel-indexed big-step evaluator that the executable
//! functions are proved against.

use vstd::prelude::*;

verus! {

use crate::interp_err::InterpErr;
use crate::tp::{Io, Tp};

/// Ghost mirror of the executable command type: the eight flat commands
/// plus the loop node owning its children as a sequence.
#[verifier::ext_equal]
pub enum CmdView {
    Dec,
    DecPtr,
    Inc,
    IncPtr,
    Lp(Seq<CmdView>),
    LpBg,
    LpEn,
    Ld,
    St,
}

/// The whole mutable state of a run: the tape's cells and cursor, the
/// input bytes not yet consumed, and the output bytes written so far.
#[verifier::ext_equal]
pub struct State {
    pub cells: Seq<u32>,
    pub ptr: nat,
    pub inpt: Seq<u8>,
    pub out: Seq<u8>,
}

/// How a (fuel-bounded) evaluation ended: normally, or on the error that
/// stopped it; either way with the state reached.
#[verifier::ext_equal]
pub enum Halt {
    Done(State),
    Fail(InterpErr, State),
}

/// The state a tape and the byte streams stand for.
pub open spec fn st_of(tp: Tp, io: Io) -> State {
    State { cells: tp.mem@, ptr: tp.ptr as nat, inpt: io.rem(), out: io.out@ }
}

/// An executable result and the state it was reached in, as a `Halt`.
pub open spec fn halt_of(r: Result<(), InterpErr>, st: State) -> Halt {
    match r {
        Ok(()) => Halt::Done(st),
        Err(e) => Halt::Fail(e, st),
    }
}

/// The cell under the cursor; an out-of-range cursor reads as zero.
pub open spec fn cell_at(st: State) -> u32 {
    if st.ptr < st.cells.len() {
        st.cells[st.ptr as int]
    } else {
        0u32
    }
}

/// Checked increment of the current cell; a no-op out of range.
pub open spec fn step_inc(st: State) -> Halt {
    if st.ptr < st.cells.len() {
        if st.cells[st.ptr as int] == u32::MAX {
            Halt::Fail(InterpErr::AddOvflw, st)
        } else {
            Halt::Done(
                State { cells: st.cells.update(st.ptr as int, (st.cells[st.ptr as int] + 1) as u32), ..st },
            )
        }
    } else {
        Halt::Done(st)
    }
}

/// Checked decrement of the current cell; a no-op out of range.
pub open spec fn step_dec(st: State) -> Halt {
    if st.ptr < st.cells.len() {
        if st.cells[st.ptr as int] == 0 {
            Halt::Fail(InterpErr::SubOvflw, st)
        } else {
            Halt::Done(
                State { cells: st.cells.update(st.ptr as int, (st.cells[st.ptr as int] - 1) as u32), ..st },
            )
        }
    } else {
        Halt::Done(st)
    }
}

/// Checked increment of the cursor, bounded by the address type only.
pub open spec fn step_inc_ptr(st: State) -> Halt {
    if st.ptr == usize::MAX as nat {
        Halt::Fail(InterpErr::AddOvflw, st)
    } else {
        Halt::Done(State { ptr: (st.ptr + 1) as nat, ..st })
    }
}

/// Checked decrement of the cursor, failing below zero.
pub open spec fn step_dec_ptr(st: State) -> Halt {
    if st.ptr == 0 {
        Halt::Fail(InterpErr::SubOvflw, st)
    } else {
        Halt::Done(State { ptr: (st.ptr - 1) as nat, ..st })
    }
}

/// Emit the current cell as one output byte when it is representable and
/// the cursor is in range; otherwise change nothing. Never fails.
pub open spec fn step_out(st: State) -> Halt {
    if st.ptr < st.cells.len() && st.cells[st.ptr as int] <= 255 {
        Halt::Done(State { out: st.out.push(st.cells[st.ptr as int] as u8), ..st })
    } else {
        Halt::Done(st)
    }
}

/// Consume one input byte and store it into the current cell (the store
/// is skipped out of range); fail when the input is exhausted.
pub open spec fn step_in(st: State) -> Halt {
    if st.inpt.len() == 0 {
        Halt::Fail(InterpErr::NoInpt, st)
    } else {
        Halt::Done(
            State {
                cells: if st.ptr < st.cells.len() {
                    st.cells.update(st.ptr as int, st.inpt[0] as u32)
                } else {
                    st.cells
                },
                inpt: st.inpt.drop_first(),
                ..st
            },
        )
    }
}

/// Evaluate one command. A loop re-reads the current cell before every
/// pass and spends one unit of fuel on each pass; fuel running out is the
/// `NoFuel` failure.
pub open spec fn eval_cmd(c: CmdView, st: State, fuel: nat) -> Halt
    decreases fuel,
{
    match c {
        CmdView::Dec => step_dec(st),
        CmdView::DecPtr => step_dec_ptr(st),
        CmdView::Inc => step_inc(st),
        CmdView::IncPtr => step_inc_ptr(st),
        CmdView::Ld => step_out(st),
        CmdView::St => step_in(st),
        CmdView::LpBg => Halt::Fail(InterpErr::UnexpInst, st),
        CmdView::LpEn => Halt::Fail(InterpErr::UnexpInst, st),
        CmdView::Lp(body) => {
            if cell_at(st) == 0 {
                Halt::Done(st)
            } else if fuel == 0 {
                Halt::Fail(InterpErr::NoFuel, st)
            } else {
                match eval_cmds(body, st, (fuel - 1) as nat) {
                    Halt::Done(st1) => eval_cmd(c, st1, (fuel - 1) as nat),
                    Halt::Fail(e, st1) => Halt::Fail(e, st1),
                }
            }
        },
    }
}

/// Evaluate a command sequence in order, stopping at the first failure;
/// each command evaluated spends one unit of fuel.
pub open spec fn eval_cmds(cs: Seq<CmdView>, st: State, fuel: nat) -> Halt
    decreases fuel,
{
    if cs.len() == 0 {
        Halt::Done(st)
    } else if fuel == 0 {
        Halt::Fail(InterpErr::NoFuel, st)
    } else {
        match eval_cmd(cs[0], st, (fuel - 1) as nat) {
            Halt::Done(st1) => eval_cmds(cs.drop_first(), st1, (fuel - 1) as nat),
            Halt::Fail(e, st1) => Halt::Fail(e, st1),
        }
    }
}

/// Marker weight of one command: a loop-begin opens, a loop-end closes.
pub open spec fn delta(c: CmdView) -> int {
    match c {
        CmdView::LpBg => 1,
        CmdView::LpEn => -1,
        _ => 0,
    }
}

/// Nesting depth left open after a command sequence: opens minus closes.
pub open spec fn dep(s: Seq<CmdView>) -> int
    decreases s.len(),
{
    if s.len() == 0 {
        0
    } else {
        dep(s.drop_last()) + delta(s.last())
    }
}

/// No prefix closes more loops than it has opened.
pub open spec fn no_neg_prefix(s: Seq<CmdView>) -> bool {
    forall|i: int| 0 <= i <= s.len() ==> #[trigger] dep(s.take(i)) >= 0
}

/// Every loop-begin has its loop-end at the same nesting depth.
pub open spec fn balanced(s: Seq<CmdView>) -> bool {
    dep(s) == 0 && no_neg_prefix(s)
}

/// A flat command: anything but a loop node.
pub open spec fn is_tok(c: CmdView) -> bool {
    !(c is Lp)
}

/// A sequence of flat commands, as the lexer produces them.
pub open spec fn is_toks(s: Seq<CmdView>) -> bool {
    forall|i: int| 0 <= i < s.len() ==> is_tok(#[trigger] s[i])
}

/// A well-formed instruction: markers are gone, and loop bodies are
/// well formed in turn.
pub open spec fn wf_instr(c: CmdView) -> bool
    decreases c,
{
    match c {
        CmdView::LpBg => false,
        CmdView::LpEn => false,
        CmdView::Lp(body) => wf_instrs(body),
        _ => true,
    }
}

/// A well-formed instruction tree.
pub open spec fn wf_instrs(s: Seq<CmdView>) -> bool
    decreases s,
{
    forall|i: int| 0 <= i < s.len() ==> wf_instr(#[trigger] s[i])
}

/// Write one instruction back out as the marker sequence it came from.
pub open spec fn flat1(c: CmdView) -> Seq<CmdView>
    decreases c,
{
    match c {
        CmdView::Lp(body) => seq![CmdView::LpBg] + flat(body) + seq![CmdView::LpEn],
        _ => seq![c],
    }
}

/// Write an instruction tree back out as its flat marker sequence.
pub open spec fn flat(s: Seq<CmdView>) -> Seq<CmdView>
    decreases s,
{
    if s.len() == 0 {
        Seq::empty()
    } else {
        flat1(s[0]) + flat(s.drop_first())
    }
}

/// Depth adds up over concatenation.
pub proof fn lemma_dep_add(a: Seq<CmdView>, b: Seq<CmdView>)
    ensures
        dep(a + b) == dep(a) + dep(b),
    decreases b.len(),
{
    if b.len() == 0 {
        assert(a + b =~= a);
    } else {
        assert((a + b).drop_last() =~= a + b.drop_last());
        assert((a + b).last() == b.last());
        lemma_dep_add(a, b.drop_last());
    }
}

/// Flattening distributes over concatenation.
pub proof fn lemma_flat_add(a: Seq<CmdView>, b: Seq<CmdView>)
    ensures
        flat(a + b) == flat(a) + flat(b),
    decreases a.len(),
{
    if a.len() == 0 {
        assert(a + b =~= b);
        assert(flat(a) + flat(b) =~= flat(b));
    } else {
        assert((a + b).drop_first() =~= a.drop_first() + b);
        assert((a + b)[0] == a[0]);
        lemma_flat_add(a.drop_first(), b);
        assert(flat1(a[0]) + (flat(a.drop_first()) + flat(b)) =~= (flat1(a[0]) + flat(
            a.drop_first(),
        )) + flat(b));
    }
}

/// Flattening a single instruction.
pub proof fn lemma_flat_one(c: CmdView)
    ensures
        flat(seq![c]) == flat1(c),
{
    assert(seq![c].drop_first() =~= Seq::<CmdView>::empty());
    assert(flat(Seq::<CmdView>::empty()) =~= Seq::<CmdView>::empty());
    assert(seq![c][0] == c);
    assert(flat1(c) + Seq::<CmdView>::empty() =~= flat1(c));
    assert(flat(seq![c]) =~= flat1(c));
}

/// The starting state of a run: a zeroed tape of `TP_LEN` cells with the
/// cursor at the midpoint, and the given byte streams.
pub open spec fn run_start(inpt: Seq<u8>, out: Seq<u8>) -> State {
    State {
        cells: Seq::new(crate::tp::TP_LEN as nat, |i: int| 0u32),
        ptr: crate::tp::TP_START as nat,
        inpt,
        out,
    }
}

/// A run's observable outcome agrees with an evaluation's halt: the same
/// result, and the same final byte streams. The tape itself is owned by
/// the run and dropped with it.
pub open spec fn halt_agrees(
    h: Halt,
    r: Result<(), InterpErr>,
    inpt_rem: Seq<u8>,
    out: Seq<u8>,
) -> bool {
    match h {
        Halt::Done(st) => r == Ok::<(), InterpErr>(()) && inpt_rem == st.inpt && out == st.out,
        Halt::Fail(e, st) => r == Err::<(), InterpErr>(e) && inpt_rem == st.inpt && out == st.out,
    }
}

/// A halt that the step budget did not cut short.
pub open spec fn settled(h: Halt) -> bool {
    match h {
        Halt::Done(_) => true,
        Halt::Fail(e, _) => e != InterpErr::NoFuel,
    }
}

/// Raising the fuel never changes a settled halt of one command.
pub proof fn lemma_eval_cmd_fuel_mono(c: CmdView, st: State, f1: nat, f2: nat)
    requires
        f1 <= f2,
        settled(eval_cmd(c, st, f1)),
    ensures
        eval_cmd(c, st, f2) == eval_cmd(c, st, f1),
    decreases f1,
{
    match c {
        CmdView::Lp(body) => {
            if cell_at(st) != 0 {
                match eval_cmds(body, st, (f1 - 1) as nat) {
                    Halt::Done(st1) => {
                        lemma_eval_cmds_fuel_mono(body, st, (f1 - 1) as nat, (f2 - 1) as nat);
                        lemma_eval_cmd_fuel_mono(c, st1, (f1 - 1) as nat, (f2 - 1) as nat);
                    },
                    Halt::Fail(_, _) => {
                        lemma_eval_cmds_fuel_mono(body, st, (f1 - 1) as nat, (f2 - 1) as nat);
                    },
                }
            }
        },
        _ => {},
    }
}

/// Raising the fuel never changes a settled halt of a command sequence.
pub proof fn lemma_eval_cmds_fuel_mono(cs: Seq<CmdView>, st: State, f1: nat, f2: nat)
    requires
        f1 <= f2,
        settled(eval_cmds(cs, st, f1)),
    ensures
        eval_cmds(cs, st, f2) == eval_cmds(cs, st, f1),
    decreases f1,
{
    if cs.len() > 0 {
        match eval_cmd(cs[0], st, (f1 - 1) as nat) {
            Halt::Done(st1) => {
                lemma_eval_cmd_fuel_mono(cs[0], st, (f1 - 1) as nat, (f2 - 1) as nat);
                lemma_eval_cmds_fuel_mono(cs.drop_first(), st1, (f1 - 1) as nat, (f2 - 1) as nat);
            },
            Halt::Fail(_, _) => {
                lemma_eval_cmd_fuel_mono(cs[0], st, (f1 - 1) as nat, (f2 - 1) as nat);
            },
        }
    }
}

/// Execution is deterministic: on the same program and the same starting
/// state, any two evaluations that were not cut short by their step
/// budgets halt identically — same result, same final cells and cursor,
/// same bytes consumed and written.
pub proof fn lemma_eval_deterministic(cs: Seq<CmdView>, st: State, f1: nat, f2: nat)
    requires
        settled(eval_cmds(cs, st, f1)),
        settled(eval_cmds(cs, st, f2)),
    ensures
        eval_cmds(cs, st, f1) == eval_cmds(cs, st, f2),
{
    if f1 <= f2 {
        lemma_eval_cmds_fuel_mono(cs, st, f1, f2);
    } else {
        lemma_eval_cmds_fuel_mono(cs, st, f2, f1);
    }
}

/// Equal heads and equal tails make equal sequences.
pub proof fn lemma_cons_eq(t1: Seq<CmdView>, t2: Seq<CmdView>)
    requires
        t1.len() > 0,
        t2.len() > 0,
        t1[0] == t2[0],
        t1.drop_first() == t2.drop_first(),
    ensures
        t1 == t2,
{
    assert(t1.len() == t1.drop_first().len() + 1);
    assert(t2.len() == t2.drop_first().len() + 1);
    assert forall|i: int| 0 <= i < t1.len() implies t1[i] == t2[i] by {
        if i > 0 {
            assert(t1[i] == t1.drop_first()[i - 1]);
            assert(t2[i] == t2.drop_first()[i - 1]);
        }
    }
    assert(t1 =~= t2);
}

/// Depth of the empty sequence and of the two marker singletons.
pub proof fn lemma_dep_units()
    ensures
        dep(Seq::<CmdView>::empty()) == 0,
        dep(seq![CmdView::LpBg]) == 1,
        dep(seq![CmdView::LpEn]) == -1,
{
    assert(dep(Seq::<CmdView>::empty()) == 0);
    assert(seq![CmdView::LpBg].drop_last() =~= Seq::<CmdView>::empty());
    assert(seq![CmdView::LpBg].last() == CmdView::LpBg);
    assert(dep(seq![CmdView::LpBg]) == dep(Seq::<CmdView>::empty()) + 1);
    assert(seq![CmdView::LpEn].drop_last() =~= Seq::<CmdView>::empty());
    assert(seq![CmdView::LpEn].last() == CmdView::LpEn);
    assert(dep(seq![CmdView::LpEn]) == dep(Seq::<CmdView>::empty()) - 1);
}

/// Any instruction writes back out as at least one marker or command.
pub proof fn lemma_flat1_len(c: CmdView)
    ensures
        flat1(c).len() >= 1,
{
}

/// Balance is kept under concatenation.
pub proof fn lemma_balanced_add(a: Seq<CmdView>, b: Seq<CmdView>)
    requires
        balanced(a),
        balanced(b),
    ensures
        balanced(a + b),
{
    lemma_dep_add(a, b);
    assert forall|m: int| 0 <= m <= (a + b).len() implies #[trigger] dep((a + b).take(m)) >= 0 by {
        if m <= a.len() {
            assert((a + b).take(m) =~= a.take(m));
            assert(dep(a.take(m)) >= 0);
        } else {
            assert((a + b).take(m) =~= a + b.take(m - a.len()));
            lemma_dep_add(a, b.take(m - a.len()));
            assert(dep(b.take(m - a.len())) >= 0);
        }
    }
}

/// A well-formed instruction flattens to a balanced marker sequence.
pub proof fn lemma_flat1_balanced(c: CmdView)
    requires
        wf_instr(c),
    ensures
        balanced(flat1(c)),
    decreases c,
{
    match c {
        CmdView::Lp(body) => {
            lemma_flat_balanced(body);
            let f = flat1(c);
            lemma_dep_units();
            lemma_dep_add(seq![CmdView::LpBg], flat(body));
            lemma_dep_add(seq![CmdView::LpBg] + flat(body), seq![CmdView::LpEn]);
            assert(dep(f) == 0);
            assert forall|m: int| 0 <= m <= f.len() implies #[trigger] dep(f.take(m)) >= 0 by {
                if m == 0 {
                    assert(f.take(0) =~= Seq::<CmdView>::empty());
                } else if m <= 1 + flat(body).len() {
                    assert(f.take(m) =~= seq![CmdView::LpBg] + flat(body).take(m - 1));
                    lemma_dep_add(seq![CmdView::LpBg], flat(body).take(m - 1));
                    assert(dep(flat(body).take(m - 1)) >= 0);
                } else {
                    assert(f.take(m) =~= f);
                }
            }
        },
        _ => {
            let f = flat1(c);
            lemma_dep_units();
            assert(f =~= seq![c]);
            assert(seq![c].drop_last() =~= Seq::<CmdView>::empty());
            assert(seq![c].last() == c);
            assert(dep(f) == dep(Seq::<CmdView>::empty()) + delta(c));
            assert forall|m: int| 0 <= m <= f.len() implies #[trigger] dep(f.take(m)) >= 0 by {
                if m == 0 {
                    assert(f.take(0) =~= Seq::<CmdView>::empty());
                } else {
                    assert(f.take(m) =~= f);
                }
            }
        },
    }
}

/// A well-formed instruction tree flattens to a balanced marker
/// sequence.
pub proof fn lemma_flat_balanced(s: Seq<CmdView>)
    requires
        wf_instrs(s),
    ensures
        balanced(flat(s)),
    decreases s,
{
    if s.len() == 0 {
        assert(dep(flat(s)) == 0);
        assert forall|m: int| 0 <= m <= flat(s).len() implies #[trigger] dep(flat(s).take(m)) >= 0 by {
            assert(flat(s).take(m) =~= Seq::<CmdView>::empty());
        }
    } else {
        assert(wf_instr(s[0]));
        assert forall|i: int| 0 <= i < s.drop_first().len() implies wf_instr(
            #[trigger] s.drop_first()[i],
        ) by {
            assert(s.drop_first()[i] == s[i + 1]);
            assert(wf_instr(s[i + 1]));
        }
        lemma_flat1_balanced(s[0]);
        lemma_flat_balanced(s.drop_first());
        lemma_balanced_add(flat1(s[0]), flat(s.drop_first()));
    }
}

/// Two balanced sequences followed by a loop-end marker split a common
/// sequence the same way: the close that returns the depth to zero is
/// unique.
pub proof fn lemma_balanced_unique_split(
    a1: Seq<CmdView>,
    x: Seq<CmdView>,
    a2: Seq<CmdView>,
    y: Seq<CmdView>,
)
    requires
        balanced(a1),
        balanced(a2),
        a1 + seq![CmdView::LpEn] + x == a2 + seq![CmdView::LpEn] + y,
    ensures
        a1 == a2,
        x == y,
{
    let lhs = a1 + seq![CmdView::LpEn] + x;
    if a1.len() < a2.len() {
        let m = a1.len() as int;
        assert(lhs.take(m + 1) =~= a1 + seq![CmdView::LpEn]);
        lemma_dep_units();
        lemma_dep_add(a1, seq![CmdView::LpEn]);
        assert(dep(lhs.take(m + 1)) == -1);
        assert(lhs.take(m + 1) =~= a2.take(m + 1));
        assert(dep(a2.take(m + 1)) >= 0);
        assert(false);
    }
    if a2.len() < a1.len() {
        let m = a2.len() as int;
        assert(lhs.take(m + 1) =~= a2 + seq![CmdView::LpEn]);
        lemma_dep_units();
        lemma_dep_add(a2, seq![CmdView::LpEn]);
        assert(dep(lhs.take(m + 1)) == -1);
        assert(lhs.take(m + 1) =~= a1.take(m + 1));
        assert(dep(a1.take(m + 1)) >= 0);
        assert(false);
    }
    let rhs = a2 + seq![CmdView::LpEn] + y;
    assert forall|i: int| 0 <= i < a1.len() implies a1[i] == a2[i] by {
        assert(a1[i] == lhs[i]);
        assert(a2[i] == rhs[i]);
    }
    assert(a1 =~= a2);
    assert(lhs == rhs);
    assert(lhs.len() == a1.len() + 1 + x.len());
    assert(rhs.len() == a2.len() + 1 + y.len());
    assert(x.len() == y.len());
    assert forall|i: int| 0 <= i < x.len() implies x[i] == y[i] by {
        assert(x[i] == lhs[i + a1.len() + 1]);
        assert(y[i] == rhs[i + a2.len() + 1]);
    }
    assert(x =~= y);
}

/// Flattening is one-to-one on well-formed instruction trees: the loop
/// nodes of a tree correspond one-to-one to the matched marker pairs of
/// its flat form, nested alike, so the flat form determines the tree.
pub proof fn lemma_flat_injective(t1: Seq<CmdView>, t2: Seq<CmdView>)
    requires
        wf_instrs(t1),
        wf_instrs(t2),
        flat(t1) == flat(t2),
    ensures
        t1 == t2,
    decreases flat(t1).len(),
{
    if t1.len() == 0 {
        if t2.len() > 0 {
            lemma_flat1_len(t2[0]);
            assert(false);
        }
        assert(t1 =~= t2);
    } else if t2.len() == 0 {
        lemma_flat1_len(t1[0]);
        assert(false);
    } else {
        let c1 = t1[0];
        let r1 = t1.drop_first();
        let c2 = t2[0];
        let r2 = t2.drop_first();
        assert(wf_instr(c1));
        assert(wf_instr(c2));
        assert forall|i: int| 0 <= i < r1.len() implies wf_instr(#[trigger] r1[i]) by {
            assert(r1[i] == t1[i + 1]);
            assert(wf_instr(t1[i + 1]));
        }
        assert forall|i: int| 0 <= i < r2.len() implies wf_instr(#[trigger] r2[i]) by {
            assert(r2[i] == t2[i + 1]);
            assert(wf_instr(t2[i + 1]));
        }
        lemma_flat1_len(c1);
        lemma_flat1_len(c2);

        match (c1, c2) {
            (CmdView::Lp(b1), CmdView::Lp(b2)) => {
                lemma_flat_balanced(b1);
                lemma_flat_balanced(b2);
                assert(flat(t1).skip(1) =~= flat(b1) + seq![CmdView::LpEn] + flat(r1));
                assert(flat(t2).skip(1) =~= flat(b2) + seq![CmdView::LpEn] + flat(r2));
                lemma_balanced_unique_split(flat(b1), flat(r1), flat(b2), flat(r2));
                lemma_flat_injective(b1, b2);
                lemma_flat_injective(r1, r2);
                assert(c1 == c2);
                lemma_cons_eq(t1, t2);
            },
            _ => {
                if c1 is Lp && !(c2 is Lp) {
                    assert(flat(t1)[0] == CmdView::LpBg);
                    assert(flat(t2)[0] == c2);
                    assert(false);
                } else if !(c1 is Lp) && c2 is Lp {
                    assert(flat(t1)[0] == c1);
                    assert(flat(t2)[0] == CmdView::LpBg);
                    assert(false);
                } else {
                    assert(flat(t1)[0] == c1);
                    assert(flat(t2)[0] == c2);
                    assert(c1 == c2);
                    assert(flat(r1) =~= flat(t1).skip(1));
                    assert(flat(r2) =~= flat(t2).skip(1));
                    lemma_flat_injective(r1, r2);
                    lemma_cons_eq(t1, t2);
                }
            },
        }
    }
}

/// The well-formed instruction tree that flattens to the given marker
/// sequence; by `lemma_flat_injective` there is at most one.
pub open spec fn tree_of(toks: Seq<CmdView>) -> Seq<CmdView> {
    choose|t: Seq<CmdView>| wf_instrs(t) && flat(t) == toks
}

/// A well-formed tree is the tree of its own flat form.
pub proof fn lemma_tree_of(t: Seq<CmdView>)
    requires
        wf_instrs(t),
    ensures
        tree_of(flat(t)) == t,
{
    assert(wf_instrs(t) && flat(t) == flat(t));
    assert(wf_instrs(tree_of(flat(t))) && flat(tree_of(flat(t))) == flat(t));
    lemma_flat_injective(tree_of(flat(t)), t);
}

} // verus!
