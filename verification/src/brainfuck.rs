//! The three-stage pipeline over the tape: lexing source bytes to flat
//! commands, structural parsing of loop markers into a nested command
//! tree, and tree-walking execution.

use vstd::prelude::*;

verus! {

use vstd::slice::{slice_index_get, slice_subrange};

use crate::interp_err::InterpErr;
use crate::sem::{balanced, dep, eval_cmd, eval_cmds, flat, flat1, halt_agrees, halt_of, is_tok,
    is_toks, lemma_dep_add, lemma_flat_add, lemma_flat_one, lemma_tree_of, no_neg_prefix,
    run_start, st_of, tree_of, wf_instrs, CmdView, Halt};
use crate::tp::{Io, Tp};

/// One command. The lexer produces only the eight flat variants; the
/// parser consumes the two markers and produces trees whose `Lp` nodes
/// own their bodies.
#[derive(Debug, PartialEq)]
pub enum Cmd {
    Dec,
    DecPtr,
    Inc,
    IncPtr,
    Lp(Vec<Cmd>),
    LpBg,
    LpEn,
    Ld,
    St,
}

impl Cmd {
    /// The ghost tree a command stands for.
    pub open spec fn view(self) -> CmdView
        decreases self,
    {
        match self {
            Cmd::Dec => CmdView::Dec,
            Cmd::DecPtr => CmdView::DecPtr,
            Cmd::Inc => CmdView::Inc,
            Cmd::IncPtr => CmdView::IncPtr,
            Cmd::Lp(body) => CmdView::Lp(view_cmds(body@)),
            Cmd::LpBg => CmdView::LpBg,
            Cmd::LpEn => CmdView::LpEn,
            Cmd::Ld => CmdView::Ld,
            Cmd::St => CmdView::St,
        }
    }
}

/// The ghost trees a command sequence stands for, elementwise.
pub open spec fn view_cmds(s: Seq<Cmd>) -> Seq<CmdView>
    decreases s,
{
    if s.len() == 0 {
        Seq::empty()
    } else {
        seq![s[0].view()] + view_cmds(s.drop_first())
    }
}

/// The eight recognized symbol bytes: `>` `<` `+` `-` `.` `,` `[` `]`.
pub const SYM_INC_PTR: u8 = 62;

pub const SYM_DEC_PTR: u8 = 60;

pub const SYM_INC: u8 = 43;

pub const SYM_DEC: u8 = 45;

pub const SYM_LD: u8 = 46;

pub const SYM_ST: u8 = 44;

pub const SYM_LP_BG: u8 = 91;

pub const SYM_LP_EN: u8 = 93;

/// The bytes the lexer recognizes.
pub open spec fn is_sym(b: u8) -> bool {
    b == SYM_INC_PTR || b == SYM_DEC_PTR || b == SYM_INC || b == SYM_DEC || b == SYM_LD
        || b == SYM_ST || b == SYM_LP_BG || b == SYM_LP_EN
}

/// The command a recognized byte stands for; any other byte is dropped.
pub open spec fn tok_of(b: u8) -> Option<CmdView> {
    if b == SYM_INC_PTR {
        Some(CmdView::IncPtr)
    } else if b == SYM_DEC_PTR {
        Some(CmdView::DecPtr)
    } else if b == SYM_INC {
        Some(CmdView::Inc)
    } else if b == SYM_DEC {
        Some(CmdView::Dec)
    } else if b == SYM_LD {
        Some(CmdView::Ld)
    } else if b == SYM_ST {
        Some(CmdView::St)
    } else if b == SYM_LP_BG {
        Some(CmdView::LpBg)
    } else if b == SYM_LP_EN {
        Some(CmdView::LpEn)
    } else {
        None
    }
}

/// What lexing a byte sequence yields: each recognized byte becomes its
/// command, in order; every other byte is dropped.
pub open spec fn lex_spec(s: Seq<u8>) -> Seq<CmdView>
    decreases s.len(),
{
    if s.len() == 0 {
        Seq::empty()
    } else {
        lex_spec(s.drop_last()) + (match tok_of(s.last()) {
            Some(t) => seq![t],
            None => Seq::empty(),
        })
    }
}

/// Elementwise facts about the ghost view of a command sequence.
pub proof fn lemma_view_cmds_len(s: Seq<Cmd>)
    ensures
        view_cmds(s).len() == s.len(),
        forall|i: int| 0 <= i < s.len() ==> #[trigger] view_cmds(s)[i] == s[i].view(),
    decreases s.len(),
{
    if s.len() > 0 {
        lemma_view_cmds_len(s.drop_first());
    }
}

/// The ghost view of a command sequence grows elementwise with a push.
pub proof fn lemma_view_cmds_push(s: Seq<Cmd>, c: Cmd)
    ensures
        view_cmds(s.push(c)) == view_cmds(s) + seq![c.view()],
    decreases s.len(),
{
    if s.len() == 0 {
        assert(s =~= Seq::<Cmd>::empty());
        assert(s.push(c).drop_first() =~= Seq::<Cmd>::empty());
        reveal_with_fuel(view_cmds, 2);
        assert(view_cmds(s.push(c)) =~= view_cmds(s) + seq![c.view()]);
    } else {
        assert(s.push(c).drop_first() =~= s.drop_first().push(c));
        lemma_view_cmds_push(s.drop_first(), c);
        assert(view_cmds(s.push(c)) =~= view_cmds(s) + seq![c.view()]);
    }
}

/// Convert raw source bytes into the flat command sequence, dropping
/// every byte that is not one of the eight recognized symbols. Total and
/// order-preserving; never fails.
pub fn lex(inpt: &[u8]) -> (cmds: Vec<Cmd>)
    ensures
        view_cmds(cmds@) == lex_spec(inpt@),
{
    let mut cmds: Vec<Cmd> = Vec::new();
    let mut off: usize = 0;

    while off < inpt.len()
        invariant
            off <= inpt@.len(),
            view_cmds(cmds@) == lex_spec(inpt@.take(off as int)),
        decreases inpt@.len() - off,
    {
        let c = inpt[off];
        let cmd = match c {
            SYM_INC_PTR => Some(Cmd::IncPtr),
            SYM_DEC_PTR => Some(Cmd::DecPtr),
            SYM_INC => Some(Cmd::Inc),
            SYM_DEC => Some(Cmd::Dec),
            SYM_LD => Some(Cmd::Ld),
            SYM_ST => Some(Cmd::St),
            SYM_LP_BG => Some(Cmd::LpBg),
            SYM_LP_EN => Some(Cmd::LpEn),
            _ => None,
        };

        proof {
            assert(inpt@.take(off as int + 1).drop_last() =~= inpt@.take(off as int));
            assert(inpt@.take(off as int + 1).last() == inpt@[off as int]);
        }
        if let Some(cmd) = cmd {
            proof {
                lemma_view_cmds_push(cmds@, cmd);
            }
            cmds.push(cmd);
        }

        off = off + 1;
    }
    proof {
        assert(inpt@.take(inpt@.len() as int) =~= inpt@);
    }

    cmds
}

/// The ghost view of a contiguous piece is the piece of the ghost view.
pub proof fn lemma_view_cmds_subrange(s: Seq<Cmd>, a: int, b: int)
    requires
        0 <= a <= b <= s.len(),
    ensures
        view_cmds(s.subrange(a, b)) == view_cmds(s).subrange(a, b),
{
    lemma_view_cmds_len(s);
    lemma_view_cmds_len(s.subrange(a, b));
    assert(view_cmds(s.subrange(a, b)) =~= view_cmds(s).subrange(a, b));
}

/// Build the nested instruction tree from the flat command sequence by
/// matching loop markers. A loop-end met with no loop open fails at
/// once; a loop left open at the end of the input fails after the scan;
/// every sequence with balanced markers parses, and flattening the tree
/// yields the input back.
pub fn parse(cmds: &[Cmd]) -> (r: Result<Vec<Cmd>, InterpErr>)
    requires
        is_toks(view_cmds(cmds@)),
    ensures
        match r {
            Ok(out) => balanced(view_cmds(cmds@)) && wf_instrs(view_cmds(out@)) && flat(
                view_cmds(out@),
            ) == view_cmds(cmds@) && view_cmds(out@) == tree_of(view_cmds(cmds@)),
            Err(e) => !balanced(view_cmds(cmds@)) && e == (if no_neg_prefix(view_cmds(cmds@)) {
                InterpErr::NoLpEn
            } else {
                InterpErr::UnexpLpEn
            }),
        },
    decreases cmds@.len(),
{
    let ghost v = view_cmds(cmds@);
    proof {
        lemma_view_cmds_len(cmds@);
    }
    let mut parsed_cmds: Vec<Cmd> = Vec::new();
    let mut lp_bg: usize = 0;
    let mut lp_stck: usize = 0;
    let n: usize = cmds.len();
    let mut i: usize = 0;

    while i < n
        invariant
            v == view_cmds(cmds@),
            is_toks(v),
            v.len() == cmds@.len(),
            forall|k: int| 0 <= k < cmds@.len() ==> v[k] == #[trigger] cmds@[k].view(),
            n == cmds@.len(),
            i <= n,
            lp_stck <= i,
            lp_stck as int == dep(v.take(i as int)),
            forall|j: int| 0 <= j <= i ==> #[trigger] dep(v.take(j)) >= 0,
            lp_stck > 0 ==> lp_bg < i && v[lp_bg as int] == CmdView::LpBg && dep(
                v.take(lp_bg as int),
            ) == 0 && (forall|j: int| lp_bg < j <= i ==> #[trigger] dep(v.take(j)) >= 1),
            wf_instrs(view_cmds(parsed_cmds@)),
            flat(view_cmds(parsed_cmds@)) == v.take(
                if lp_stck == 0 {
                    i as int
                } else {
                    lp_bg as int
                },
            ),
        decreases n - i,
    {
        proof {
            assert(v.take(i as int + 1).drop_last() =~= v.take(i as int));
            assert(v.take(i as int + 1).last() == v[i as int]);
        }
        let cmd = slice_index_get(cmds, i);

        if lp_stck == 0 {
            let parsed_cmd: Option<Cmd> = match cmd {
                Cmd::Dec => Some(Cmd::Dec),
                Cmd::DecPtr => Some(Cmd::DecPtr),
                Cmd::Inc => Some(Cmd::Inc),
                Cmd::IncPtr => Some(Cmd::IncPtr),
                Cmd::Ld => Some(Cmd::Ld),
                Cmd::Lp(_) => {
                    proof {
                        assert(cmds@[i as int] is Lp);
                        assert(v[i as int] == cmds@[i as int].view());
                        assert(!is_tok(v[i as int]));
                        assert(false);
                    }
                    return Err(InterpErr::UnexpInst);
                },
                Cmd::LpBg => {
                    lp_bg = i;
                    lp_stck = 1;
                    None
                },
                Cmd::LpEn => {
                    proof {
                        assert(cmds@[i as int] is LpEn);
                        assert(v[i as int] == CmdView::LpEn);
                        assert(dep(v.take(i as int + 1)) == -1);
                        assert(no_neg_prefix(v) ==> dep(v.take(i as int + 1)) >= 0);
                    }
                    return Err(InterpErr::UnexpLpEn);
                },
                Cmd::St => Some(Cmd::St),
            };

            if let Some(parsed_cmd) = parsed_cmd {
                proof {
                    lemma_view_cmds_push(parsed_cmds@, parsed_cmd);
                    lemma_flat_add(view_cmds(parsed_cmds@), seq![parsed_cmd.view()]);
                    lemma_flat_one(parsed_cmd.view());
                    assert(v.take(i as int) + seq![v[i as int]] =~= v.take(i as int + 1));
                }
                parsed_cmds.push(parsed_cmd);
            }
        } else {
            match cmd {
                Cmd::LpBg => {
                    lp_stck = lp_stck + 1;
                },
                Cmd::LpEn => {
                    lp_stck = lp_stck - 1;

                    if lp_stck == 0 {
                        let ghost inner = v.subrange(lp_bg as int + 1, i as int);
                        proof {
                            lemma_view_cmds_subrange(cmds@, lp_bg as int + 1, i as int);
                            // The region between the matched markers is balanced.
                            assert(v.take(lp_bg as int + 1).drop_last() =~= v.take(lp_bg as int));
                            assert(v.take(lp_bg as int + 1).last() == v[lp_bg as int]);
                            assert(dep(v.take(lp_bg as int + 1)) == 1);
                            assert(v.take(i as int) =~= v.take(lp_bg as int + 1) + inner);
                            lemma_dep_add(v.take(lp_bg as int + 1), inner);
                            assert(dep(inner) == 0);
                            assert forall|m: int| 0 <= m <= inner.len() implies #[trigger] dep(
                                inner.take(m),
                            ) >= 0 by {
                                assert(v.take(lp_bg as int + 1 + m) =~= v.take(lp_bg as int + 1)
                                    + inner.take(m));
                                lemma_dep_add(v.take(lp_bg as int + 1), inner.take(m));
                                assert(dep(v.take(lp_bg as int + 1 + m)) >= 1);
                            }
                            assert(balanced(inner));
                            assert forall|k: int| 0 <= k < inner.len() implies is_tok(
                                #[trigger] inner[k],
                            ) by {
                                assert(inner[k] == v[lp_bg as int + 1 + k]);
                            }
                        }
                        let sub_slice = slice_subrange(cmds, lp_bg + 1, i);
                        let sub = match parse(sub_slice) {
                            Ok(sub) => sub,
                            Err(e) => {
                                proof {
                                    assert(false);
                                }
                                return Err(e);
                            },
                        };
                        proof {
                            lemma_view_cmds_push(parsed_cmds@, Cmd::Lp(sub));
                            lemma_flat_add(view_cmds(parsed_cmds@), seq![CmdView::Lp(view_cmds(sub@))]);
                            lemma_flat_one(CmdView::Lp(view_cmds(sub@)));
                            assert(v.take(i as int + 1) =~= v.take(lp_bg as int) + (seq![
                                CmdView::LpBg] + inner + seq![CmdView::LpEn]));
                        }
                        parsed_cmds.push(Cmd::Lp(sub));
                    }
                },
                _ => {},
            }
        }

        i = i + 1;
    }

    if lp_stck != 0 {
        proof {
            assert(v.take(n as int) =~= v);
        }
        return Err(InterpErr::NoLpEn);
    }
    proof {
        assert(v.take(n as int) =~= v);
        lemma_tree_of(view_cmds(parsed_cmds@));
    }

    Ok(parsed_cmds)
}

/// Walk an instruction tree against the tape and the byte streams: each
/// node dispatches to its tape operation, and a loop node re-runs its
/// body while the cell under the cursor is nonzero. `fuel` bounds how
/// deep the walk may go — one unit per command reached and per loop
/// pass — and running out of it is the `NoFuel` failure; any other
/// failure of a tape operation aborts the walk at once.
pub fn exec(cmds: &Vec<Cmd>, tp: &mut Tp, io: &mut Io, fuel: u64) -> (r: Result<(), InterpErr>)
    requires
        old(io).wf(),
    ensures
        final(io).wf(),
        final(io).inpt@ == old(io).inpt@,
        halt_of(r, st_of(*final(tp), *final(io))) == eval_cmds(
            view_cmds(cmds@),
            st_of(*old(tp), *old(io)),
            fuel as nat,
        ),
    decreases fuel,
{
    let ghost st0 = st_of(*old(tp), *old(io));
    let ghost v = view_cmds(cmds@);
    proof {
        lemma_view_cmds_len(cmds@);
    }
    let n: usize = cmds.len();
    let mut k: u64 = fuel;
    let mut i: usize = 0;
    proof {
        assert(v.skip(0) =~= v);
    }

    while i < n
        invariant
            old(io).wf(),
            io.wf(),
            io.inpt@ == old(io).inpt@,
            st0 == st_of(*old(tp), *old(io)),
            v == view_cmds(cmds@),
            v.len() == cmds@.len(),
            forall|m: int| 0 <= m < cmds@.len() ==> v[m] == #[trigger] cmds@[m].view(),
            n == cmds@.len(),
            i <= n,
            k <= fuel,
            eval_cmds(v, st0, fuel as nat) == eval_cmds(v.skip(i as int), st_of(*tp, *io), k as nat),
        decreases n - i,
    {
        let ghost st_entry = st_of(*tp, *io);
        proof {
            assert(v.skip(i as int).len() > 0);
            assert(v.skip(i as int)[0] == v[i as int]);
            assert(v.skip(i as int).drop_first() =~= v.skip(i as int + 1));
        }

        if k == 0 {
            return Err(InterpErr::NoFuel);
        }
        k = k - 1;

        let cmd = &cmds[i];
        proof {
            assert(*cmd == cmds@[i as int]);
            assert(v[i as int] == cmds@[i as int].view());
        }
        let res: Result<(), InterpErr> = match cmd {
            Cmd::Dec => tp.dec(),
            Cmd::DecPtr => tp.dec_ptr(),
            Cmd::Inc => tp.inc(),
            Cmd::IncPtr => tp.inc_ptr(),
            Cmd::Ld => tp.print(io),
            Cmd::St => {
                let ghost pos0 = io.pos;
                let res = tp.read(io);
                proof {
                    assert(st_entry.inpt =~= io.inpt@.skip(pos0 as int));
                    if pos0 < io.inpt@.len() {
                        assert(st_entry.inpt[0] == io.inpt@[pos0 as int]);
                        assert(st_entry.inpt.drop_first() =~= io.inpt@.skip(pos0 as int + 1));
                    }
                }
                res
            },
            Cmd::LpBg => Err(InterpErr::UnexpInst),
            Cmd::LpEn => Err(InterpErr::UnexpInst),
            Cmd::Lp(body) => {
                let ghost lp = v[i as int];
                proof {
                    assert(cmds@[i as int] is Lp);
                    assert(lp == cmds@[i as int].view());
                    assert(lp == CmdView::Lp(view_cmds(body@)));
                }
                let mut j: u64 = k;

                while tp.get() != 0
                    invariant
                        old(io).wf(),
                        io.wf(),
                        io.inpt@ == old(io).inpt@,
                        st0 == st_of(*old(tp), *old(io)),
                        v == view_cmds(cmds@),
                        lp == CmdView::Lp(view_cmds(body@)),
                        j <= k,
                        k < fuel,
                        eval_cmd(lp, st_entry, k as nat) == eval_cmd(lp, st_of(*tp, *io), j as nat),
                        (eval_cmd(lp, st_entry, k as nat) is Fail) ==> eval_cmds(v, st0, fuel as nat)
                            == eval_cmd(lp, st_entry, k as nat),
                    decreases j,
                {
                    if j == 0 {
                        return Err(InterpErr::NoFuel);
                    }
                    j = j - 1;

                    match exec(body, tp, io, j) {
                        Ok(()) => {},
                        Err(e) => {
                            return Err(e);
                        },
                    }
                }

                proof {
                    assert(eval_cmd(lp, st_of(*tp, *io), j as nat) == Halt::Done(st_of(*tp, *io)));
                }
                Ok(())
            },
        };
        proof {
            assert(halt_of(res, st_of(*tp, *io)) == eval_cmd(v[i as int], st_entry, k as nat));
            assert(eval_cmds(v.skip(i as int), st_entry, (k + 1) as nat) == (match eval_cmd(
                v[i as int],
                st_entry,
                k as nat,
            ) {
                Halt::Done(st1) => eval_cmds(v.skip(i as int + 1), st1, k as nat),
                Halt::Fail(e, st1) => Halt::Fail(e, st1),
            }));
        }
        match res {
            Ok(()) => {},
            Err(e) => {
                return Err(e);
            },
        }

        i = i + 1;
    }
    proof {
        assert(v.skip(n as int) =~= Seq::<CmdView>::empty());
    }

    Ok(())
}

/// The lexer yields flat commands only: no loop node stands in its
/// output.
pub proof fn lemma_lex_toks(s: Seq<u8>)
    ensures
        is_toks(lex_spec(s)),
    decreases s.len(),
{
    if s.len() == 0 {
        assert(lex_spec(s).len() == 0);
    } else {
        lemma_lex_toks(s.drop_last());
        let pre = lex_spec(s.drop_last());
        assert forall|i: int| 0 <= i < lex_spec(s).len() implies is_tok(#[trigger] lex_spec(s)[i]) by {
            match tok_of(s.last()) {
                Some(t) => {
                    assert(lex_spec(s) == pre + seq![t]);
                    if i < pre.len() {
                        assert(lex_spec(s)[i] == pre[i]);
                    } else {
                        assert(lex_spec(s)[i] == t);
                    }
                },
                None => {
                    assert(lex_spec(s) == pre);
                },
            }
        }
    }
}

/// Interpret a source program: lex it, parse it, and execute the tree
/// against a fresh tape, reading program input from `io` and appending
/// program output to it. Parsing precedes all execution, so a program
/// with unbalanced markers fails with the streams untouched.
pub fn run(inpt: &[u8], io: &mut Io, fuel: u64) -> (r: Result<(), InterpErr>)
    requires
        old(io).wf(),
    ensures
        final(io).wf(),
        final(io).inpt@ == old(io).inpt@,
        !no_neg_prefix(lex_spec(inpt@)) ==> r == Err::<(), InterpErr>(InterpErr::UnexpLpEn)
            && final(io).pos == old(io).pos && final(io).out@ == old(io).out@,
        no_neg_prefix(lex_spec(inpt@)) && dep(lex_spec(inpt@)) != 0 ==> r == Err::<(
            ),
            InterpErr,
        >(InterpErr::NoLpEn) && final(io).pos == old(io).pos && final(io).out@ == old(io).out@,
        balanced(lex_spec(inpt@)) ==> halt_agrees(
            eval_cmds(
                tree_of(lex_spec(inpt@)),
                run_start(old(io).rem(), old(io).out@),
                fuel as nat,
            ),
            r,
            final(io).rem(),
            final(io).out@,
        ),
{
    let cmds = lex(inpt);
    proof {
        lemma_lex_toks(inpt@);
    }
    let parsed_cmds = match parse(cmds.as_slice()) {
        Ok(parsed_cmds) => parsed_cmds,
        Err(e) => {
            return Err(e);
        },
    };
    let ghost t = view_cmds(parsed_cmds@);
    proof {
        assert(t == tree_of(lex_spec(inpt@)));
    }

    let mut tp = Tp::new();
    proof {
        assert(st_of(tp, *io) =~= run_start(old(io).rem(), old(io).out@));
    }

    match exec(&parsed_cmds, &mut tp, io, fuel) {
        Ok(()) => {},
        Err(e) => {
            proof {
                assert(halt_agrees(
                    eval_cmds(t, run_start(old(io).rem(), old(io).out@), fuel as nat),
                    Err::<(), InterpErr>(e),
                    io.rem(),
                    io.out@,
                ));
            }
            return Err(e);
        },
    }
    proof {
        assert(halt_agrees(
            eval_cmds(t, run_start(old(io).rem(), old(io).out@), fuel as nat),
            Ok::<(), InterpErr>(()),
            io.rem(),
            io.out@,
        ));
    }

    Ok(())
}

/// The source with every unrecognized byte removed: the symbol bytes
/// alone, kept in their order.
pub open spec fn syms(s: Seq<u8>) -> Seq<u8>
    decreases s.len(),
{
    if s.len() == 0 {
        Seq::empty()
    } else if is_sym(s.last()) {
        syms(s.drop_last()).push(s.last())
    } else {
        syms(s.drop_last())
    }
}

/// Lexing is a total, order-preserving filter: the commands are exactly
/// the recognized bytes of the source, one each, in their original
/// order.
pub proof fn lemma_lex_filter(s: Seq<u8>)
    ensures
        lex_spec(s).len() == syms(s).len(),
        forall|i: int| 0 <= i < lex_spec(s).len() ==> Some(#[trigger] lex_spec(s)[i]) == tok_of(
            syms(s)[i],
        ),
    decreases s.len(),
{
    if s.len() == 0 {
        assert(lex_spec(s).len() == 0);
        assert(syms(s).len() == 0);
    } else {
        lemma_lex_filter(s.drop_last());
        let pre_lex = lex_spec(s.drop_last());
        let pre_fil = syms(s.drop_last());
        let fil = syms(s);
        if is_sym(s.last()) {
            assert(tok_of(s.last()) is Some);
            assert(lex_spec(s) == pre_lex + seq![tok_of(s.last())->0]);
            assert(fil == pre_fil.push(s.last()));
            assert forall|i: int| 0 <= i < lex_spec(s).len() implies Some(
                #[trigger] lex_spec(s)[i],
            ) == tok_of(fil[i]) by {
                if i < pre_lex.len() {
                    assert(lex_spec(s)[i] == pre_lex[i]);
                    assert(fil[i] == pre_fil[i]);
                } else {
                    assert(lex_spec(s)[i] == tok_of(s.last())->0);
                    assert(fil[i] == s.last());
                }
            }
        } else {
            assert(tok_of(s.last()) is None);
            assert(lex_spec(s) == pre_lex);
            assert(fil == pre_fil);
        }
    }
}

} // verus!
