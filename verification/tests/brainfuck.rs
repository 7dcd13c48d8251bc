use esolang::brainfuck::{exec, lex, parse, run, Cmd};
use esolang::interp_err::InterpErr;
use esolang::tp::{Io, Tp, TP_START};

const FUEL: u64 = 1_000_000;

#[test]
fn lex_single_cmds() {
    let inpt = ">".as_bytes();
    let res = lex(inpt);

    assert_eq!(res, vec![Cmd::IncPtr]);

    let inpt = "<".as_bytes();
    let res = lex(inpt);

    assert_eq!(res, vec![Cmd::DecPtr]);

    let inpt = "+".as_bytes();
    let res = lex(inpt);

    assert_eq!(res, vec![Cmd::Inc]);

    let inpt = "-".as_bytes();
    let res = lex(inpt);

    assert_eq!(res, vec![Cmd::Dec]);

    let inpt = ".".as_bytes();
    let res = lex(inpt);

    assert_eq!(res, vec![Cmd::Ld]);

    let inpt = ",".as_bytes();
    let res = lex(inpt);

    assert_eq!(res, vec![Cmd::St]);

    let inpt = "[".as_bytes();
    let res = lex(inpt);

    assert_eq!(res, vec![Cmd::LpBg]);

    let inpt = "]".as_bytes();
    let res = lex(inpt);

    assert_eq!(res, vec![Cmd::LpEn]);
}

#[test]
fn lex_multi_cmds() {
    let inpt = "><+-.,[]".as_bytes();
    let res = lex(inpt);

    assert_eq!(
        res,
        vec![
            Cmd::IncPtr,
            Cmd::DecPtr,
            Cmd::Inc,
            Cmd::Dec,
            Cmd::Ld,
            Cmd::St,
            Cmd::LpBg,
            Cmd::LpEn
        ]
    );

    let inpt = "][,.-+<>".as_bytes();
    let res = lex(inpt);

    assert_eq!(
        res,
        vec![
            Cmd::LpEn,
            Cmd::LpBg,
            Cmd::St,
            Cmd::Ld,
            Cmd::Dec,
            Cmd::Inc,
            Cmd::DecPtr,
            Cmd::IncPtr,
        ]
    );

    let inpt = "ABCDEFGHIJKLMNOPRSTUWXYZ".as_bytes();
    let res = lex(inpt);

    assert_eq!(res, vec![]);

    let inpt = "abcdefghijklmnoprstuwxyz".as_bytes();
    let res = lex(inpt);

    assert_eq!(res, vec![]);

    let inpt = "1234567890".as_bytes();
    let res = lex(inpt);

    assert_eq!(res, vec![]);

    let inpt = "a>b<c+d-e.f,g[h]i".as_bytes();
    let res = lex(inpt);

    assert_eq!(
        res,
        vec![
            Cmd::IncPtr,
            Cmd::DecPtr,
            Cmd::Inc,
            Cmd::Dec,
            Cmd::Ld,
            Cmd::St,
            Cmd::LpBg,
            Cmd::LpEn
        ]
    );
}

#[test]
fn parse_single_cmds() {
    let cmds = vec![Cmd::IncPtr];
    let res = parse(&cmds).unwrap();

    assert_eq!(res, vec![Cmd::IncPtr]);

    let cmds = vec![Cmd::DecPtr];
    let res = parse(&cmds).unwrap();

    assert_eq!(res, vec![Cmd::DecPtr]);

    let cmds = vec![Cmd::Inc];
    let res = parse(&cmds).unwrap();

    assert_eq!(res, vec![Cmd::Inc]);

    let cmds = vec![Cmd::Dec];
    let res = parse(&cmds).unwrap();

    assert_eq!(res, vec![Cmd::Dec]);

    let cmds = vec![Cmd::Ld];
    let res = parse(&cmds).unwrap();

    assert_eq!(res, vec![Cmd::Ld]);

    let cmds = vec![Cmd::St];
    let res = parse(&cmds).unwrap();

    assert_eq!(res, vec![Cmd::St]);

    let cmds = vec![Cmd::LpBg, Cmd::LpEn];
    let res = parse(&cmds).unwrap();

    assert_eq!(res, vec![Cmd::Lp(vec![])]);
}

#[test]
fn parse_multi_cmds() {
    let cmds = vec![
        Cmd::IncPtr,
        Cmd::DecPtr,
        Cmd::Inc,
        Cmd::Dec,
        Cmd::Ld,
        Cmd::St,
        Cmd::LpBg,
        Cmd::LpEn,
    ];
    let res = parse(&cmds).unwrap();

    assert_eq!(
        res,
        vec![
            Cmd::IncPtr,
            Cmd::DecPtr,
            Cmd::Inc,
            Cmd::Dec,
            Cmd::Ld,
            Cmd::St,
            Cmd::Lp(vec![]),
        ]
    );

    let cmds = vec![Cmd::Inc, Cmd::LpBg, Cmd::Inc, Cmd::LpEn, Cmd::Inc];
    let res = parse(&cmds).unwrap();

    assert_eq!(res, vec![Cmd::Inc, Cmd::Lp(vec![Cmd::Inc]), Cmd::Inc]);

    let cmds = vec![
        Cmd::Inc,
        Cmd::LpBg,
        Cmd::Inc,
        Cmd::LpBg,
        Cmd::Inc,
        Cmd::LpEn,
        Cmd::Inc,
        Cmd::LpEn,
        Cmd::Inc,
    ];
    let res = parse(&cmds).unwrap();

    assert_eq!(
        res,
        vec![
            Cmd::Inc,
            Cmd::Lp(vec![Cmd::Inc, Cmd::Lp(vec![Cmd::Inc]), Cmd::Inc]),
            Cmd::Inc
        ]
    );

    let cmds = vec![
        Cmd::Inc,
        Cmd::LpBg,
        Cmd::Inc,
        Cmd::LpBg,
        Cmd::Inc,
        Cmd::LpEn,
        Cmd::LpBg,
        Cmd::Inc,
        Cmd::LpEn,
        Cmd::Inc,
        Cmd::LpEn,
        Cmd::Inc,
    ];
    let res = parse(&cmds).unwrap();

    assert_eq!(
        res,
        vec![
            Cmd::Inc,
            Cmd::Lp(vec![
                Cmd::Inc,
                Cmd::Lp(vec![Cmd::Inc]),
                Cmd::Lp(vec![Cmd::Inc]),
                Cmd::Inc
            ]),
            Cmd::Inc
        ]
    );

    let cmds = vec![
        Cmd::Inc,
        Cmd::LpBg,
        Cmd::Inc,
        Cmd::LpBg,
        Cmd::Inc,
        Cmd::LpBg,
        Cmd::Inc,
        Cmd::LpEn,
        Cmd::Inc,
        Cmd::LpEn,
        Cmd::LpBg,
        Cmd::Inc,
        Cmd::LpBg,
        Cmd::Inc,
        Cmd::LpEn,
        Cmd::Inc,
        Cmd::LpEn,
        Cmd::Inc,
        Cmd::LpEn,
        Cmd::Inc,
    ];
    let res = parse(&cmds).unwrap();

    assert_eq!(
        res,
        vec![
            Cmd::Inc,
            Cmd::Lp(vec![
                Cmd::Inc,
                Cmd::Lp(vec![Cmd::Inc, Cmd::Lp(vec![Cmd::Inc]), Cmd::Inc]),
                Cmd::Lp(vec![Cmd::Inc, Cmd::Lp(vec![Cmd::Inc]), Cmd::Inc]),
                Cmd::Inc
            ]),
            Cmd::Inc
        ]
    );

    let cmds = vec![
        Cmd::Inc,
        Cmd::LpBg,
        Cmd::Inc,
        Cmd::LpBg,
        Cmd::Inc,
        Cmd::LpBg,
        Cmd::Inc,
        Cmd::LpEn,
        Cmd::Inc,
        Cmd::LpEn,
        Cmd::LpBg,
        Cmd::Inc,
        Cmd::LpBg,
        Cmd::Inc,
        Cmd::LpEn,
        Cmd::Inc,
        Cmd::LpEn,
        Cmd::Inc,
        Cmd::LpEn,
        Cmd::Inc,
        Cmd::Inc,
        Cmd::LpBg,
        Cmd::Inc,
        Cmd::LpBg,
        Cmd::Inc,
        Cmd::LpBg,
        Cmd::Inc,
        Cmd::LpEn,
        Cmd::Inc,
        Cmd::LpEn,
        Cmd::LpBg,
        Cmd::Inc,
        Cmd::LpBg,
        Cmd::Inc,
        Cmd::LpEn,
        Cmd::Inc,
        Cmd::LpEn,
        Cmd::Inc,
        Cmd::LpEn,
        Cmd::Inc,
    ];
    let res = parse(&cmds).unwrap();

    assert_eq!(
        res,
        vec![
            Cmd::Inc,
            Cmd::Lp(vec![
                Cmd::Inc,
                Cmd::Lp(vec![Cmd::Inc, Cmd::Lp(vec![Cmd::Inc]), Cmd::Inc]),
                Cmd::Lp(vec![Cmd::Inc, Cmd::Lp(vec![Cmd::Inc]), Cmd::Inc]),
                Cmd::Inc
            ]),
            Cmd::Inc,
            Cmd::Inc,
            Cmd::Lp(vec![
                Cmd::Inc,
                Cmd::Lp(vec![Cmd::Inc, Cmd::Lp(vec![Cmd::Inc]), Cmd::Inc]),
                Cmd::Lp(vec![Cmd::Inc, Cmd::Lp(vec![Cmd::Inc]), Cmd::Inc]),
                Cmd::Inc
            ]),
            Cmd::Inc
        ]
    );
}

#[test]
fn parse_lone_loop_end_fails() {
    let cmds = vec![Cmd::LpEn];
    assert_eq!(parse(&cmds), Err(InterpErr::UnexpLpEn));

    let cmds = vec![Cmd::Inc, Cmd::LpBg, Cmd::LpEn, Cmd::LpEn];
    assert_eq!(parse(&cmds), Err(InterpErr::UnexpLpEn));
}

#[test]
fn parse_lone_loop_begin_fails() {
    let cmds = vec![Cmd::LpBg];
    assert_eq!(parse(&cmds), Err(InterpErr::NoLpEn));

    let cmds = vec![Cmd::LpBg, Cmd::Inc, Cmd::LpBg, Cmd::Inc, Cmd::LpEn];
    assert_eq!(parse(&cmds), Err(InterpErr::NoLpEn));
}

#[test]
fn parse_empty_input_and_empty_loop() {
    let cmds: Vec<Cmd> = vec![];
    assert_eq!(parse(&cmds).unwrap(), vec![]);

    let cmds = vec![Cmd::LpBg, Cmd::LpEn];
    assert_eq!(parse(&cmds).unwrap(), vec![Cmd::Lp(vec![])]);
}

#[test]
fn run_increment_chain_outputs_h() {
    let src = "++++++++[>++++[>++>+++>+++>+<<<<-]>+>+>->>+[<]<-]>>.".as_bytes();
    let mut io = Io::new(vec![]);

    assert_eq!(run(src, &mut io, FUEL), Ok(()));
    assert_eq!(io.out, vec![b'H']);
}

#[test]
fn run_input_echo() {
    let src = ",.".as_bytes();
    let mut io = Io::new(vec![65]);

    assert_eq!(run(src, &mut io, FUEL), Ok(()));
    assert_eq!(io.out, vec![65]);
    assert_eq!(io.pos, 1);
}

#[test]
fn run_clear_loop_zeroes_cell() {
    let cmds = lex("[-]".as_bytes());
    let parsed_cmds = parse(&cmds).unwrap();

    let mut tp = Tp::new();
    tp.inc().unwrap();
    tp.inc().unwrap();
    tp.inc().unwrap();
    assert_eq!(tp.get(), 3);

    let mut io = Io::new(vec![]);
    assert_eq!(exec(&parsed_cmds, &mut tp, &mut io, FUEL), Ok(()));
    assert_eq!(tp.get(), 0);
    assert_eq!(tp.mem[TP_START], 0);
    assert_eq!(io.out, Vec::<u8>::new());
}

#[test]
fn run_unmatched_loop_end_fails_before_any_effect() {
    let src = "]".as_bytes();
    let mut io = Io::new(vec![7]);

    assert_eq!(run(src, &mut io, FUEL), Err(InterpErr::UnexpLpEn));
    assert_eq!(io.out, Vec::<u8>::new());
    assert_eq!(io.pos, 0);
}

#[test]
fn run_unterminated_loop_fails() {
    let src = "+[".as_bytes();
    let mut io = Io::new(vec![]);

    assert_eq!(run(src, &mut io, FUEL), Err(InterpErr::NoLpEn));
    assert_eq!(io.out, Vec::<u8>::new());
}

#[test]
fn run_endless_loop_exhausts_fuel() {
    let src = "+[]".as_bytes();
    let mut io = Io::new(vec![]);

    assert_eq!(run(src, &mut io, 1000), Err(InterpErr::NoFuel));
}

#[test]
fn run_input_exhausted_fails() {
    let src = ",".as_bytes();
    let mut io = Io::new(vec![]);

    assert_eq!(run(src, &mut io, FUEL), Err(InterpErr::NoInpt));
}

#[test]
fn run_comment_bytes_are_skipped() {
    let src = "read one byte , and echo it back . done".as_bytes();
    let mut io = Io::new(vec![42]);

    assert_eq!(run(src, &mut io, FUEL), Ok(()));
    assert_eq!(io.out, vec![42]);
}

#[test]
fn exec_rejects_marker_left_in_tree() {
    let cmds = vec![Cmd::LpBg];
    let mut tp = Tp::new();
    let mut io = Io::new(vec![]);

    assert_eq!(exec(&cmds, &mut tp, &mut io, 10), Err(InterpErr::UnexpInst));

    let cmds = vec![Cmd::LpEn];
    assert_eq!(exec(&cmds, &mut tp, &mut io, 10), Err(InterpErr::UnexpInst));
}

#[test]
fn run_is_deterministic() {
    let src = "++[>+++<-]>.".as_bytes();

    let mut io1 = Io::new(vec![]);
    let r1 = run(src, &mut io1, FUEL);
    let mut io2 = Io::new(vec![]);
    let r2 = run(src, &mut io2, FUEL);

    assert_eq!(r1, r2);
    assert_eq!(io1.out, io2.out);
    assert_eq!(io1.out, vec![6]);
}
