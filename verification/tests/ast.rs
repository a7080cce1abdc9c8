use brainfsym::ast::Insn;
use brainfsym::ast::ParseError;
use brainfsym::ast::Prog;

#[test]
fn test_parse() {
    assert_eq!(
        Prog::from_str(",>,[-<+>]<.").unwrap(),
        Prog(vec![
            Insn::In,
            Insn::Right,
            Insn::In,
            Insn::JmpIfZero(9),
            Insn::Dec,
            Insn::Left,
            Insn::Inc,
            Insn::Right,
            Insn::JmpIfNonZero(4),
            Insn::Left,
            Insn::Out
        ])
    );

    assert_eq!(
        Prog::from_str("+[>,]+[<.-]").unwrap(),
        Prog(vec![
            Insn::Inc,
            Insn::JmpIfZero(5),
            Insn::Right,
            Insn::In,
            Insn::JmpIfNonZero(2),
            Insn::Inc,
            Insn::JmpIfZero(11),
            Insn::Left,
            Insn::Out,
            Insn::Dec,
            Insn::JmpIfNonZero(7),
        ])
    );

    assert_eq!(
        Prog::from_str("[]").unwrap(),
        Prog(vec![Insn::JmpIfZero(2), Insn::JmpIfNonZero(1)])
    );

    assert_eq!(
        Prog::from_str("[][]").unwrap(),
        Prog(vec![
            Insn::JmpIfZero(2),
            Insn::JmpIfNonZero(1),
            Insn::JmpIfZero(4),
            Insn::JmpIfNonZero(3)
        ])
    );

    assert_eq!(
        Prog::from_str("[[]]").unwrap(),
        Prog(vec![
            Insn::JmpIfZero(4),
            Insn::JmpIfZero(3),
            Insn::JmpIfNonZero(2),
            Insn::JmpIfNonZero(1),
        ])
    );
}

#[test]
fn test_from_brainf() {
    assert_eq!(
        Prog::from_str(",>,[-<+>]<.").unwrap(),
        Prog(vec![
            Insn::In,
            Insn::Right,
            Insn::In,
            Insn::JmpIfZero(9),
            Insn::Dec,
            Insn::Left,
            Insn::Inc,
            Insn::Right,
            Insn::JmpIfNonZero(4),
            Insn::Left,
            Insn::Out
        ])
    );
}

#[test]
fn parse_rejects_unmatched_open() {
    assert_eq!(Prog::from_str("[").unwrap_err(), ParseError::UnmatchedOpen);
    assert_eq!(Prog::from_str("+[+[]").unwrap_err(), ParseError::UnmatchedOpen);
}

#[test]
fn parse_rejects_unmatched_close() {
    assert_eq!(Prog::from_str("]").unwrap_err(), ParseError::UnmatchedClose);
    assert_eq!(Prog::from_str("[]]").unwrap_err(), ParseError::UnmatchedClose);
}

#[test]
fn parse_empty_source() {
    assert_eq!(Prog::from_str("").unwrap(), Prog(vec![]));
}

#[test]
fn parse_ignores_other_bytes() {
    assert_eq!(
        Prog::from_str("a+# comment\n+").unwrap(),
        Prog(vec![Insn::Inc, Insn::Inc])
    );
}

#[test]
fn parse_result_ignores_filtered_bytes() {
    let noisy = "a+b[c-d]e.f";
    let clean = "+[-].";
    assert_eq!(Prog::from_str(noisy).unwrap(), Prog::from_str(clean).unwrap());
}
