use std::rc::Rc;

use brainfsym::ast::Prog;
use brainfsym::cached_solver::CachedSolver;
use brainfsym::path_group::PathGroup;

const MAX_STEPS: usize = 5_000_000;

#[test]
fn test_add() {
    let solver = CachedSolver::new();

    let prog = Prog::from_str(",>,[-<+>]<.").unwrap();
    let mut path_group = PathGroup::make_entry(Rc::new(prog), 16, solver);
    let res = path_group.explore_until_output(&[2], MAX_STEPS).unwrap();
    assert_eq!(res.input.iter().sum::<u8>(), 2);
}

#[test]
fn test_rev() {
    let solver = CachedSolver::new();

    let prog = Prog::from_str("+[>,]+[<.-]").unwrap();
    let mut path_group = PathGroup::make_entry(Rc::new(prog), 16, solver);
    let res = path_group.explore_until_output(b"ABC", MAX_STEPS).unwrap();
    assert_eq!(res.input, b"CBA\x00");
}

#[test]
fn output_matches_target_exactly() {
    let solver = CachedSolver::new();
    let prog = Prog::from_str(",.").unwrap();
    let mut path_group = PathGroup::make_entry(Rc::new(prog), 4, solver);
    let res = path_group.explore_until_output(&[42], MAX_STEPS).unwrap();
    assert_eq!(res.output, vec![42u8]);
    assert_eq!(res.input, vec![42u8]);
}

#[test]
fn no_input_opcodes_returns_empty_input() {
    let solver = CachedSolver::new();
    let prog = Prog::from_str("+.").unwrap();
    let mut path_group = PathGroup::make_entry(Rc::new(prog), 4, solver);
    let res = path_group.explore_until_output(&[1], MAX_STEPS).unwrap();
    assert_eq!(res.input, Vec::<u8>::new());
    assert_eq!(res.output, vec![1u8]);
}

#[test]
fn empty_program_empty_target() {
    let solver = CachedSolver::new();
    let prog = Prog::from_str("").unwrap();
    let mut path_group = PathGroup::make_entry(Rc::new(prog), 1, solver);
    let res = path_group.explore_until_output(&[], MAX_STEPS).unwrap();
    assert_eq!(res.output, Vec::<u8>::new());
    assert_eq!(res.input, Vec::<u8>::new());
    assert_eq!(res.mem, vec![0u8]);
}

#[test]
fn unreachable_target_returns_none() {
    let solver = CachedSolver::new();
    // The program halts immediately, so no path ever emits a byte.
    let prog = Prog::from_str("+").unwrap();
    let mut path_group = PathGroup::make_entry(Rc::new(prog), 4, solver);
    assert!(path_group.explore_until_output(&[9], MAX_STEPS).is_none());
}
