use std::rc::Rc;

use brainfsym::ast::Prog;
use brainfsym::cached_solver::CachedSolver;
use brainfsym::cached_solver::Error;
use brainfsym::expr::BoolExpr;
use brainfsym::expr::SymByte;
use brainfsym::state::State;

#[test]
fn test_state_clone_eq() {
    let prog = Prog::from_str(",>,[-<+>]<.").unwrap();
    let state = State::make_entry(Rc::new(prog), 16);
    assert_eq!(state, state);
    assert_eq!(state.clone(), state);
    assert_eq!(state.clone(), state.clone());
}

#[test]
fn state_test_state_clone_eq() {
    let prog = Prog::from_str(",>,[-<+>]<.").unwrap();
    let state = State::make_entry(Rc::new(prog), 16);
    assert_eq!(state, state);
    assert_eq!(state.clone(), state);
    assert_eq!(state.clone(), state.clone());
}

#[test]
fn state_eq_symmetric_transitive() {
    let a = State::make_entry(Rc::new(Prog::from_str("+[>,]").unwrap()), 8);
    let b = State::make_entry(Rc::new(Prog::from_str("+[>,]").unwrap()), 8);
    let c = a.clone();
    assert!(a == b && b == a);
    assert!(a == b && b == c && a == c);
    let d = State::make_entry(Rc::new(Prog::from_str("+[>,]").unwrap()), 9);
    assert!(a != d && d != a);
}

#[test]
fn step_counts_and_jump_targets() {
    // `[]` lowers to [jump-if-zero(2), jump-if-nonzero(1)]; stepping the
    // entry state forks into exactly the taken branch (which has already
    // terminated, since its cell is the constant zero) and the
    // fall-through branch.
    let prog = Prog::from_str("[]").unwrap();
    let entry = State::make_entry(Rc::new(prog), 4);
    let succs = entry.step();
    assert_eq!(succs.len(), 2);
    assert_eq!(succs[0].insn_ptr, 2);
    assert_eq!(succs[1].insn_ptr, 1);
    assert!(succs[0].exited());
    assert!(!succs[1].exited());

    // A straight-line opcode has exactly one successor.
    let prog = Prog::from_str("+").unwrap();
    let entry = State::make_entry(Rc::new(prog), 4);
    let succs = entry.step();
    assert_eq!(succs.len(), 1);
    assert_eq!(succs[0].insn_ptr, 1);

    // A terminated state has none.
    assert_eq!(succs[0].step().len(), 0);
}

#[test]
fn step_preserves_tape_and_data_pointer() {
    let prog = Prog::from_str("><+-.,[]").unwrap();
    let mut pending = vec![State::make_entry(Rc::new(prog), 3)];
    let mut seen: usize = 0;
    while let Some(s) = pending.pop() {
        if seen > 64 {
            break;
        }
        for t in s.step() {
            assert_eq!(t.mem.0.len(), s.mem.0.len());
            assert!(t.data_ptr < t.mem.0.len());
            seen += 1;
            pending.push(t);
        }
    }
}

#[test]
fn input_bytes_are_named_in_order() {
    let prog = Prog::from_str(",>,").unwrap();
    let entry = State::make_entry(Rc::new(prog), 4);
    let s1 = entry.step().pop().unwrap();
    assert!(s1.input.0[0] == SymByte::Var(0));
    assert!(s1.mem.0[0] == SymByte::Var(0));
    let s2 = s1.step().pop().unwrap();
    let s3 = s2.step().pop().unwrap();
    assert_eq!(s3.input.0.len(), 2);
    assert!(s3.input.0[1] == SymByte::Var(1));
    assert!(s3.mem.0[1] == SymByte::Var(1));
}

#[test]
fn cell_arithmetic_folds_constants() {
    let prog = Prog::from_str("++-").unwrap();
    let entry = State::make_entry(Rc::new(prog), 2);
    let s1 = entry.step().pop().unwrap();
    assert!(s1.mem.0[0] == SymByte::Const(1));
    let s2 = s1.step().pop().unwrap();
    assert!(s2.mem.0[0] == SymByte::Const(2));
    let s3 = s2.step().pop().unwrap();
    assert!(s3.mem.0[0] == SymByte::Const(1));
}

#[test]
fn check_sat_and_concretize() {
    let prog = Prog::from_str(",").unwrap();
    let entry = State::make_entry(Rc::new(prog), 4);
    let s = entry.step().pop().unwrap();
    let mut solver = CachedSolver::new();

    assert!(s.check_sat(&mut solver).is_ok());

    let wanted = BoolExpr::Equals(SymByte::Var(0), SymByte::Const(3));
    let model = s.check_sat_with(&mut solver, &wanted).unwrap();
    assert_eq!(model, vec![3u8]);

    let never = BoolExpr::Lit(false);
    assert_eq!(s.check_sat_with(&mut solver, &never), Err(Error::Unsat));

    let cs = s
        .concretize_with(&mut solver, &BoolExpr::Equals(SymByte::Var(0), SymByte::Const(7)))
        .unwrap();
    assert_eq!(cs.input, vec![7u8]);
    assert_eq!(cs.mem[0], 7u8);
    assert_eq!(cs.insn_ptr, 1);
    assert_eq!(cs.data_ptr, 0);

    let any = s.concretize(&mut solver).unwrap();
    assert_eq!(any.input.len(), 1);
    assert_eq!(any.mem[0], any.input[0]);
}

#[test]
fn step_is_deterministic() {
    let prog = Prog::from_str(",[-].").unwrap();
    let entry = State::make_entry(Rc::new(prog), 8);
    let s = entry.step().pop().unwrap();
    let once = s.step();
    let twice = s.clone().step();
    assert_eq!(once, twice);
}
