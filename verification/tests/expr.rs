use brainfsym::expr::eval_byte_exec;
use brainfsym::expr::mk_add;
use brainfsym::expr::mk_and;
use brainfsym::expr::mk_eq;
use brainfsym::expr::mk_not;
use brainfsym::expr::mk_sub;
use brainfsym::expr::BoolExpr;
use brainfsym::expr::eval_bool_exec;
use brainfsym::expr::SymByte;

#[test]
fn add_wraps_modulo_256() {
    let t = mk_add(SymByte::Const(200), SymByte::Const(100));
    assert!(t == SymByte::Const(44));
    assert_eq!(eval_byte_exec(&t, &vec![]), 44);
}

#[test]
fn sub_wraps_modulo_256() {
    let t = mk_sub(SymByte::Const(3), SymByte::Const(5));
    assert!(t == SymByte::Const(254));
}

#[test]
fn increment_chain_stays_shallow() {
    // ((input[0] + 1) + 1) - 1 folds to input[0] + 1.
    let v = SymByte::Var(0);
    let t = mk_add(v, SymByte::Const(1));
    let t = mk_add(t, SymByte::Const(1));
    let t = mk_sub(t, SymByte::Const(1));
    assert!(t == SymByte::Add(Box::new(SymByte::Var(0)), Box::new(SymByte::Const(1))));
    assert_eq!(eval_byte_exec(&t, &vec![41]), 42);
    assert_eq!(eval_byte_exec(&t, &vec![255]), 0);
}

#[test]
fn constraint_folding_and_evaluation() {
    let eq = mk_eq(SymByte::Const(2), SymByte::Const(2));
    assert!(eq == BoolExpr::Lit(true));
    let ne = mk_not(mk_eq(SymByte::Const(1), SymByte::Const(2)));
    assert!(ne == BoolExpr::Lit(true));
    let sym = mk_eq(SymByte::Var(0), SymByte::Const(9));
    let conj = mk_and(BoolExpr::Lit(true), brainfsym::expr::clone_bool(&sym));
    assert!(conj == sym);
    assert!(eval_bool_exec(&conj, &vec![9]));
    assert!(!eval_bool_exec(&conj, &vec![8]));
}
