use brainfsym::cached_solver::CachedSolver;
use brainfsym::cached_solver::Error;
use brainfsym::expr::eval_bool_exec;
use brainfsym::expr::BoolExpr;
use brainfsym::expr::SymByte;

#[test]
fn solve_returns_satisfying_model() {
    let mut solver = CachedSolver::new();
    let e = BoolExpr::Equals(SymByte::Var(0), SymByte::Const(5));
    let model = solver.solve(clone_expr(&e), 1).unwrap();
    assert_eq!(model, vec![5u8]);
    assert!(eval_bool_exec(&e, &model));
}

#[test]
fn solve_is_idempotent_on_sat() {
    let mut solver = CachedSolver::new();
    let e = BoolExpr::Equals(
        SymByte::Add(Box::new(SymByte::Var(0)), Box::new(SymByte::Var(1))),
        SymByte::Const(7),
    );
    let first = solver.solve(clone_expr(&e), 2).unwrap();
    let second = solver.solve(clone_expr(&e), 2).unwrap();
    assert_eq!(first, second);
    assert!(eval_bool_exec(&e, &first));
}

#[test]
fn solve_is_idempotent_on_unsat() {
    let mut solver = CachedSolver::new();
    let e = BoolExpr::Lit(false);
    assert_eq!(solver.solve(clone_expr(&e), 0), Err(Error::Unsat));
    assert_eq!(solver.solve(clone_expr(&e), 0), Err(Error::Unsat));
}

#[test]
fn solve_rejects_contradiction() {
    let mut solver = CachedSolver::new();
    // input[0] == 3 AND NOT (input[0] == 3)
    let eq = BoolExpr::Equals(SymByte::Var(0), SymByte::Const(3));
    let e = BoolExpr::And(
        Box::new(clone_expr(&eq)),
        Box::new(BoolExpr::Not(Box::new(eq))),
    );
    assert_eq!(solver.solve(e, 1), Err(Error::Unsat));
}

#[test]
fn solve_wrapping_sum_constraint() {
    let mut solver = CachedSolver::new();
    // input[0] - 1 == 255 forces input[0] == 0 by 8-bit wrap-around.
    let e = BoolExpr::Equals(
        SymByte::Sub(Box::new(SymByte::Var(0)), Box::new(SymByte::Const(1))),
        SymByte::Const(255),
    );
    let model = solver.solve(e, 1).unwrap();
    assert_eq!(model, vec![0u8]);
}

fn clone_expr(e: &BoolExpr) -> BoolExpr {
    brainfsym::expr::clone_bool(e)
}
