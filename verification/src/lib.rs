//! Symbolic execution engine for the eight-instruction tape language.
//!
//! A program is lowered to a linear opcode stream with resolved jump
//! targets (`ast`). A symbolic state steps over that stream, keeping the
//! tape and the I/O streams as sequences of 8-bit terms and accumulating
//! a path condition (`expr`, `state`). Satisfiability questions go to an
//! external SMT backend through a memoizing cache (`cached_solver`), and
//! a worklist driver searches the forked paths for a state whose output
//! can spell a requested byte sequence (`path_group`).

pub mod ast;
pub mod cached_solver;
pub mod expr;
pub mod path_group;
pub mod state;

pub use ast::Insn;
pub use ast::ParseError;
pub use ast::Prog;
pub use cached_solver::CachedSolver;
pub use cached_solver::Error;
pub use expr::BoolExpr;
pub use expr::SymByte;
pub use path_group::Classification;
pub use path_group::ExploreFnResult;
pub use path_group::PathGroup;
pub use state::ConcreteState;
pub use state::State;
pub use state::SymBytes;
