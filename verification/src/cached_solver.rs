//! Memoized satisfiability checking.
//!
//! The engine never inspects solver internals: it hands a `BoolExpr` to the
//! SMT backend and gets back a model (an assignment of the named input
//! bytes), "unsatisfiable", or "unknown". Every outcome is cached by the
//! structural value of the expression, so solving the same expression twice
//! returns the first answer without another solver call.
//!
//! A model returned by the backend is re-checked here with the engine's own
//! evaluator before it is believed: a satisfying assignment is therefore
//! verified, and only the "unsatisfiable" verdict rests on the backend.

use vstd::prelude::*;

use crate::expr::BoolExpr;
use crate::expr::SymByte;
use crate::expr::eval_bool;
use crate::expr::eval_bool_exec;
use crate::expr::unsat;

verus! {

/// A solver outcome other than a model: the constraint cannot be satisfied,
/// or the backend could not decide.
#[derive(Copy, Clone, PartialEq, Eq, Structural, Debug)]
pub enum Error {
    Unsat,
    Unknown,
}

/// An opaque handle on a backend bit-vector term. Verus refuses to
/// declare `z3::ast::BV` itself, so the term hides in a private field.
#[verifier::external_body]
struct BackendTerm(z3::ast::BV);

/// An opaque handle on a backend boolean formula. Verus refuses to
/// declare `z3::ast::Bool` itself, so the formula hides in a private
/// field.
#[verifier::external_body]
struct BackendFormula(z3::ast::Bool);

#[verifier::external_type_specification]
#[verifier::external_body]
pub struct ExModel(z3::Model);

/// Relies on z3's term constructors: `BV::from_u64` for an 8-bit constant,
/// `BV::new_const` for the named 8-bit constant `input[k]`, and
/// `BV::bvadd` / `BV::bvsub` for wrapping sum and difference, mirroring
/// `eval_byte` case for case.
#[verifier::external_body]
fn bv_term(e: &SymByte) -> BackendTerm {
    BackendTerm(match e {
        SymByte::Const(c) => z3::ast::BV::from_u64(*c as u64, 8),
        SymByte::Var(k) => z3::ast::BV::new_const(format!("input[{}]", k), 8),
        SymByte::Add(a, b) => bv_term(a).0.bvadd(&bv_term(b).0),
        SymByte::Sub(a, b) => bv_term(a).0.bvsub(&bv_term(b).0),
    })
}

/// Relies on z3's formula constructors: `Bool::from_bool`, `Ast::eq` over
/// bit-vectors, `Bool::not` and `Bool::and`, mirroring `eval_bool` case
/// for case.
#[verifier::external_body]
fn bool_term(e: &BoolExpr) -> BackendFormula {
    BackendFormula(match e {
        BoolExpr::Lit(b) => z3::ast::Bool::from_bool(*b),
        BoolExpr::Equals(a, b) => bv_term(a).0.eq(bv_term(b).0),
        BoolExpr::Not(p) => bool_term(p).0.not(),
        BoolExpr::And(p, q) => z3::ast::Bool::and(&[bool_term(p).0, bool_term(q).0]),
    })
}

/// Relies on z3's `Solver::assert` / `Solver::check` / `Solver::get_model`.
/// An `Unsat` answer from z3 means the asserted formula has no model; since
/// `bv_term` and `bool_term` build the formula to mirror `eval_byte` and
/// `eval_bool` exactly, with `input[k]` naming the assignment's byte `k`,
/// no assignment then satisfies the expression. Nothing is assumed about a
/// returned model: the caller re-checks it.
#[verifier::external_body]
fn z3_check(e: &BoolExpr) -> (r: Result<z3::Model, Error>)
    ensures
        r is Err && r->Err_0 == Error::Unsat ==> unsat(*e),
{
    let solver = z3::Solver::new();
    solver.assert(&bool_term(e).0);
    match solver.check() {
        z3::SatResult::Sat => solver.get_model().ok_or(Error::Unknown),
        z3::SatResult::Unsat => Err(Error::Unsat),
        z3::SatResult::Unknown => Err(Error::Unknown),
    }
}

/// Relies on z3's `Model::eval` with completion on the named 8-bit constant
/// `input[k]`, and `BV::as_u64`; a byte that the model leaves open reads
/// as zero.
#[verifier::external_body]
fn model_input_byte(m: &z3::Model, k: usize) -> u8 {
    let var = z3::ast::BV::new_const(format!("input[{}]", k), 8);
    match m.eval(&var, true).and_then(|v| v.as_u64()) {
        Some(v) => v as u8,
        None => 0,
    }
}

/// Two solver outcomes carry the same answer: equal model bytes, or the
/// same failure.
pub open spec fn same_outcome(a: Result<Vec<u8>, Error>, b: Result<Vec<u8>, Error>) -> bool {
    match (a, b) {
        (Ok(x), Ok(y)) => x@ == y@,
        (Err(x), Err(y)) => x == y,
        _ => false,
    }
}

/// First cache entry with the given key, scanning from position `i`.
pub open spec fn lookup_from(
    entries: Seq<(BoolExpr, Result<Vec<u8>, Error>)>,
    e: BoolExpr,
    i: int,
) -> Option<Result<Vec<u8>, Error>>
    decreases entries.len() - i,
{
    if i < 0 || i >= entries.len() {
        None
    } else if entries[i].0 == e {
        Some(entries[i].1)
    } else {
        lookup_from(entries, e, i + 1)
    }
}

/// The cached outcome for an expression, if one is stored.
pub open spec fn lookup(
    entries: Seq<(BoolExpr, Result<Vec<u8>, Error>)>,
    e: BoolExpr,
) -> Option<Result<Vec<u8>, Error>> {
    lookup_from(entries, e, 0)
}

/// A stored outcome never lies: a model satisfies its key, and an `Unsat`
/// verdict means the key has no model at all.
pub open spec fn entry_sound(en: (BoolExpr, Result<Vec<u8>, Error>)) -> bool {
    match en.1 {
        Ok(m) => eval_bool(en.0, m@),
        Err(e) => e == Error::Unsat ==> unsat(en.0),
    }
}

/// Appending an entry leaves every present answer in place and serves the
/// new key only where no answer was stored.
proof fn lemma_lookup_push(
    s: Seq<(BoolExpr, Result<Vec<u8>, Error>)>,
    x: (BoolExpr, Result<Vec<u8>, Error>),
    e: BoolExpr,
    i: int,
)
    requires
        0 <= i <= s.len(),
    ensures
        lookup_from(s.push(x), e, i) == if lookup_from(s, e, i) is Some {
            lookup_from(s, e, i)
        } else if x.0 == e {
            Some(x.1)
        } else {
            None::<Result<Vec<u8>, Error>>
        },
    decreases s.len() - i,
{
    if i < s.len() {
        assert(s.push(x)[i] == s[i]);
        lemma_lookup_push(s, x, e, i + 1);
    } else {
        assert(s.push(x)[i] == x);
        assert(lookup_from(s, e, i) is None);
        if x.0 == e {
            assert(lookup_from(s.push(x), e, i) == Some(x.1));
        } else {
            assert(lookup_from(s.push(x), e, i + 1) is None);
        }
    }
}

/// Maps a canonical boolean expression to its memoized solve outcome.
/// The key set persists for the life of the cache.
pub struct CachedSolver {
    entries: Vec<(BoolExpr, Result<Vec<u8>, Error>)>,
}

impl View for CachedSolver {
    type V = Seq<(BoolExpr, Result<Vec<u8>, Error>)>;

    closed spec fn view(&self) -> Seq<(BoolExpr, Result<Vec<u8>, Error>)> {
        self.entries@
    }
}

impl CachedSolver {
    /// Every stored outcome is sound for its key.
    pub open spec fn wf(self) -> bool {
        forall|i: int| 0 <= i < self@.len() ==> entry_sound(#[trigger] self@[i])
    }

    /// Makes an empty cache.
    pub fn new() -> (r: CachedSolver)
        ensures
            r.wf(),
            r@.len() == 0,
    {
        CachedSolver { entries: Vec::new() }
    }

    /// Position of the stored entry for an expression, if any.
    fn find(&self, e: &BoolExpr) -> (r: Option<usize>)
        ensures
            match r {
                Some(i) => i < self@.len() && self@[i as int].0 == *e && lookup(self@, *e)
                    == Some(self@[i as int].1),
                None => lookup(self@, *e) is None,
            },
    {
        let n = self.entries.len();
        let mut k: usize = 0;
        while k < n
            invariant
                n == self@.len(),
                k <= n,
                lookup(self@, *e) == lookup_from(self@, *e, k as int),
            decreases n - k,
        {
            let en = &self.entries[k];
            if en.0 == *e {
                return Some(k);
            }
            k += 1;
        }
        None
    }

    /// Copies an outcome so the cache can keep one and hand one out.
    fn clone_outcome(o: &Result<Vec<u8>, Error>) -> (r: Result<Vec<u8>, Error>)
        ensures
            same_outcome(r, *o),
    {
        match o {
            Ok(v) => {
                let mut copy: Vec<u8> = Vec::new();
                let mut k: usize = 0;
                while k < v.len()
                    invariant
                        k <= v@.len(),
                        copy@ == v@.take(k as int),
                    decreases v@.len() - k,
                {
                    copy.push(v[k]);
                    proof {
                        assert(copy@ =~= v@.take(k as int + 1));
                    }
                    k += 1;
                }
                proof {
                    assert(copy@ =~= v@);
                }
                Ok(copy)
            },
            Err(e) => Err(*e),
        }
    }

    /// Answers whether the expression has a satisfying assignment of the
    /// input bytes, consulting the cache before the backend.
    ///
    /// A returned model satisfies the expression under the engine's own
    /// evaluator; `Unsat` means no assignment at all satisfies it; and the
    /// cache is idempotent: an expression solved before gets the stored
    /// answer back, and the cache is unchanged. `nvars` says how many input
    /// bytes a fresh model should cover.
    pub fn solve(&mut self, expr: BoolExpr, nvars: usize) -> (r: Result<Vec<u8>, Error>)
        requires
            old(self).wf(),
        ensures
            final(self).wf(),
            r is Ok ==> eval_bool(expr, r->Ok_0@),
            r is Err && r->Err_0 == Error::Unsat ==> unsat(expr),
            match lookup(old(self)@, expr) {
                Some(o) => same_outcome(r, o) && final(self)@ == old(self)@,
                None => {
                    let post = final(self)@;
                    &&& post.len() == old(self)@.len() + 1
                    &&& post[post.len() - 1].0 == expr
                    &&& same_outcome(post[post.len() - 1].1, r)
                    &&& forall|i: int| 0 <= i < old(self)@.len() ==> post[i] == old(self)@[i]
                },
            },
            lookup(final(self)@, expr) matches Some(o2) && same_outcome(o2, r),
    {
        let found = self.find(&expr);
        match found {
            Some(i) => {
                let r = Self::clone_outcome(&self.entries[i].1);
                proof {
                    assert(entry_sound(self@[i as int]));
                }
                r
            },
            None => {
                let outcome: Result<Vec<u8>, Error> = match z3_check(&expr) {
                    Ok(model) => {
                        let mut vals: Vec<u8> = Vec::new();
                        let mut k: usize = 0;
                        while k < nvars
                            invariant
                                k <= nvars,
                            decreases nvars - k,
                        {
                            vals.push(model_input_byte(&model, k));
                            k += 1;
                        }
                        if eval_bool_exec(&expr, &vals) {
                            Ok(vals)
                        } else {
                            Err(Error::Unknown)
                        }
                    },
                    Err(e2) => Err(e2),
                };
                let stored = Self::clone_outcome(&outcome);
                let ghost old_entries = self@;
                self.entries.push((crate::expr::clone_bool(&expr), stored));
                proof {
                    assert(self@ =~= old_entries.push(self@[self@.len() - 1]));
                    lemma_lookup_push(
                        old_entries,
                        self@[self@.len() - 1],
                        expr,
                        0,
                    );
                }
                outcome
            },
        }
    }
}

} // verus!
