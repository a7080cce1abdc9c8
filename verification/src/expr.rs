//! Symbolic 8-bit terms and boolean constraints.
//!
//! The engine keeps the tape and the I/O streams as terms of a small
//! bit-vector theory: 8-bit constants, named input bytes, and wrapping
//! addition and subtraction. Branch decisions accumulate as boolean
//! constraints over those terms. The meaning of a term under an assignment
//! of the input bytes is given by `eval_byte` and `eval_bool`; everything
//! the engine claims about the solver is stated against these two functions.

use vstd::prelude::*;

verus! {

/// An 8-bit symbolic byte: a constant, the input byte with a given index,
/// or a wrapping sum or difference of two terms.
#[derive(Debug)]
pub enum SymByte {
    Const(u8),
    Var(usize),
    Add(Box<SymByte>, Box<SymByte>),
    Sub(Box<SymByte>, Box<SymByte>),
}

/// A boolean constraint over symbolic bytes.
#[derive(Debug)]
pub enum BoolExpr {
    Lit(bool),
    Equals(SymByte, SymByte),
    Not(Box<BoolExpr>),
    And(Box<BoolExpr>, Box<BoolExpr>),
}

/// Value of a byte term under an assignment `m` of the input bytes.
/// An input byte beyond the end of the assignment reads as zero.
pub open spec fn eval_byte(e: SymByte, m: Seq<u8>) -> u8
    decreases e,
{
    match e {
        SymByte::Const(c) => c,
        SymByte::Var(k) => if k < m.len() {
            m[k as int]
        } else {
            0u8
        },
        SymByte::Add(a, b) => vstd::wrapping::u8_specs::wrapping_add(
            eval_byte(*a, m),
            eval_byte(*b, m),
        ),
        SymByte::Sub(a, b) => vstd::wrapping::u8_specs::wrapping_sub(
            eval_byte(*a, m),
            eval_byte(*b, m),
        ),
    }
}

/// Truth of a constraint under an assignment `m` of the input bytes.
pub open spec fn eval_bool(e: BoolExpr, m: Seq<u8>) -> bool
    decreases e,
{
    match e {
        BoolExpr::Lit(b) => b,
        BoolExpr::Equals(a, b) => eval_byte(a, m) == eval_byte(b, m),
        BoolExpr::Not(p) => !eval_bool(*p, m),
        BoolExpr::And(p, q) => eval_bool(*p, m) && eval_bool(*q, m),
    }
}

/// A constraint is unsatisfiable when no assignment makes it true.
pub open spec fn unsat(e: BoolExpr) -> bool {
    forall|m: Seq<u8>| !eval_bool(e, m)
}

/// Every input byte named in the term has an index below `n`.
pub open spec fn byte_vars_below(e: SymByte, n: int) -> bool
    decreases e,
{
    match e {
        SymByte::Const(_) => true,
        SymByte::Var(k) => k < n,
        SymByte::Add(a, b) => byte_vars_below(*a, n) && byte_vars_below(*b, n),
        SymByte::Sub(a, b) => byte_vars_below(*a, n) && byte_vars_below(*b, n),
    }
}

/// Every input byte named in the constraint has an index below `n`.
pub open spec fn bool_vars_below(e: BoolExpr, n: int) -> bool
    decreases e,
{
    match e {
        BoolExpr::Lit(_) => true,
        BoolExpr::Equals(a, b) => byte_vars_below(a, n) && byte_vars_below(b, n),
        BoolExpr::Not(p) => bool_vars_below(*p, n),
        BoolExpr::And(p, q) => bool_vars_below(*p, n) && bool_vars_below(*q, n),
    }
}

/// A bound on the named input bytes stays a bound when it grows.
pub proof fn lemma_byte_vars_below_mono(e: SymByte, n1: int, n2: int)
    requires
        byte_vars_below(e, n1),
        n1 <= n2,
    ensures
        byte_vars_below(e, n2),
    decreases e,
{
    match e {
        SymByte::Const(_) => {},
        SymByte::Var(_) => {},
        SymByte::Add(a, b) => {
            lemma_byte_vars_below_mono(*a, n1, n2);
            lemma_byte_vars_below_mono(*b, n1, n2);
        },
        SymByte::Sub(a, b) => {
            lemma_byte_vars_below_mono(*a, n1, n2);
            lemma_byte_vars_below_mono(*b, n1, n2);
        },
    }
}

/// A bound on the named input bytes stays a bound when it grows.
pub proof fn lemma_bool_vars_below_mono(e: BoolExpr, n1: int, n2: int)
    requires
        bool_vars_below(e, n1),
        n1 <= n2,
    ensures
        bool_vars_below(e, n2),
    decreases e,
{
    match e {
        BoolExpr::Lit(_) => {},
        BoolExpr::Equals(a, b) => {
            lemma_byte_vars_below_mono(a, n1, n2);
            lemma_byte_vars_below_mono(b, n1, n2);
        },
        BoolExpr::Not(p) => {
            lemma_bool_vars_below_mono(*p, n1, n2);
        },
        BoolExpr::And(p, q) => {
            lemma_bool_vars_below_mono(*p, n1, n2);
            lemma_bool_vars_below_mono(*q, n1, n2);
        },
    }
}

/// Computes the value of a byte term under a concrete assignment.
pub fn eval_byte_exec(e: &SymByte, m: &Vec<u8>) -> (r: u8)
    ensures
        r == eval_byte(*e, m@),
    decreases *e,
{
    match e {
        SymByte::Const(c) => *c,
        SymByte::Var(k) => if *k < m.len() {
            m[*k]
        } else {
            0u8
        },
        SymByte::Add(a, b) => {
            let x = eval_byte_exec(&**a, m);
            let y = eval_byte_exec(&**b, m);
            x.wrapping_add(y)
        },
        SymByte::Sub(a, b) => {
            let x = eval_byte_exec(&**a, m);
            let y = eval_byte_exec(&**b, m);
            x.wrapping_sub(y)
        },
    }
}

/// Computes the truth of a constraint under a concrete assignment.
pub fn eval_bool_exec(e: &BoolExpr, m: &Vec<u8>) -> (r: bool)
    ensures
        r == eval_bool(*e, m@),
    decreases *e,
{
    match e {
        BoolExpr::Lit(b) => *b,
        BoolExpr::Equals(a, b) => eval_byte_exec(a, m) == eval_byte_exec(b, m),
        BoolExpr::Not(p) => !eval_bool_exec(&**p, m),
        BoolExpr::And(p, q) => {
            let x = eval_bool_exec(&**p, m);
            let y = eval_bool_exec(&**q, m);
            x && y
        },
    }
}

/// Copies a byte term.
pub fn clone_byte(e: &SymByte) -> (r: SymByte)
    ensures
        r == *e,
    decreases *e,
{
    match e {
        SymByte::Const(c) => SymByte::Const(*c),
        SymByte::Var(k) => SymByte::Var(*k),
        SymByte::Add(a, b) => SymByte::Add(
            Box::new(clone_byte(&**a)),
            Box::new(clone_byte(&**b)),
        ),
        SymByte::Sub(a, b) => SymByte::Sub(
            Box::new(clone_byte(&**a)),
            Box::new(clone_byte(&**b)),
        ),
    }
}

/// Copies a constraint.
pub fn clone_bool(e: &BoolExpr) -> (r: BoolExpr)
    ensures
        r == *e,
    decreases *e,
{
    match e {
        BoolExpr::Lit(b) => BoolExpr::Lit(*b),
        BoolExpr::Equals(a, b) => BoolExpr::Equals(clone_byte(a), clone_byte(b)),
        BoolExpr::Not(p) => BoolExpr::Not(Box::new(clone_bool(&**p))),
        BoolExpr::And(p, q) => BoolExpr::And(
            Box::new(clone_bool(&**p)),
            Box::new(clone_bool(&**q)),
        ),
    }
}


/// The term `mk_add` builds: constants fold, a trailing constant of a sum
/// or difference absorbs the addend, a zero net constant disappears, and
/// any other shape becomes a plain sum node.
pub open spec fn spec_mk_add(a: SymByte, b: SymByte) -> SymByte {
    match (a, b) {
        (SymByte::Const(x), SymByte::Const(y)) => SymByte::Const(
            vstd::wrapping::u8_specs::wrapping_add(x, y),
        ),
        (SymByte::Add(a1, a2), SymByte::Const(y)) => match *a2 {
            SymByte::Const(x) => {
                let c = vstd::wrapping::u8_specs::wrapping_add(x, y);
                if c == 0 {
                    *a1
                } else {
                    SymByte::Add(a1, Box::new(SymByte::Const(c)))
                }
            },
            other => SymByte::Add(
                Box::new(SymByte::Add(a1, Box::new(other))),
                Box::new(SymByte::Const(y)),
            ),
        },
        (SymByte::Sub(a1, a2), SymByte::Const(y)) => match *a2 {
            SymByte::Const(x) => {
                let c = vstd::wrapping::u8_specs::wrapping_sub(x, y);
                if c == 0 {
                    *a1
                } else {
                    SymByte::Sub(a1, Box::new(SymByte::Const(c)))
                }
            },
            other => SymByte::Add(
                Box::new(SymByte::Sub(a1, Box::new(other))),
                Box::new(SymByte::Const(y)),
            ),
        },
        (x, y) => SymByte::Add(Box::new(x), Box::new(y)),
    }
}

/// The term `mk_sub` builds, mirroring `spec_mk_add` with the roles of
/// sum and difference exchanged.
pub open spec fn spec_mk_sub(a: SymByte, b: SymByte) -> SymByte {
    match (a, b) {
        (SymByte::Const(x), SymByte::Const(y)) => SymByte::Const(
            vstd::wrapping::u8_specs::wrapping_sub(x, y),
        ),
        (SymByte::Add(a1, a2), SymByte::Const(y)) => match *a2 {
            SymByte::Const(x) => {
                let c = vstd::wrapping::u8_specs::wrapping_sub(x, y);
                if c == 0 {
                    *a1
                } else {
                    SymByte::Add(a1, Box::new(SymByte::Const(c)))
                }
            },
            other => SymByte::Sub(
                Box::new(SymByte::Add(a1, Box::new(other))),
                Box::new(SymByte::Const(y)),
            ),
        },
        (SymByte::Sub(a1, a2), SymByte::Const(y)) => match *a2 {
            SymByte::Const(x) => {
                let c = vstd::wrapping::u8_specs::wrapping_add(x, y);
                if c == 0 {
                    *a1
                } else {
                    SymByte::Sub(a1, Box::new(SymByte::Const(c)))
                }
            },
            other => SymByte::Sub(
                Box::new(SymByte::Sub(a1, Box::new(other))),
                Box::new(SymByte::Const(y)),
            ),
        },
        (x, y) => SymByte::Sub(Box::new(x), Box::new(y)),
    }
}

/// The constraint `mk_eq` builds: a comparison of constants folds to a
/// literal, anything else is a plain equality node.
pub open spec fn spec_mk_eq(a: SymByte, b: SymByte) -> BoolExpr {
    match (a, b) {
        (SymByte::Const(x), SymByte::Const(y)) => BoolExpr::Lit(x == y),
        (x, y) => BoolExpr::Equals(x, y),
    }
}

/// The constraint `mk_not` builds: a literal flips, anything else gains a
/// negation node.
pub open spec fn spec_mk_not(p: BoolExpr) -> BoolExpr {
    match p {
        BoolExpr::Lit(b) => BoolExpr::Lit(!b),
        other => BoolExpr::Not(Box::new(other)),
    }
}

/// The constraint `mk_and` builds: literal conjuncts drop out or absorb,
/// anything else becomes a conjunction node.
pub open spec fn spec_mk_and(p: BoolExpr, q: BoolExpr) -> BoolExpr {
    match (p, q) {
        (BoolExpr::Lit(x), y) => if x {
            y
        } else {
            BoolExpr::Lit(false)
        },
        (x, BoolExpr::Lit(y)) => if y {
            x
        } else {
            BoolExpr::Lit(false)
        },
        (x, y) => BoolExpr::And(Box::new(x), Box::new(y)),
    }
}

/// Wrapping addition associates with itself.
proof fn lemma_add_add(u: u8, x: u8, y: u8)
    ensures
        vstd::wrapping::u8_specs::wrapping_add(vstd::wrapping::u8_specs::wrapping_add(u, x), y)
            == vstd::wrapping::u8_specs::wrapping_add(
            u,
            vstd::wrapping::u8_specs::wrapping_add(x, y),
        ),
{
}

/// Adding after a wrapping subtraction subtracts the difference.
proof fn lemma_sub_add(u: u8, x: u8, y: u8)
    ensures
        vstd::wrapping::u8_specs::wrapping_add(vstd::wrapping::u8_specs::wrapping_sub(u, x), y)
            == vstd::wrapping::u8_specs::wrapping_sub(
            u,
            vstd::wrapping::u8_specs::wrapping_sub(x, y),
        ),
{
}

/// Subtracting after a wrapping addition adds the difference.
proof fn lemma_add_sub(u: u8, x: u8, y: u8)
    ensures
        vstd::wrapping::u8_specs::wrapping_sub(vstd::wrapping::u8_specs::wrapping_add(u, x), y)
            == vstd::wrapping::u8_specs::wrapping_add(
            u,
            vstd::wrapping::u8_specs::wrapping_sub(x, y),
        ),
{
}

/// Consecutive wrapping subtractions subtract the sum.
proof fn lemma_sub_sub(u: u8, x: u8, y: u8)
    ensures
        vstd::wrapping::u8_specs::wrapping_sub(vstd::wrapping::u8_specs::wrapping_sub(u, x), y)
            == vstd::wrapping::u8_specs::wrapping_sub(
            u,
            vstd::wrapping::u8_specs::wrapping_add(x, y),
        ),
{
}

/// Builds the wrapping sum of two terms, folding constants so that chains
/// of increments stay shallow. The result means exactly the sum.
pub fn mk_add(a: SymByte, b: SymByte) -> (r: SymByte)
    ensures
        r == spec_mk_add(a, b),
        forall|m: Seq<u8>| #[trigger] eval_byte(r, m) == vstd::wrapping::u8_specs::wrapping_add(
            eval_byte(a, m),
            eval_byte(b, m),
        ),
        forall|n: int| byte_vars_below(a, n) && byte_vars_below(b, n) ==> #[trigger] byte_vars_below(
            r,
            n,
        ),
{
    let ghost ga = a;
    let ghost gb = b;
    match (a, b) {
        (SymByte::Const(x), SymByte::Const(y)) => SymByte::Const(x.wrapping_add(y)),
        (SymByte::Add(a1, a2), SymByte::Const(y)) => {
            let ghost ga1 = a1;
            let ghost ga2 = a2;
            proof {
                assert(ga == SymByte::Add(ga1, ga2));
                assert(gb == SymByte::Const(y));
            }
            match *a2 {
                SymByte::Const(x) => {
                    proof {
                        assert(*ga2 == SymByte::Const(x));
                    }
                    let c = x.wrapping_add(y);
                    let r = if c == 0 {
                        *a1
                    } else {
                        SymByte::Add(a1, Box::new(SymByte::Const(c)))
                    };
                    proof {
                        assert(r == if c == 0 {
                            *ga1
                        } else {
                            SymByte::Add(ga1, Box::new(SymByte::Const(c)))
                        });
                        assert forall|m: Seq<u8>| #[trigger] eval_byte(r, m)
                            == vstd::wrapping::u8_specs::wrapping_add(
                            eval_byte(ga, m),
                            eval_byte(gb, m),
                        ) by {
                            let u = eval_byte(*ga1, m);
                            assert(eval_byte(*ga2, m) == x);
                            assert(eval_byte(gb, m) == y);
                            assert(eval_byte(SymByte::Const(c), m) == c);
                            assert(eval_byte(ga, m) == vstd::wrapping::u8_specs::wrapping_add(u, x));
                            assert(eval_byte(r, m) == vstd::wrapping::u8_specs::wrapping_add(u, c));
                            lemma_add_add(u, x, y);
                        }
                        assert forall|n: int|
                            byte_vars_below(ga, n) && byte_vars_below(gb, n) implies #[trigger] byte_vars_below(
                            r,
                            n,
                        ) by {
                            assert(byte_vars_below(*ga1, n));
                            assert(byte_vars_below(SymByte::Const(c), n));
                        }
                    }
                    r
                },
                other => {
                    let r = SymByte::Add(
                        Box::new(SymByte::Add(a1, Box::new(other))),
                        Box::new(SymByte::Const(y)),
                    );
                    proof {
                        assert forall|n: int|
                            byte_vars_below(ga, n) && byte_vars_below(gb, n) implies #[trigger] byte_vars_below(
                            r,
                            n,
                        ) by {
                            assert(byte_vars_below(*ga1, n) && byte_vars_below(*ga2, n));
                            assert(byte_vars_below(*r->Add_0, n));
                        }
                    }
                    r
                },
            }
        },
        (SymByte::Sub(a1, a2), SymByte::Const(y)) => {
            let ghost ga1 = a1;
            let ghost ga2 = a2;
            proof {
                assert(ga == SymByte::Sub(ga1, ga2));
                assert(gb == SymByte::Const(y));
            }
            match *a2 {
                SymByte::Const(x) => {
                    proof {
                        assert(*ga2 == SymByte::Const(x));
                    }
                    let c = x.wrapping_sub(y);
                    let r = if c == 0 {
                        *a1
                    } else {
                        SymByte::Sub(a1, Box::new(SymByte::Const(c)))
                    };
                    proof {
                        assert(r == if c == 0 {
                            *ga1
                        } else {
                            SymByte::Sub(ga1, Box::new(SymByte::Const(c)))
                        });
                        assert forall|m: Seq<u8>| #[trigger] eval_byte(r, m)
                            == vstd::wrapping::u8_specs::wrapping_add(
                            eval_byte(ga, m),
                            eval_byte(gb, m),
                        ) by {
                            let u = eval_byte(*ga1, m);
                            assert(eval_byte(*ga2, m) == x);
                            assert(eval_byte(gb, m) == y);
                            assert(eval_byte(SymByte::Const(c), m) == c);
                            assert(eval_byte(ga, m) == vstd::wrapping::u8_specs::wrapping_sub(u, x));
                            assert(eval_byte(r, m) == vstd::wrapping::u8_specs::wrapping_sub(u, c));
                            lemma_sub_add(u, x, y);
                        }
                        assert forall|n: int|
                            byte_vars_below(ga, n) && byte_vars_below(gb, n) implies #[trigger] byte_vars_below(
                            r,
                            n,
                        ) by {
                            assert(byte_vars_below(*ga1, n));
                            assert(byte_vars_below(SymByte::Const(c), n));
                        }
                    }
                    r
                },
                other => {
                    let r = SymByte::Add(
                        Box::new(SymByte::Sub(a1, Box::new(other))),
                        Box::new(SymByte::Const(y)),
                    );
                    proof {
                        assert forall|n: int|
                            byte_vars_below(ga, n) && byte_vars_below(gb, n) implies #[trigger] byte_vars_below(
                            r,
                            n,
                        ) by {
                            assert(byte_vars_below(*ga1, n) && byte_vars_below(*ga2, n));
                            assert(byte_vars_below(*r->Add_0, n));
                        }
                    }
                    r
                },
            }
        },
        (x, y) => SymByte::Add(Box::new(x), Box::new(y)),
    }
}

/// Builds the wrapping difference of two terms, folding constants so that
/// chains of decrements stay shallow. The result means exactly the difference.
pub fn mk_sub(a: SymByte, b: SymByte) -> (r: SymByte)
    ensures
        r == spec_mk_sub(a, b),
        forall|m: Seq<u8>| #[trigger] eval_byte(r, m) == vstd::wrapping::u8_specs::wrapping_sub(
            eval_byte(a, m),
            eval_byte(b, m),
        ),
        forall|n: int| byte_vars_below(a, n) && byte_vars_below(b, n) ==> #[trigger] byte_vars_below(
            r,
            n,
        ),
{
    let ghost ga = a;
    let ghost gb = b;
    match (a, b) {
        (SymByte::Const(x), SymByte::Const(y)) => SymByte::Const(x.wrapping_sub(y)),
        (SymByte::Add(a1, a2), SymByte::Const(y)) => {
            let ghost ga1 = a1;
            let ghost ga2 = a2;
            proof {
                assert(ga == SymByte::Add(ga1, ga2));
                assert(gb == SymByte::Const(y));
            }
            match *a2 {
                SymByte::Const(x) => {
                    proof {
                        assert(*ga2 == SymByte::Const(x));
                    }
                    let c = x.wrapping_sub(y);
                    let r = if c == 0 {
                        *a1
                    } else {
                        SymByte::Add(a1, Box::new(SymByte::Const(c)))
                    };
                    proof {
                        assert(r == if c == 0 {
                            *ga1
                        } else {
                            SymByte::Add(ga1, Box::new(SymByte::Const(c)))
                        });
                        assert forall|m: Seq<u8>| #[trigger] eval_byte(r, m)
                            == vstd::wrapping::u8_specs::wrapping_sub(
                            eval_byte(ga, m),
                            eval_byte(gb, m),
                        ) by {
                            let u = eval_byte(*ga1, m);
                            assert(eval_byte(*ga2, m) == x);
                            assert(eval_byte(gb, m) == y);
                            assert(eval_byte(SymByte::Const(c), m) == c);
                            assert(eval_byte(ga, m) == vstd::wrapping::u8_specs::wrapping_add(u, x));
                            assert(eval_byte(r, m) == vstd::wrapping::u8_specs::wrapping_add(u, c));
                            lemma_add_sub(u, x, y);
                        }
                        assert forall|n: int|
                            byte_vars_below(ga, n) && byte_vars_below(gb, n) implies #[trigger] byte_vars_below(
                            r,
                            n,
                        ) by {
                            assert(byte_vars_below(*ga1, n));
                            assert(byte_vars_below(SymByte::Const(c), n));
                        }
                    }
                    r
                },
                other => {
                    let r = SymByte::Sub(
                        Box::new(SymByte::Add(a1, Box::new(other))),
                        Box::new(SymByte::Const(y)),
                    );
                    proof {
                        assert forall|n: int|
                            byte_vars_below(ga, n) && byte_vars_below(gb, n) implies #[trigger] byte_vars_below(
                            r,
                            n,
                        ) by {
                            assert(byte_vars_below(*ga1, n) && byte_vars_below(*ga2, n));
                            assert(byte_vars_below(*r->Sub_0, n));
                        }
                    }
                    r
                },
            }
        },
        (SymByte::Sub(a1, a2), SymByte::Const(y)) => {
            let ghost ga1 = a1;
            let ghost ga2 = a2;
            proof {
                assert(ga == SymByte::Sub(ga1, ga2));
                assert(gb == SymByte::Const(y));
            }
            match *a2 {
                SymByte::Const(x) => {
                    proof {
                        assert(*ga2 == SymByte::Const(x));
                    }
                    let c = x.wrapping_add(y);
                    let r = if c == 0 {
                        *a1
                    } else {
                        SymByte::Sub(a1, Box::new(SymByte::Const(c)))
                    };
                    proof {
                        assert(r == if c == 0 {
                            *ga1
                        } else {
                            SymByte::Sub(ga1, Box::new(SymByte::Const(c)))
                        });
                        assert forall|m: Seq<u8>| #[trigger] eval_byte(r, m)
                            == vstd::wrapping::u8_specs::wrapping_sub(
                            eval_byte(ga, m),
                            eval_byte(gb, m),
                        ) by {
                            let u = eval_byte(*ga1, m);
                            assert(eval_byte(*ga2, m) == x);
                            assert(eval_byte(gb, m) == y);
                            assert(eval_byte(SymByte::Const(c), m) == c);
                            assert(eval_byte(ga, m) == vstd::wrapping::u8_specs::wrapping_sub(u, x));
                            assert(eval_byte(r, m) == vstd::wrapping::u8_specs::wrapping_sub(u, c));
                            lemma_sub_sub(u, x, y);
                        }
                        assert forall|n: int|
                            byte_vars_below(ga, n) && byte_vars_below(gb, n) implies #[trigger] byte_vars_below(
                            r,
                            n,
                        ) by {
                            assert(byte_vars_below(*ga1, n));
                            assert(byte_vars_below(SymByte::Const(c), n));
                        }
                    }
                    r
                },
                other => {
                    let r = SymByte::Sub(
                        Box::new(SymByte::Sub(a1, Box::new(other))),
                        Box::new(SymByte::Const(y)),
                    );
                    proof {
                        assert forall|n: int|
                            byte_vars_below(ga, n) && byte_vars_below(gb, n) implies #[trigger] byte_vars_below(
                            r,
                            n,
                        ) by {
                            assert(byte_vars_below(*ga1, n) && byte_vars_below(*ga2, n));
                            assert(byte_vars_below(*r->Sub_0, n));
                        }
                    }
                    r
                },
            }
        },
        (x, y) => SymByte::Sub(Box::new(x), Box::new(y)),
    }
}

/// Builds the equality of two terms, folding a comparison of constants
/// down to a literal. The result means exactly the equality.
pub fn mk_eq(a: SymByte, b: SymByte) -> (r: BoolExpr)
    ensures
        r == spec_mk_eq(a, b),
        forall|m: Seq<u8>| #[trigger] eval_bool(r, m) == (eval_byte(a, m) == eval_byte(b, m)),
        forall|n: int| byte_vars_below(a, n) && byte_vars_below(b, n) ==> #[trigger] bool_vars_below(
            r,
            n,
        ),
{
    match (a, b) {
        (SymByte::Const(x), SymByte::Const(y)) => BoolExpr::Lit(x == y),
        (x, y) => BoolExpr::Equals(x, y),
    }
}

/// Builds the negation of a constraint, folding a literal.
/// The result means exactly the negation.
pub fn mk_not(p: BoolExpr) -> (r: BoolExpr)
    ensures
        r == spec_mk_not(p),
        forall|m: Seq<u8>| #[trigger] eval_bool(r, m) == !eval_bool(p, m),
        forall|n: int| bool_vars_below(p, n) ==> #[trigger] bool_vars_below(r, n),
{
    match p {
        BoolExpr::Lit(b) => BoolExpr::Lit(!b),
        other => BoolExpr::Not(Box::new(other)),
    }
}

/// Builds the conjunction of two constraints, dropping literal conjuncts.
/// The result means exactly the conjunction.
pub fn mk_and(p: BoolExpr, q: BoolExpr) -> (r: BoolExpr)
    ensures
        r == spec_mk_and(p, q),
        forall|m: Seq<u8>| #[trigger] eval_bool(r, m) == (eval_bool(p, m) && eval_bool(q, m)),
        forall|n: int| bool_vars_below(p, n) && bool_vars_below(q, n)
            ==> #[trigger] bool_vars_below(r, n),
{
    match (p, q) {
        (BoolExpr::Lit(x), y) => if x {
            y
        } else {
            BoolExpr::Lit(false)
        },
        (x, BoolExpr::Lit(y)) => if y {
            x
        } else {
            BoolExpr::Lit(false)
        },
        (x, y) => BoolExpr::And(Box::new(x), Box::new(y)),
    }
}

impl PartialEq for SymByte {
    /// Structural comparison of two byte terms.
    fn eq(&self, other: &Self) -> (r: bool)
        decreases *self,
    {
        match (self, other) {
            (SymByte::Const(a), SymByte::Const(b)) => *a == *b,
            (SymByte::Var(a), SymByte::Var(b)) => *a == *b,
            (SymByte::Add(a1, a2), SymByte::Add(b1, b2)) => {
                let h = **a1 == **b1;
                h && **a2 == **b2
            },
            (SymByte::Sub(a1, a2), SymByte::Sub(b1, b2)) => {
                let h = **a1 == **b1;
                h && **a2 == **b2
            },
            _ => false,
        }
    }
}

impl vstd::std_specs::cmp::PartialEqSpecImpl for SymByte {
    open spec fn obeys_eq_spec() -> bool {
        true
    }

    open spec fn eq_spec(&self, other: &Self) -> bool {
        *self == *other
    }
}

impl PartialEq for BoolExpr {
    /// Structural comparison of two constraints.
    fn eq(&self, other: &Self) -> (r: bool)
        decreases *self,
    {
        match (self, other) {
            (BoolExpr::Lit(a), BoolExpr::Lit(b)) => *a == *b,
            (BoolExpr::Equals(a1, a2), BoolExpr::Equals(b1, b2)) => {
                let h = *a1 == *b1;
                h && *a2 == *b2
            },
            (BoolExpr::Not(a), BoolExpr::Not(b)) => **a == **b,
            (BoolExpr::And(a1, a2), BoolExpr::And(b1, b2)) => {
                let h = **a1 == **b1;
                h && **a2 == **b2
            },
            _ => false,
        }
    }
}

impl vstd::std_specs::cmp::PartialEqSpecImpl for BoolExpr {
    open spec fn obeys_eq_spec() -> bool {
        true
    }

    open spec fn eq_spec(&self, other: &Self) -> bool {
        *self == *other
    }
}

} // verus!
