//! Symbolic program states and the single-step transition.
//!
//! A state is an immutable snapshot: a shared program, a symbolic tape,
//! the two pointers, the symbolic input and output streams, and the path
//! condition accumulated on the way from the entry state. Stepping never
//! consults the solver: it is purely syntactic over the terms, returning
//! zero successors at termination, one for straight-line opcodes, and two
//! for the jumps, which fork on whether the current cell is zero.

use std::rc::Rc;

use vstd::prelude::*;

use crate::ast::Insn;
use crate::ast::Prog;
use crate::ast::targets_ok;
use crate::cached_solver::CachedSolver;
use crate::cached_solver::Error;
use crate::expr::BoolExpr;
use crate::expr::SymByte;
use crate::expr::byte_vars_below;
use crate::expr::bool_vars_below;
use crate::expr::clone_bool;
use crate::expr::clone_byte;
use crate::expr::eval_bool;
use crate::expr::eval_byte;
use crate::expr::eval_byte_exec;
use crate::expr::lemma_bool_vars_below_mono;
use crate::expr::lemma_byte_vars_below_mono;
use crate::expr::mk_add;
use crate::expr::mk_and;
use crate::expr::mk_eq;
use crate::expr::mk_not;
use crate::expr::mk_sub;

verus! {

/// An ordered sequence of symbolic bytes: the tape, or one of the two
/// I/O streams.
#[derive(Debug)]
pub struct SymBytes(pub Vec<SymByte>);

impl View for SymBytes {
    type V = Seq<SymByte>;

    open spec fn view(&self) -> Seq<SymByte> {
        self.0@
    }
}

/// Relies on `Rc::as_ref` handing out a reference to the shared value.
#[verifier::external_body]
fn prog_ref(p: &Rc<Prog>) -> (r: &Prog)
    ensures
        r@ == p@,
{
    p.as_ref()
}

/// Relies on `Rc::clone` returning a second handle to the same value.
#[verifier::external_body]
pub(crate) fn rc_clone_prog(p: &Rc<Prog>) -> (r: Rc<Prog>)
    ensures
        r@ == p@,
{
    Rc::clone(p)
}

/// Copies a symbolic byte sequence.
fn clone_syms(v: &SymBytes) -> (r: SymBytes)
    ensures
        r@ == v@,
{
    let mut out: Vec<SymByte> = Vec::new();
    let mut k: usize = 0;
    while k < v.0.len()
        invariant
            k <= v.0@.len(),
            out@ == v.0@.take(k as int),
        decreases v.0@.len() - k,
    {
        out.push(clone_byte(&v.0[k]));
        proof {
            assert(out@ =~= v.0@.take(k as int + 1));
        }
        k += 1;
    }
    proof {
        assert(out@ =~= v.0@);
    }
    SymBytes(out)
}

/// Compares two symbolic byte sequences structurally.
fn syms_equal(a: &SymBytes, b: &SymBytes) -> (r: bool)
    ensures
        r == (a@ == b@),
{
    if a.0.len() != b.0.len() {
        return false;
    }
    let n = a.0.len();
    let mut k: usize = 0;
    while k < n
        invariant
            n == a.0@.len(),
            n == b.0@.len(),
            k <= n,
            forall|i: int| 0 <= i < k ==> a.0@[i] == b.0@[i],
        decreases n - k,
    {
        if !(a.0[k] == b.0[k]) {
            return false;
        }
        k += 1;
    }
    proof {
        assert(a.0@ =~= b.0@);
    }
    true
}

/// Compares two programs structurally.
fn prog_equal(a: &Prog, b: &Prog) -> (r: bool)
    ensures
        r == (a@ == b@),
{
    if a.0.len() != b.0.len() {
        return false;
    }
    let n = a.0.len();
    let mut k: usize = 0;
    while k < n
        invariant
            n == a.0@.len(),
            n == b.0@.len(),
            k <= n,
            forall|i: int| 0 <= i < k ==> a.0@[i] == b.0@[i],
        decreases n - k,
    {
        if !(a.0[k] == b.0[k]) {
            return false;
        }
        k += 1;
    }
    proof {
        assert(a.0@ =~= b.0@);
    }
    true
}

/// Symbolic program state.
#[derive(Debug)]
pub struct State {
    /// Shared program
    pub prog: Rc<Prog>,
    /// Symbolic memory bytes
    pub mem: SymBytes,
    /// Instruction pointer
    pub insn_ptr: usize,
    /// Data pointer
    pub data_ptr: usize,
    /// Symbolic input bytes
    pub input: SymBytes,
    /// Symbolic output bytes
    pub output: SymBytes,
    /// Constraints required for this state to be reached. This is the
    /// conjunction of all the conditions that cause the program to branch
    /// to this state.
    pub path: BoolExpr,
}

/// Concrete program state, produced only by solving.
#[derive(Clone, PartialEq, Eq, Debug)]
pub struct ConcreteState {
    /// Memory bytes
    pub mem: Vec<u8>,
    /// Instruction pointer
    pub insn_ptr: usize,
    /// Data pointer
    pub data_ptr: usize,
    /// Input bytes
    pub input: Vec<u8>,
    /// Output bytes
    pub output: Vec<u8>,
}

/// Whether the program holds an input opcode at all.
pub open spec fn has_input_insn(p: Seq<Insn>) -> bool {
    exists|i: int| 0 <= i < p.len() && p[i] == Insn::In
}

/// The symbolic byte under the data pointer.
pub open spec fn cell(s: State) -> SymByte {
    s.mem@[s.data_ptr as int]
}

/// Two states carry the same snapshot: the same program, tape, pointers,
/// streams and path condition.
pub open spec fn state_equiv(a: State, b: State) -> bool {
    &&& a.prog@ == b.prog@
    &&& a.mem@ == b.mem@
    &&& a.insn_ptr == b.insn_ptr
    &&& a.data_ptr == b.data_ptr
    &&& a.input@ == b.input@
    &&& a.output@ == b.output@
    &&& a.path == b.path
}

/// Fields every successor keeps unchanged except where its opcode says
/// otherwise.
pub open spec fn succ_frame(s: State, t: State) -> bool {
    &&& t.prog@ == s.prog@
    &&& t.mem@.len() == s.mem@.len()
}

/// Successor of a move-right: the data pointer advances modulo the tape
/// length; everything else but the instruction pointer is kept.
pub open spec fn succ_right(s: State, t: State) -> bool {
    &&& succ_frame(s, t)
    &&& t.mem@ == s.mem@
    &&& t.insn_ptr == s.insn_ptr + 1
    &&& t.data_ptr == (s.data_ptr + 1) % (s.mem@.len() as int)
    &&& t.input@ == s.input@
    &&& t.output@ == s.output@
    &&& t.path == s.path
}

/// Successor of a move-left: the data pointer recedes modulo the tape
/// length; everything else but the instruction pointer is kept.
pub open spec fn succ_left(s: State, t: State) -> bool {
    &&& succ_frame(s, t)
    &&& t.mem@ == s.mem@
    &&& t.insn_ptr == s.insn_ptr + 1
    &&& t.data_ptr == (s.data_ptr + s.mem@.len() - 1) % (s.mem@.len() as int)
    &&& t.input@ == s.input@
    &&& t.output@ == s.output@
    &&& t.path == s.path
}

/// Successor of an increment or decrement: the cell under the data pointer
/// becomes exactly the folded wrapping sum with 1, or the folded wrapping
/// difference with 1, and no other cell changes.
pub open spec fn succ_arith(s: State, t: State, is_inc: bool) -> bool {
    &&& succ_frame(s, t)
    &&& t.insn_ptr == s.insn_ptr + 1
    &&& t.data_ptr == s.data_ptr
    &&& t.mem@ == s.mem@.update(
        s.data_ptr as int,
        if is_inc {
            crate::expr::spec_mk_add(cell(s), SymByte::Const(1))
        } else {
            crate::expr::spec_mk_sub(cell(s), SymByte::Const(1))
        },
    )
    &&& forall|m: Seq<u8>| #[trigger] eval_byte(t.mem@[s.data_ptr as int], m) == if is_inc {
        vstd::wrapping::u8_specs::wrapping_add(eval_byte(cell(s), m), 1)
    } else {
        vstd::wrapping::u8_specs::wrapping_sub(eval_byte(cell(s), m), 1)
    }
    &&& t.input@ == s.input@
    &&& t.output@ == s.output@
    &&& t.path == s.path
}

/// Successor of an output: the current cell's term is appended to the
/// output stream.
pub open spec fn succ_out(s: State, t: State) -> bool {
    &&& succ_frame(s, t)
    &&& t.mem@ == s.mem@
    &&& t.insn_ptr == s.insn_ptr + 1
    &&& t.data_ptr == s.data_ptr
    &&& t.input@ == s.input@
    &&& t.output@ == s.output@.push(cell(s))
    &&& t.path == s.path
}

/// Successor of an input: a fresh input byte, named by the prior input
/// length, is appended to the input stream and written into the current
/// cell.
pub open spec fn succ_in(s: State, t: State) -> bool {
    &&& succ_frame(s, t)
    &&& t.insn_ptr == s.insn_ptr + 1
    &&& t.data_ptr == s.data_ptr
    &&& t.input@ == s.input@.push(SymByte::Var(s.input@.len() as usize))
    &&& t.mem@ == s.mem@.update(s.data_ptr as int, SymByte::Var(s.input@.len() as usize))
    &&& t.output@ == s.output@
    &&& t.path == s.path
}

/// Successor of a jump branch: the instruction pointer moves to `target`,
/// and the path condition becomes exactly the folded conjunction of the
/// old one with the predicate that the current cell is zero (`on_zero`)
/// or nonzero (`!on_zero`).
pub open spec fn succ_jump(s: State, t: State, target: int, on_zero: bool) -> bool {
    &&& succ_frame(s, t)
    &&& t.mem@ == s.mem@
    &&& t.insn_ptr == target
    &&& t.data_ptr == s.data_ptr
    &&& t.input@ == s.input@
    &&& t.output@ == s.output@
    &&& t.path == crate::expr::spec_mk_and(
        s.path,
        if on_zero {
            crate::expr::spec_mk_eq(cell(s), SymByte::Const(0))
        } else {
            crate::expr::spec_mk_not(crate::expr::spec_mk_eq(cell(s), SymByte::Const(0)))
        },
    )
    &&& forall|m: Seq<u8>| #[trigger] eval_bool(t.path, m) == (eval_bool(s.path, m) && ((
    eval_byte(cell(s), m) == 0) == on_zero))
}

/// The full step relation: what the successor sequence of a state is, by
/// the opcode under the instruction pointer. A terminated state has no
/// successors; a jump has exactly two, the taken branch first.
pub open spec fn step_rel(s: State, out: Seq<State>) -> bool {
    if s.insn_ptr == s.prog@.len() {
        out.len() == 0
    } else {
        match s.prog@[s.insn_ptr as int] {
            Insn::Right => out.len() == 1 && succ_right(s, out[0]),
            Insn::Left => out.len() == 1 && succ_left(s, out[0]),
            Insn::Inc => out.len() == 1 && succ_arith(s, out[0], true),
            Insn::Dec => out.len() == 1 && succ_arith(s, out[0], false),
            Insn::Out => out.len() == 1 && succ_out(s, out[0]),
            Insn::In => out.len() == 1 && succ_in(s, out[0]),
            Insn::JmpIfZero(tg) => out.len() == 2 && succ_jump(s, out[0], tg as int, true)
                && succ_jump(s, out[1], s.insn_ptr + 1, false),
            Insn::JmpIfNonZero(tg) => out.len() == 2 && succ_jump(s, out[0], tg as int, false)
                && succ_jump(s, out[1], s.insn_ptr + 1, true),
        }
    }
}

/// `to` is what `from` becomes after exactly `n` steps, following the
/// step relation and choosing one successor at each fork.
pub open spec fn reachable_in(from: State, to: State, n: nat) -> bool
    decreases n,
{
    if n == 0 {
        state_equiv(from, to)
    } else {
        exists|mid: State, out: Seq<State>, i: int|
            #![trigger step_rel(mid, out), state_equiv(out[i], to)]
            {
                &&& reachable_in(from, mid, (n - 1) as nat)
                &&& step_rel(mid, out)
                &&& 0 <= i < out.len()
                &&& state_equiv(out[i], to)
            }
    }
}

/// `to` arises from `from` by some number of steps.
pub open spec fn reachable(from: State, to: State) -> bool {
    exists|n: nat| reachable_in(from, to, n)
}

/// Well-formedness depends only on the components structural equality
/// compares, so it carries across equal states.
pub proof fn lemma_wf_equiv(a: State, b: State)
    requires
        state_equiv(a, b),
        a.wf(),
    ensures
        b.wf(),
{
}

/// Reachability is closed under structural equality of the reached state.
pub proof fn lemma_reachable_equiv(from: State, a: State, b: State)
    requires
        reachable(from, a),
        state_equiv(a, b),
    ensures
        reachable(from, b),
{
    let n = choose|n: nat| reachable_in(from, a, n);
    if n == 0 {
        assert(state_equiv(from, b));
        assert(reachable_in(from, b, 0));
    } else {
        let (mid, out, i) = choose|mid: State, out: Seq<State>, i: int|
            #![trigger step_rel(mid, out), state_equiv(out[i], a)]
            {
                &&& reachable_in(from, mid, (n - 1) as nat)
                &&& step_rel(mid, out)
                &&& 0 <= i < out.len()
                &&& state_equiv(out[i], a)
            };
        assert(state_equiv(out[i], b));
        assert(reachable_in(from, b, n));
    }
}

/// Every state reaches itself.
pub proof fn lemma_reachable_refl(s: State)
    ensures
        reachable(s, s),
{
    assert(reachable_in(s, s, 0));
}

/// One more step extends reachability.
pub proof fn lemma_reachable_step(from: State, mid: State, out: Seq<State>, i: int)
    requires
        reachable(from, mid),
        step_rel(mid, out),
        0 <= i < out.len(),
    ensures
        reachable(from, out[i]),
{
    let n = choose|n: nat| reachable_in(from, mid, n);
    assert(state_equiv(out[i], out[i]));
    assert(reachable_in(from, out[i], n + 1));
}

impl State {
    /// A state is well formed when its pointers are in range for its
    /// program and tape, its input stream names the input bytes in order,
    /// and no term names an input byte that has not been read yet.
    pub open spec fn wf(self) -> bool {
        &&& self.mem@.len() >= 1
        &&& targets_ok(self.prog@)
        &&& self.insn_ptr <= self.prog@.len()
        &&& self.data_ptr < self.mem@.len()
        &&& forall|k: int| 0 <= k < self.input@.len() ==> self.input@[k] == SymByte::Var(
            k as usize,
        )
        &&& self.input@.len() > 0 ==> has_input_insn(self.prog@)
        &&& forall|k: int| 0 <= k < self.mem@.len() ==> byte_vars_below(
            #[trigger] self.mem@[k],
            self.input@.len() as int,
        )
        &&& forall|k: int| 0 <= k < self.output@.len() ==> byte_vars_below(
            #[trigger] self.output@[k],
            self.input@.len() as int,
        )
        &&& bool_vars_below(self.path, self.input@.len() as int)
    }

    /// The entry state of a run: a zeroed tape of the given size, both
    /// pointers at 0, empty streams, and the trivially true path condition.
    pub fn make_entry(prog: Rc<Prog>, mem_size: usize) -> (r: State)
        requires
            mem_size >= 1,
            targets_ok(prog@),
        ensures
            r.wf(),
            r.prog@ == prog@,
            r.mem@.len() == mem_size,
            forall|k: int| 0 <= k < mem_size ==> r.mem@[k] == SymByte::Const(0),
            r.insn_ptr == 0,
            r.data_ptr == 0,
            r.input@.len() == 0,
            r.output@.len() == 0,
            r.path == BoolExpr::Lit(true),
    {
        State {
            prog,
            mem: init_mem(mem_size),
            insn_ptr: 0,
            data_ptr: 0,
            input: SymBytes(Vec::new()),
            output: SymBytes(Vec::new()),
            path: BoolExpr::Lit(true),
        }
    }

    /// Whether the state has run past the last opcode.
    pub fn exited(&self) -> (r: bool)
        ensures
            r == (self.insn_ptr == self.prog@.len()),
    {
        self.insn_ptr == prog_ref(&self.prog).0.len()
    }

    /// The term held by the cell under the data pointer.
    fn get_cell(&self) -> (r: SymByte)
        requires
            self.wf(),
        ensures
            r == cell(*self),
    {
        clone_byte(&self.mem.0[self.data_ptr])
    }

    /// A copy of this state whose current cell holds `val` instead.
    fn set_cell(&self, val: SymByte) -> (t: State)
        requires
            self.wf(),
        ensures
            t.prog@ == self.prog@,
            t.mem@ == self.mem@.update(self.data_ptr as int, val),
            t.insn_ptr == self.insn_ptr,
            t.data_ptr == self.data_ptr,
            t.input@ == self.input@,
            t.output@ == self.output@,
            t.path == self.path,
    {
        let mut mem = clone_syms(&self.mem);
        mem.0.set(self.data_ptr, val);
        proof {
            assert(mem@ =~= self.mem@.update(self.data_ptr as int, val));
        }
        State {
            prog: rc_clone_prog(&self.prog),
            mem,
            insn_ptr: self.insn_ptr,
            data_ptr: self.data_ptr,
            input: clone_syms(&self.input),
            output: clone_syms(&self.output),
            path: clone_bool(&self.path),
        }
    }

    /// Successor for a move-right.
    fn op_right(&self) -> (t: State)
        requires
            self.wf(),
            self.insn_ptr < self.prog@.len(),
            self.prog@.len() <= usize::MAX,
        ensures
            succ_right(*self, t),
            t.wf(),
    {
        let len = self.mem.0.len();
        State {
            prog: rc_clone_prog(&self.prog),
            mem: clone_syms(&self.mem),
            insn_ptr: self.insn_ptr + 1,
            data_ptr: (self.data_ptr + 1) % len,
            input: clone_syms(&self.input),
            output: clone_syms(&self.output),
            path: clone_bool(&self.path),
        }
    }

    /// Successor for a move-left. The wrap-around on both sides is
    /// intentional; the guarded decrement avoids underflow and equals the
    /// modular form.
    fn op_left(&self) -> (t: State)
        requires
            self.wf(),
            self.insn_ptr < self.prog@.len(),
            self.prog@.len() <= usize::MAX,
        ensures
            succ_left(*self, t),
            t.wf(),
    {
        let len = self.mem.0.len();
        let dp = if self.data_ptr == 0 {
            len - 1
        } else {
            self.data_ptr - 1
        };
        proof {
            if self.data_ptr == 0 {
                vstd::arithmetic::div_mod::lemma_small_mod((len - 1) as nat, len as nat);
            } else {
                vstd::arithmetic::div_mod::lemma_mod_multiples_vanish(
                    1,
                    self.data_ptr - 1,
                    len as int,
                );
                vstd::arithmetic::div_mod::lemma_small_mod((self.data_ptr - 1) as nat, len as nat);
            }
        }
        State {
            prog: rc_clone_prog(&self.prog),
            mem: clone_syms(&self.mem),
            insn_ptr: self.insn_ptr + 1,
            data_ptr: dp,
            input: clone_syms(&self.input),
            output: clone_syms(&self.output),
            path: clone_bool(&self.path),
        }
    }

    /// Successor for an increment or decrement: the cell's term becomes
    /// its wrapping sum or difference with the 8-bit constant 1, folded by
    /// the term constructors.
    fn op_inc_dec_helper(&self, is_inc: bool) -> (t: State)
        requires
            self.wf(),
            self.insn_ptr < self.prog@.len(),
            self.prog@.len() <= usize::MAX,
        ensures
            succ_arith(*self, t, is_inc),
            t.wf(),
    {
        let old_val = self.get_cell();
        let new_val = if is_inc {
            mk_add(old_val, SymByte::Const(1))
        } else {
            mk_sub(old_val, SymByte::Const(1))
        };
        proof {
            assert(byte_vars_below(cell(*self), self.input@.len() as int));
            assert(byte_vars_below(SymByte::Const(1), self.input@.len() as int));
        }
        let with_cell = self.set_cell(new_val);
        let t = State {
            prog: with_cell.prog,
            mem: with_cell.mem,
            insn_ptr: self.insn_ptr + 1,
            data_ptr: with_cell.data_ptr,
            input: with_cell.input,
            output: with_cell.output,
            path: with_cell.path,
        };
        proof {
            assert(forall|m: Seq<u8>| #[trigger] eval_byte(SymByte::Const(1), m) == 1u8);
        }
        t
    }

    /// Successor for an increment.
    fn op_inc(&self) -> (t: State)
        requires
            self.wf(),
            self.insn_ptr < self.prog@.len(),
            self.prog@.len() <= usize::MAX,
        ensures
            succ_arith(*self, t, true),
            t.wf(),
    {
        self.op_inc_dec_helper(true)
    }

    /// Successor for a decrement.
    fn op_dec(&self) -> (t: State)
        requires
            self.wf(),
            self.insn_ptr < self.prog@.len(),
            self.prog@.len() <= usize::MAX,
        ensures
            succ_arith(*self, t, false),
            t.wf(),
    {
        self.op_inc_dec_helper(false)
    }

    /// Successor for an output: appends the current cell's term to the
    /// output stream.
    fn op_out(&self) -> (t: State)
        requires
            self.wf(),
            self.insn_ptr < self.prog@.len(),
            self.prog@.len() <= usize::MAX,
        ensures
            succ_out(*self, t),
            t.wf(),
    {
        let mut output = clone_syms(&self.output);
        output.0.push(self.get_cell());
        proof {
            assert(output@ =~= self.output@.push(cell(*self)));
        }
        State {
            prog: rc_clone_prog(&self.prog),
            mem: clone_syms(&self.mem),
            insn_ptr: self.insn_ptr + 1,
            data_ptr: self.data_ptr,
            input: clone_syms(&self.input),
            output,
            path: clone_bool(&self.path),
        }
    }

    /// Successor for an input: allocates the fresh input byte named by the
    /// prior input length, appends it to the input stream, and writes it
    /// into the current cell.
    fn op_in(&self) -> (t: State)
        requires
            self.wf(),
            self.insn_ptr < self.prog@.len(),
            self.prog@.len() <= usize::MAX,
            self.prog@[self.insn_ptr as int] == Insn::In,
        ensures
            succ_in(*self, t),
            t.wf(),
    {
        let k = self.input.0.len();
        let val = SymByte::Var(k);
        let with_cell = self.set_cell(val);
        let mut input = clone_syms(&self.input);
        input.0.push(SymByte::Var(k));
        proof {
            assert(input@ =~= self.input@.push(SymByte::Var(k)));
        }
        let t = State {
            prog: with_cell.prog,
            mem: with_cell.mem,
            insn_ptr: self.insn_ptr + 1,
            data_ptr: with_cell.data_ptr,
            input,
            output: with_cell.output,
            path: with_cell.path,
        };
        proof {
            let n = self.input@.len() as int;
            assert forall|j: int| 0 <= j < t.mem@.len() implies byte_vars_below(
                #[trigger] t.mem@[j],
                n + 1,
            ) by {
                if j == self.data_ptr as int {
                    assert(t.mem@[j] == SymByte::Var(k));
                } else {
                    lemma_byte_vars_below_mono(self.mem@[j], n, n + 1);
                }
            }
            assert forall|j: int| 0 <= j < t.output@.len() implies byte_vars_below(
                #[trigger] t.output@[j],
                n + 1,
            ) by {
                lemma_byte_vars_below_mono(self.output@[j], n, n + 1);
            }
            lemma_bool_vars_below_mono(self.path, n, n + 1);
            assert(t.input@[n] == SymByte::Var(k));
        }
        t
    }

    /// The two successors of a jump: the taken branch first, with the
    /// branch predicate conjoined to the path, then the fall-through
    /// branch with its negation.
    fn op_jmp_helper(&self, target: usize, if_zero: bool) -> (r: Vec<State>)
        requires
            self.wf(),
            self.insn_ptr < self.prog@.len(),
            self.prog@.len() <= usize::MAX,
            target <= self.prog@.len(),
        ensures
            r@.len() == 2,
            succ_jump(*self, r@[0], target as int, if_zero),
            succ_jump(*self, r@[1], self.insn_ptr + 1, !if_zero),
            r@[0].wf(),
            r@[1].wf(),
    {
        let cell_eq_zero = mk_eq(self.get_cell(), SymByte::Const(0));
        let cell_not_eq_zero = mk_not(clone_bool(&cell_eq_zero));

        let zero_path = mk_and(clone_bool(&self.path), cell_eq_zero);
        let non_zero_path = mk_and(clone_bool(&self.path), cell_not_eq_zero);

        let (taken_path, not_taken_path) = if if_zero {
            (zero_path, non_zero_path)
        } else {
            (non_zero_path, zero_path)
        };

        proof {
            assert(byte_vars_below(cell(*self), self.input@.len() as int));
            assert(byte_vars_below(SymByte::Const(0), self.input@.len() as int));
            assert(forall|m: Seq<u8>| #[trigger] eval_byte(SymByte::Const(0), m) == 0u8);
        }

        let taken = State {
            prog: rc_clone_prog(&self.prog),
            mem: clone_syms(&self.mem),
            insn_ptr: target,
            data_ptr: self.data_ptr,
            input: clone_syms(&self.input),
            output: clone_syms(&self.output),
            path: taken_path,
        };
        let not_taken = State {
            prog: rc_clone_prog(&self.prog),
            mem: clone_syms(&self.mem),
            insn_ptr: self.insn_ptr + 1,
            data_ptr: self.data_ptr,
            input: clone_syms(&self.input),
            output: clone_syms(&self.output),
            path: not_taken_path,
        };

        let mut r: Vec<State> = Vec::new();
        r.push(taken);
        r.push(not_taken);
        r
    }

    /// Successors of a jump-if-zero.
    fn op_jmp_if_zero(&self, target: usize) -> (r: Vec<State>)
        requires
            self.wf(),
            self.insn_ptr < self.prog@.len(),
            self.prog@.len() <= usize::MAX,
            target <= self.prog@.len(),
        ensures
            r@.len() == 2,
            succ_jump(*self, r@[0], target as int, true),
            succ_jump(*self, r@[1], self.insn_ptr + 1, false),
            r@[0].wf(),
            r@[1].wf(),
    {
        self.op_jmp_helper(target, true)
    }

    /// Successors of a jump-if-nonzero.
    fn op_jmp_if_non_zero(&self, target: usize) -> (r: Vec<State>)
        requires
            self.wf(),
            self.insn_ptr < self.prog@.len(),
            self.prog@.len() <= usize::MAX,
            target <= self.prog@.len(),
        ensures
            r@.len() == 2,
            succ_jump(*self, r@[0], target as int, false),
            succ_jump(*self, r@[1], self.insn_ptr + 1, true),
            r@[0].wf(),
            r@[1].wf(),
    {
        self.op_jmp_helper(target, false)
    }

    /// The single-step transition: consults the opcode under the
    /// instruction pointer and returns the successor states, in the fixed
    /// order `step_rel` describes. Never consults the solver.
    pub fn step(&self) -> (r: Vec<State>)
        requires
            self.wf(),
        ensures
            step_rel(*self, r@),
            forall|i: int| 0 <= i < r@.len() ==> (#[trigger] r@[i]).wf(),
    {
        let n = prog_ref(&self.prog).0.len();
        if self.insn_ptr >= n {
            return Vec::new();
        }
        proof {
            assert(self.prog@.len() <= usize::MAX);
        }
        let insn = prog_ref(&self.prog).0[self.insn_ptr];
        match insn {
            Insn::Right => {
                let mut r: Vec<State> = Vec::new();
                r.push(self.op_right());
                r
            },
            Insn::Left => {
                let mut r: Vec<State> = Vec::new();
                r.push(self.op_left());
                r
            },
            Insn::Inc => {
                let mut r: Vec<State> = Vec::new();
                r.push(self.op_inc());
                r
            },
            Insn::Dec => {
                let mut r: Vec<State> = Vec::new();
                r.push(self.op_dec());
                r
            },
            Insn::Out => {
                let mut r: Vec<State> = Vec::new();
                r.push(self.op_out());
                r
            },
            Insn::In => {
                let mut r: Vec<State> = Vec::new();
                r.push(self.op_in());
                r
            },
            Insn::JmpIfZero(tg) => self.op_jmp_if_zero(tg),
            Insn::JmpIfNonZero(tg) => self.op_jmp_if_non_zero(tg),
        }
    }
}

/// Stepping is deterministic up to structural equality: equal states
/// yield equally many successors, and the successors are structurally
/// equal position for position. This holds because every successor
/// component, the folded terms included, is pinned as a function of the
/// stepped state's components.
pub proof fn lemma_step_deterministic(s1: State, s2: State, out1: Seq<State>, out2: Seq<State>)
    requires
        state_equiv(s1, s2),
        step_rel(s1, out1),
        step_rel(s2, out2),
    ensures
        out1.len() == out2.len(),
        forall|i: int| 0 <= i < out1.len() ==> state_equiv(#[trigger] out1[i], out2[i]),
{
    if s1.insn_ptr < s1.prog@.len() {
        assert(s2.prog@[s2.insn_ptr as int] == s1.prog@[s1.insn_ptr as int]);
        assert(cell(s1) == cell(s2));
        assert forall|i: int| 0 <= i < out1.len() implies state_equiv(
            #[trigger] out1[i],
            out2[i],
        ) by {
            match s1.prog@[s1.insn_ptr as int] {
                Insn::Right => {
                    assert(succ_right(s1, out1[0]) && succ_right(s2, out2[0]));
                },
                Insn::Left => {
                    assert(succ_left(s1, out1[0]) && succ_left(s2, out2[0]));
                },
                Insn::Inc => {
                    assert(succ_arith(s1, out1[0], true) && succ_arith(s2, out2[0], true));
                },
                Insn::Dec => {
                    assert(succ_arith(s1, out1[0], false) && succ_arith(s2, out2[0], false));
                },
                Insn::Out => {
                    assert(succ_out(s1, out1[0]) && succ_out(s2, out2[0]));
                },
                Insn::In => {
                    assert(succ_in(s1, out1[0]) && succ_in(s2, out2[0]));
                },
                Insn::JmpIfZero(tg) => {
                    if i == 0 {
                        assert(succ_jump(s1, out1[0], tg as int, true) && succ_jump(
                            s2,
                            out2[0],
                            tg as int,
                            true,
                        ));
                    } else {
                        assert(succ_jump(s1, out1[1], s1.insn_ptr + 1, false) && succ_jump(
                            s2,
                            out2[1],
                            s2.insn_ptr + 1,
                            false,
                        ));
                    }
                },
                Insn::JmpIfNonZero(tg) => {
                    if i == 0 {
                        assert(succ_jump(s1, out1[0], tg as int, false) && succ_jump(
                            s2,
                            out2[0],
                            tg as int,
                            false,
                        ));
                    } else {
                        assert(succ_jump(s1, out1[1], s1.insn_ptr + 1, true) && succ_jump(
                            s2,
                            out2[1],
                            s2.insn_ptr + 1,
                            true,
                        ));
                    }
                },
            }
        }
    }
}

/// A zeroed symbolic tape of the given size.
fn init_mem(mem_size: usize) -> (r: SymBytes)
    ensures
        r@.len() == mem_size,
        forall|k: int| 0 <= k < mem_size ==> r@[k] == SymByte::Const(0),
{
    let mut v: Vec<SymByte> = Vec::new();
    let mut k: usize = 0;
    while k < mem_size
        invariant
            k <= mem_size,
            v@.len() == k,
            forall|i: int| 0 <= i < k ==> v@[i] == SymByte::Const(0),
        decreases mem_size - k,
    {
        v.push(SymByte::Const(0));
        k += 1;
    }
    SymBytes(v)
}

impl PartialEq for State {
    /// Structural comparison over the shared program, tape, pointers,
    /// streams and path condition.
    fn eq(&self, other: &Self) -> (r: bool) {
        self.insn_ptr == other.insn_ptr && self.data_ptr == other.data_ptr && syms_equal(
            &self.mem,
            &other.mem,
        ) && syms_equal(&self.input, &other.input) && syms_equal(&self.output, &other.output)
            && self.path == other.path && prog_equal(prog_ref(&self.prog), prog_ref(&other.prog))
    }
}

impl vstd::std_specs::cmp::PartialEqSpecImpl for State {
    open spec fn obeys_eq_spec() -> bool {
        true
    }

    open spec fn eq_spec(&self, other: &Self) -> bool {
        state_equiv(*self, *other)
    }
}

impl Clone for State {
    /// A copy that shares the program and carries equal terms.
    fn clone(&self) -> (r: Self)
        ensures
            state_equiv(r, *self),
    {
        State {
            prog: rc_clone_prog(&self.prog),
            mem: clone_syms(&self.mem),
            insn_ptr: self.insn_ptr,
            data_ptr: self.data_ptr,
            input: clone_syms(&self.input),
            output: clone_syms(&self.output),
            path: clone_bool(&self.path),
        }
    }
}

/// Structural equality on symbolic states is reflexive, symmetric and
/// transitive.
pub proof fn lemma_state_equiv_equivalence(a: State, b: State, c: State)
    ensures
        state_equiv(a, a),
        state_equiv(a, b) ==> state_equiv(b, a),
        state_equiv(a, b) && state_equiv(b, c) ==> state_equiv(a, c),
{
}

/// The seed of the structural state hash.
pub const HASH_SEED: u64 = 0xcbf29ce484222325;

/// The multiplier of the structural state hash.
pub const HASH_PRIME: u64 = 0x100000001b3;

/// One mixing round of the structural hash.
pub open spec fn mix(h: u64, x: u64) -> u64 {
    vstd::wrapping::u64_specs::wrapping_mul(h ^ x, HASH_PRIME)
}

/// Structural hash of a byte term, folded into `h`.
pub open spec fn hash_byte_t(h: u64, e: SymByte) -> u64
    decreases e,
{
    match e {
        SymByte::Const(c) => mix(mix(h, 1), c as u64),
        SymByte::Var(k) => mix(mix(h, 2), k as u64),
        SymByte::Add(a, b) => hash_byte_t(hash_byte_t(mix(h, 3), *a), *b),
        SymByte::Sub(a, b) => hash_byte_t(hash_byte_t(mix(h, 4), *a), *b),
    }
}

/// Structural hash of a constraint, folded into `h`.
pub open spec fn hash_bool_t(h: u64, e: BoolExpr) -> u64
    decreases e,
{
    match e {
        BoolExpr::Lit(b) => mix(
            h,
            if b {
                5
            } else {
                6
            },
        ),
        BoolExpr::Equals(a, b) => hash_byte_t(hash_byte_t(mix(h, 7), a), b),
        BoolExpr::Not(p) => hash_bool_t(mix(h, 8), *p),
        BoolExpr::And(p, q) => hash_bool_t(hash_bool_t(mix(h, 9), *p), *q),
    }
}

/// Structural hash of a term sequence from position `i` on, folded into `h`.
pub open spec fn hash_syms_from(h: u64, v: Seq<SymByte>, i: int) -> u64
    decreases v.len() - i,
{
    if i < 0 || i >= v.len() {
        h
    } else {
        hash_syms_from(hash_byte_t(h, v[i]), v, i + 1)
    }
}

/// Structural hash of a whole state. It reads exactly the components that
/// `state_equiv` compares, except the program, which is shared by every
/// state of a run.
pub open spec fn spec_state_hash(s: State) -> u64 {
    let h0 = mix(HASH_SEED, s.insn_ptr as u64);
    let h1 = mix(h0, s.data_ptr as u64);
    let h2 = hash_syms_from(h1, s.mem@, 0);
    let h3 = mix(h2, s.input@.len() as u64);
    let h4 = hash_syms_from(h3, s.output@, 0);
    hash_bool_t(h4, s.path)
}

/// Equal states hash alike: the structural hash is a function of exactly
/// the components that structural equality compares, the shared program
/// aside.
pub proof fn lemma_state_hash_consistent(a: State, b: State)
    requires
        state_equiv(a, b),
    ensures
        spec_state_hash(a) == spec_state_hash(b),
{
}

/// One mixing round, computed.
fn mix_exec(h: u64, x: u64) -> (r: u64)
    ensures
        r == mix(h, x),
{
    (h ^ x).wrapping_mul(HASH_PRIME)
}

/// Structural hash of a byte term, computed.
fn hash_byte_exec(h: u64, e: &SymByte) -> (r: u64)
    ensures
        r == hash_byte_t(h, *e),
    decreases *e,
{
    match e {
        SymByte::Const(c) => mix_exec(mix_exec(h, 1), *c as u64),
        SymByte::Var(k) => mix_exec(mix_exec(h, 2), *k as u64),
        SymByte::Add(a, b) => hash_byte_exec(hash_byte_exec(mix_exec(h, 3), &**a), &**b),
        SymByte::Sub(a, b) => hash_byte_exec(hash_byte_exec(mix_exec(h, 4), &**a), &**b),
    }
}

/// Structural hash of a constraint, computed.
fn hash_bool_exec(h: u64, e: &BoolExpr) -> (r: u64)
    ensures
        r == hash_bool_t(h, *e),
    decreases *e,
{
    match e {
        BoolExpr::Lit(b) => mix_exec(
            h,
            if *b {
                5
            } else {
                6
            },
        ),
        BoolExpr::Equals(a, b) => hash_byte_exec(hash_byte_exec(mix_exec(h, 7), a), b),
        BoolExpr::Not(p) => hash_bool_exec(mix_exec(h, 8), &**p),
        BoolExpr::And(p, q) => hash_bool_exec(hash_bool_exec(mix_exec(h, 9), &**p), &**q),
    }
}

/// Structural hash of a term sequence, computed.
fn hash_syms_exec(h: u64, v: &SymBytes) -> (r: u64)
    ensures
        r == hash_syms_from(h, v@, 0),
{
    let n = v.0.len();
    let mut acc = h;
    let mut k: usize = 0;
    while k < n
        invariant
            n == v.0@.len(),
            k <= n,
            hash_syms_from(h, v.0@, 0) == hash_syms_from(acc, v.0@, k as int),
        decreases n - k,
    {
        acc = hash_byte_exec(acc, &v.0[k]);
        k += 1;
    }
    acc
}

/// Structural hash of a whole state, computed.
pub fn state_hash(s: &State) -> (r: u64)
    ensures
        r == spec_state_hash(*s),
{
    let h0 = mix_exec(HASH_SEED, s.insn_ptr as u64);
    let h1 = mix_exec(h0, s.data_ptr as u64);
    let h2 = hash_syms_exec(h1, &s.mem);
    let h3 = mix_exec(h2, s.input.0.len() as u64);
    let h4 = hash_syms_exec(h3, &s.output);
    hash_bool_exec(h4, &s.path)
}

/// A concrete snapshot is the state read under an assignment of the input
/// bytes: every term evaluated under `m`, the pointers copied over.
pub open spec fn concrete_of(s: State, m: Seq<u8>, cs: ConcreteState) -> bool {
    &&& cs.mem@.len() == s.mem@.len()
    &&& forall|k: int| 0 <= k < s.mem@.len() ==> cs.mem@[k] == eval_byte(#[trigger] s.mem@[k], m)
    &&& cs.insn_ptr == s.insn_ptr
    &&& cs.data_ptr == s.data_ptr
    &&& cs.input@.len() == s.input@.len()
    &&& forall|k: int| 0 <= k < s.input@.len() ==> cs.input@[k] == eval_byte(
        #[trigger] s.input@[k],
        m,
    )
    &&& cs.output@.len() == s.output@.len()
    &&& forall|k: int| 0 <= k < s.output@.len() ==> cs.output@[k] == eval_byte(
        #[trigger] s.output@[k],
        m,
    )
}

/// Evaluates every term of a symbolic byte sequence under an assignment.
fn eval_syms(v: &SymBytes, m: &Vec<u8>) -> (r: Vec<u8>)
    ensures
        r@.len() == v@.len(),
        forall|k: int| 0 <= k < v@.len() ==> r@[k] == eval_byte(#[trigger] v@[k], m@),
{
    let n = v.0.len();
    let mut out: Vec<u8> = Vec::new();
    let mut k: usize = 0;
    while k < n
        invariant
            n == v.0@.len(),
            k <= n,
            out@.len() == k,
            forall|i: int| 0 <= i < k ==> out@[i] == eval_byte(#[trigger] v.0@[i], m@),
        decreases n - k,
    {
        out.push(eval_byte_exec(&v.0[k], m));
        k += 1;
    }
    out
}

impl ConcreteState {
    /// Reads a state concretely under a model of its path condition.
    pub fn from_model(state: &State, m: &Vec<u8>) -> (r: ConcreteState)
        ensures
            concrete_of(*state, m@, r),
    {
        ConcreteState {
            mem: eval_syms(&state.mem, m),
            insn_ptr: state.insn_ptr,
            data_ptr: state.data_ptr,
            input: eval_syms(&state.input, m),
            output: eval_syms(&state.output, m),
        }
    }
}

impl State {
    /// Asks the cache for a model of `path AND extra` and, on a model,
    /// materializes the concrete state it induces. `Unsat` and `Unknown`
    /// are returned unchanged: the former is a proof that no assignment
    /// reaches this state under the extra constraint.
    pub fn concretize_helper(&self, solver: &mut CachedSolver, constraint: Option<&BoolExpr>) -> (r:
        Result<ConcreteState, Error>)
        requires
            self.wf(),
            old(solver).wf(),
        ensures
            final(solver).wf(),
            match r {
                Ok(cs) => exists|m: Seq<u8>|
                    {
                        &&& #[trigger] eval_bool(self.path, m)
                        &&& constraint matches Some(c) ==> eval_bool(*c, m)
                        &&& concrete_of(*self, m, cs)
                    },
                Err(e) => e == Error::Unsat ==> forall|m: Seq<u8>|
                    !(eval_bool(self.path, m) && (constraint matches Some(c) ==> eval_bool(
                        *c,
                        m,
                    ))),
            },
    {
        let query = match constraint {
            Some(c) => mk_and(clone_bool(&self.path), clone_bool(c)),
            None => clone_bool(&self.path),
        };
        let ghost gq = query;
        let nvars = self.input.0.len();
        match solver.solve(query, nvars) {
            Ok(model) => {
                let cs = ConcreteState::from_model(self, &model);
                proof {
                    let m = model@;
                    assert(eval_bool(gq, m));
                    match constraint {
                        Some(c) => {
                            assert(eval_bool(self.path, m) && eval_bool(*c, m));
                        },
                        None => {
                            assert(eval_bool(self.path, m));
                        },
                    }
                }
                Ok(cs)
            },
            Err(err) => {
                proof {
                    if err == Error::Unsat {
                        assert forall|m: Seq<u8>|
                            !(eval_bool(self.path, m) && (constraint matches Some(c)
                                ==> eval_bool(*c, m))) by {
                            assert(!eval_bool(gq, m));
                        }
                    }
                }
                Err(err)
            },
        }
    }

    /// Asks for a model of the path condition alone.
    pub fn concretize(&self, solver: &mut CachedSolver) -> (r: Result<ConcreteState, Error>)
        requires
            self.wf(),
            old(solver).wf(),
        ensures
            final(solver).wf(),
            match r {
                Ok(cs) => exists|m: Seq<u8>| #[trigger] eval_bool(self.path, m) && concrete_of(
                    *self,
                    m,
                    cs,
                ),
                Err(e) => e == Error::Unsat ==> forall|m: Seq<u8>| !eval_bool(self.path, m),
            },
    {
        let r = self.concretize_helper(solver, None);
        r
    }

    /// Asks whether the path condition alone is satisfiable. On a model
    /// it hands back the satisfying input bytes.
    pub fn check_sat(&self, solver: &mut CachedSolver) -> (r: Result<Vec<u8>, Error>)
        requires
            self.wf(),
            old(solver).wf(),
        ensures
            final(solver).wf(),
            r matches Ok(m) ==> eval_bool(self.path, m@),
            r matches Err(e) ==> (e == Error::Unsat ==> forall|m: Seq<u8>|
                !eval_bool(self.path, m)),
    {
        let q = clone_bool(&self.path);
        let r = solver.solve(q, self.input.0.len());
        r
    }

    /// Asks whether the path condition conjoined with an extra constraint
    /// is satisfiable. On a model it hands back the satisfying input
    /// bytes.
    pub fn check_sat_with(&self, solver: &mut CachedSolver, constraint: &BoolExpr) -> (r: Result<
        Vec<u8>,
        Error,
    >)
        requires
            self.wf(),
            old(solver).wf(),
        ensures
            final(solver).wf(),
            r matches Ok(m) ==> eval_bool(self.path, m@) && eval_bool(*constraint, m@),
            r matches Err(e) ==> (e == Error::Unsat ==> forall|m: Seq<u8>|
                !(eval_bool(self.path, m) && eval_bool(*constraint, m))),
    {
        let q = mk_and(clone_bool(&self.path), clone_bool(constraint));
        let ghost gq = q;
        let r = solver.solve(q, self.input.0.len());
        proof {
            if r is Ok {
                assert(eval_bool(gq, r->Ok_0@));
            }
            if r == Err::<Vec<u8>, Error>(Error::Unsat) {
                assert forall|m: Seq<u8>|
                    !(eval_bool(self.path, m) && eval_bool(*constraint, m)) by {
                    assert(!eval_bool(gq, m));
                }
            }
        }
        r
    }

    /// Asks for a model of the path condition conjoined with an extra
    /// constraint.
    pub fn concretize_with(&self, solver: &mut CachedSolver, constraint: &BoolExpr) -> (r: Result<
        ConcreteState,
        Error,
    >)
        requires
            self.wf(),
            old(solver).wf(),
        ensures
            final(solver).wf(),
            match r {
                Ok(cs) => exists|m: Seq<u8>|
                    {
                        &&& #[trigger] eval_bool(self.path, m)
                        &&& eval_bool(*constraint, m)
                        &&& concrete_of(*self, m, cs)
                    },
                Err(e) => e == Error::Unsat ==> forall|m: Seq<u8>|
                    !(eval_bool(self.path, m) && eval_bool(*constraint, m)),
            },
    {
        let r = self.concretize_helper(solver, Some(constraint));
        r
    }
}

/// A symbolic prefix matches a concrete byte sequence under `m` when the
/// terms they share positionwise evaluate to those bytes.
pub open spec fn prefix_match(sy: Seq<SymByte>, co: Seq<u8>, m: Seq<u8>) -> bool {
    forall|i: int|
        0 <= i < sy.len() && i < co.len() ==> eval_byte(#[trigger] sy[i], m) == co[i]
}

impl SymBytes {
    /// The conjunction, over the positions the two sequences share, of
    /// "this term equals that byte". Solving it alongside a path condition
    /// asks whether the symbolic stream can spell the concrete one.
    pub fn syms_eq(syms: &SymBytes, concr: &[u8]) -> (r: BoolExpr)
        ensures
            forall|m: Seq<u8>| #[trigger] eval_bool(r, m) == prefix_match(syms@, concr@, m),
            forall|n: int|
                (forall|k: int| 0 <= k < syms@.len() ==> byte_vars_below(#[trigger] syms@[k], n))
                    ==> #[trigger] bool_vars_below(r, n),
    {
        let len = if syms.0.len() < concr.len() {
            syms.0.len()
        } else {
            concr.len()
        };
        let mut acc = BoolExpr::Lit(true);
        proof {
            assert(forall|m: Seq<u8>| #[trigger] eval_bool(BoolExpr::Lit(true), m));
            assert(forall|n: int| #[trigger] bool_vars_below(BoolExpr::Lit(true), n));
        }
        let mut k: usize = 0;
        while k < len
            invariant
                len <= syms.0@.len(),
                len <= concr@.len(),
                k <= len,
                forall|m: Seq<u8>| #[trigger] eval_bool(acc, m) == (forall|i: int|
                    0 <= i < k ==> eval_byte(#[trigger] syms.0@[i], m) == concr@[i]),
                forall|n: int|
                    (forall|j: int| 0 <= j < syms@.len() ==> byte_vars_below(
                        #[trigger] syms@[j],
                        n,
                    )) ==> #[trigger] bool_vars_below(acc, n),
            decreases len - k,
        {
            let eq = mk_eq(clone_byte(&syms.0[k]), SymByte::Const(concr[k]));
            let ghost geq = eq;
            let ghost old_acc = acc;
            acc = mk_and(acc, eq);
            proof {
                assert forall|n: int|
                    (forall|j: int| 0 <= j < syms@.len() ==> byte_vars_below(
                        #[trigger] syms@[j],
                        n,
                    )) implies #[trigger] bool_vars_below(acc, n) by {
                    assert(byte_vars_below(syms@[k as int], n));
                    assert(byte_vars_below(SymByte::Const(concr@[k as int]), n));
                    assert(bool_vars_below(old_acc, n));
                    assert(bool_vars_below(geq, n));
                }
                assert forall|m: Seq<u8>| #[trigger] eval_bool(acc, m) == (forall|i: int|
                    0 <= i < k + 1 ==> eval_byte(#[trigger] syms.0@[i], m) == concr@[i]) by {
                    assert(eval_byte(SymByte::Const(concr@[k as int]), m) == concr@[k as int]);
                    if eval_bool(acc, m) {
                        assert(eval_bool(old_acc, m));
                        assert forall|i: int|
                            0 <= i < k + 1 implies eval_byte(#[trigger] syms.0@[i], m)
                            == concr@[i] by {
                            if i < k {
                            } else {
                            }
                        }
                    }
                }
            }
            k += 1;
        }
        proof {
            assert forall|m: Seq<u8>| #[trigger] eval_bool(acc, m) == prefix_match(
                syms@,
                concr@,
                m,
            ) by {
                if eval_bool(acc, m) {
                    assert forall|i: int|
                        0 <= i < syms@.len() && i < concr@.len() implies eval_byte(
                        #[trigger] syms@[i],
                        m,
                    ) == concr@[i] by {
                        assert(i < len);
                    }
                }
            }
        }
        acc
    }
}

/// Every successor keeps the tape length, and its data pointer stays on
/// the tape.
pub proof fn lemma_step_tape(s: State, out: Seq<State>)
    requires
        s.wf(),
        step_rel(s, out),
    ensures
        forall|i: int|
            0 <= i < out.len() ==> (#[trigger] out[i]).mem@.len() == s.mem@.len()
                && 0 <= out[i].data_ptr < s.mem@.len(),
{
    let len = s.mem@.len() as int;
    if s.insn_ptr < s.prog@.len() {
        match s.prog@[s.insn_ptr as int] {
            Insn::Right => {
                vstd::arithmetic::div_mod::lemma_mod_bound(s.data_ptr + 1, len);
            },
            Insn::Left => {
                vstd::arithmetic::div_mod::lemma_mod_bound(s.data_ptr + len - 1, len);
            },
            _ => {},
        }
    }
}

/// A step returns zero, one or two successors: two exactly at a jump, and
/// zero exactly at termination.
pub proof fn lemma_step_count(s: State, out: Seq<State>)
    requires
        s.wf(),
        step_rel(s, out),
    ensures
        out.len() <= 2,
        (out.len() == 2) <==> (s.insn_ptr < s.prog@.len() && (s.prog@[s.insn_ptr as int]
            is JmpIfZero || s.prog@[s.insn_ptr as int] is JmpIfNonZero)),
        (out.len() == 0) <==> (s.insn_ptr == s.prog@.len()),
{
}

/// At a jump with target `tg`, the two successors set the instruction
/// pointer to exactly the target and the fall-through index.
pub proof fn lemma_step_jump_targets(s: State, out: Seq<State>, tg: usize)
    requires
        s.wf(),
        step_rel(s, out),
        s.insn_ptr < s.prog@.len(),
        s.prog@[s.insn_ptr as int] == Insn::JmpIfZero(tg) || s.prog@[s.insn_ptr as int]
            == Insn::JmpIfNonZero(tg),
    ensures
        out.len() == 2,
        out[0].insn_ptr == tg,
        out[1].insn_ptr == s.insn_ptr + 1,
{
}


} // verus!
