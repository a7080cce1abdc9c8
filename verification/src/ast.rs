//! Programs of the eight-instruction tape language.
//!
//! Source text is a byte sequence in which the eight command bytes
//! `> < + - . , [ ]` are meaningful and every other byte is ignored.
//! Parsing lowers the bracket structure directly to a linear opcode
//! stream with resolved jump targets: a loop becomes a jump-if-zero
//! whose target is the index just past the matching jump-if-nonzero,
//! and that jump-if-nonzero points back to the index just past the
//! jump-if-zero, so no bracket search is needed while stepping.

use vstd::prelude::*;
use vstd::string::StringSliceAdditionalSpecFns;

verus! {

/// One opcode of the lowered program.
#[derive(Copy, Clone, PartialEq, Eq, Structural, Debug)]
pub enum Insn {
    /// '>' - Move the data pointer to the right
    Right,
    /// '<' - Move the data pointer to the left
    Left,
    /// '+' - Increment the memory cell under the pointer
    Inc,
    /// '-' - Decrement the memory cell under the pointer
    Dec,
    /// '.' - Output the byte held by the cell at the pointer
    Out,
    /// ',' - Read an input byte into the cell at the pointer
    In,
    /// '[' - Jump to the carried index if the cell under the pointer is 0
    JmpIfZero(usize),
    /// ']' - Jump to the carried index if the cell under the pointer is nonzero
    JmpIfNonZero(usize),
}

/// A lowered program: a finite opcode stream, shared read-only by all
/// states of a run.
#[derive(PartialEq, Eq, Debug)]
pub struct Prog(pub Vec<Insn>);

impl View for Prog {
    type V = Seq<Insn>;

    open spec fn view(&self) -> Seq<Insn> {
        self.0@
    }
}

/// Why a source text was rejected.
#[derive(Copy, Clone, PartialEq, Eq, Structural, Debug)]
pub enum ParseError {
    /// A '[' was never closed.
    UnmatchedOpen,
    /// A ']' had no '[' open before it.
    UnmatchedClose,
}

/// The source byte that an opcode stands for.
pub open spec fn insn_sym(i: Insn) -> u8 {
    match i {
        Insn::Right => 62u8,
        Insn::Left => 60u8,
        Insn::Inc => 43u8,
        Insn::Dec => 45u8,
        Insn::Out => 46u8,
        Insn::In => 44u8,
        Insn::JmpIfZero(_) => 91u8,
        Insn::JmpIfNonZero(_) => 93u8,
    }
}

/// Whether a source byte is one of the eight command bytes.
pub open spec fn is_cmd(c: u8) -> bool {
    c == 62u8 || c == 60u8 || c == 43u8 || c == 45u8 || c == 46u8 || c == 44u8 || c == 91u8
        || c == 93u8
}

/// The command bytes of a source text, in order, with every other byte
/// dropped.
pub open spec fn cmds(s: Seq<u8>) -> Seq<u8>
    decreases s.len(),
{
    if s.len() == 0 {
        Seq::empty()
    } else if is_cmd(s.last()) {
        cmds(s.drop_last()).push(s.last())
    } else {
        cmds(s.drop_last())
    }
}

/// Every byte the command filter keeps is a command byte.
proof fn lemma_cmds_all_cmd(s: Seq<u8>)
    ensures
        forall|i: int| 0 <= i < cmds(s).len() ==> is_cmd(#[trigger] cmds(s)[i]),
    decreases s.len(),
{
    if s.len() > 0 {
        lemma_cmds_all_cmd(s.drop_last());
        let rest = cmds(s.drop_last());
        assert forall|i: int| 0 <= i < cmds(s).len() implies is_cmd(#[trigger] cmds(s)[i]) by {
            if is_cmd(s.last()) {
                assert(cmds(s) == rest.push(s.last()));
                if i < rest.len() {
                    assert(cmds(s)[i] == rest[i]);
                } else {
                    assert(cmds(s)[i] == s.last());
                }
            } else {
                assert(cmds(s) == rest);
            }
        }
    }
}

/// Filtering a text of command bytes alone keeps it unchanged.
proof fn lemma_cmds_of_cmd_text(t: Seq<u8>)
    requires
        forall|i: int| 0 <= i < t.len() ==> is_cmd(#[trigger] t[i]),
    ensures
        cmds(t) == t,
    decreases t.len(),
{
    if t.len() > 0 {
        lemma_cmds_of_cmd_text(t.drop_last());
        assert(cmds(t) =~= t);
    } else {
        assert(cmds(t) =~= t);
    }
}

/// The command filter is idempotent: a source stripped to its command
/// bytes parses from the same command sequence, so by lowering
/// uniqueness it parses to the same program.
pub proof fn lemma_cmds_idempotent(s: Seq<u8>)
    ensures
        cmds(cmds(s)) == cmds(s),
{
    lemma_cmds_all_cmd(s);
    lemma_cmds_of_cmd_text(cmds(s));
}

/// How many '[' bytes a source text holds.
pub open spec fn opens(s: Seq<u8>) -> int
    decreases s.len(),
{
    if s.len() == 0 {
        0
    } else {
        opens(s.drop_last()) + if s.last() == 91u8 {
            1int
        } else {
            0int
        }
    }
}

/// How many ']' bytes a source text holds.
pub open spec fn closes(s: Seq<u8>) -> int
    decreases s.len(),
{
    if s.len() == 0 {
        0
    } else {
        closes(s.drop_last()) + if s.last() == 93u8 {
            1int
        } else {
            0int
        }
    }
}

/// No prefix of the source closes more brackets than it has opened.
pub open spec fn prefix_balanced(s: Seq<u8>) -> bool {
    forall|j: int| 0 <= j <= s.len() ==> closes(#[trigger] s.take(j)) <= opens(s.take(j))
}

/// The brackets of the source pair up completely.
pub open spec fn balanced(s: Seq<u8>) -> bool {
    prefix_balanced(s) && opens(s) == closes(s)
}

/// The two jump kinds pair mutually: the jump-if-zero at `i` and the
/// jump-if-nonzero at `t - 1` point just past one another.
pub open spec fn wf_jumps(p: Seq<Insn>) -> bool {
    forall|i: int| 0 <= i < p.len() ==> match #[trigger] p[i] {
        Insn::JmpIfZero(t) => i + 2 <= t <= p.len() && p[t - 1] == Insn::JmpIfNonZero((i + 1) as usize),
        Insn::JmpIfNonZero(u) => 1 <= u < i + 1 && p[u - 1] == Insn::JmpIfZero((i + 1) as usize),
        _ => true,
    }
}

/// Bracket pairs nest and never cross: a jump-if-zero that opens inside
/// another pair's span also closes inside it. Together with `wf_jumps`
/// this pins the standard bracket matching.
pub open spec fn jumps_nested(p: Seq<Insn>) -> bool {
    forall|i: int, j: int|
        0 <= i < j < p.len() ==> match (#[trigger] p[i], #[trigger] p[j]) {
            (Insn::JmpIfZero(ti), Insn::JmpIfZero(tj)) => j < ti - 1 ==> tj < ti,
            _ => true,
        }
}

/// Every jump target lies within the program, end index included.
pub open spec fn targets_ok(p: Seq<Insn>) -> bool {
    forall|i: int| 0 <= i < p.len() ==> match #[trigger] p[i] {
        Insn::JmpIfZero(t) => t <= p.len(),
        Insn::JmpIfNonZero(u) => u <= p.len(),
        _ => true,
    }
}

/// Paired jumps in particular stay within the program.
pub proof fn lemma_wf_jumps_targets_ok(p: Seq<Insn>)
    requires
        wf_jumps(p),
    ensures
        targets_ok(p),
{
}

/// The source bytes a stream spells, opcode for opcode.
pub open spec fn syms_of(p: Seq<Insn>) -> Seq<u8> {
    p.map_values(|x: Insn| insn_sym(x))
}

/// One half of lowering uniqueness: in two streams that spell the same
/// command bytes and both pair their jumps mutually and without crossing,
/// the jump-if-zero at `i` in the second stream aims no further than in
/// the first.
#[verifier::rlimit(60)]
proof fn lemma_jz_target_le(p1: Seq<Insn>, p2: Seq<Insn>, i: int)
    requires
        syms_of(p1) == syms_of(p2),
        wf_jumps(p1),
        jumps_nested(p1),
        wf_jumps(p2),
        jumps_nested(p2),
        0 <= i < p1.len(),
        p1[i] is JmpIfZero,
    ensures
        p2[i] is JmpIfZero,
        (p2[i]->JmpIfZero_0 as int) <= (p1[i]->JmpIfZero_0 as int),
    decreases p1[i]->JmpIfZero_0,
{
    assert(syms_of(p1).len() == p1.len());
    assert(syms_of(p2).len() == p2.len());
    assert(p1.len() == p2.len());
    assert(insn_sym(p1[i]) == insn_sym(p2[i])) by {
        assert(syms_of(p1)[i] == insn_sym(p1[i]));
        assert(syms_of(p2)[i] == insn_sym(p2[i]));
    }
    assert(p2[i] is JmpIfZero);
    let t1 = p1[i]->JmpIfZero_0 as int;
    let t2 = p2[i]->JmpIfZero_0 as int;
    if t2 > t1 {
        let c1 = t1 - 1;
        assert(p1[c1] == Insn::JmpIfNonZero((i + 1) as usize));
        assert(insn_sym(p1[c1]) == insn_sym(p2[c1])) by {
            assert(syms_of(p1)[c1] == insn_sym(p1[c1]));
            assert(syms_of(p2)[c1] == insn_sym(p2[c1]));
        }
        assert(p2[c1] is JmpIfNonZero);
        let u = p2[c1]->JmpIfNonZero_0 as int;
        assert(1 <= u < c1 + 1 && p2[u - 1] == Insn::JmpIfZero((c1 + 1) as usize));
        let ip = u - 1;
        assert(p2[ip] == Insn::JmpIfZero(t1 as usize));
        if ip == i {
            assert(t2 == t1);
        } else if ip < i {
            // `i` opens inside `ip`'s span in the second stream, so it must
            // close inside it, contradicting t2 > t1.
            assert(i < t1 - 1);
            assert(match (p2[ip], p2[i]) {
                (Insn::JmpIfZero(ta), Insn::JmpIfZero(tb)) => i < ta - 1 ==> tb < ta,
                _ => true,
            });
            assert(t2 < t1);
        } else {
            // `ip` opens inside `i`'s span in the first stream, so its
            // first-stream target is smaller; by induction its
            // second-stream target is no larger, contradicting that it is
            // exactly t1.
            assert(insn_sym(p2[ip]) == insn_sym(p1[ip])) by {
                assert(syms_of(p1)[ip] == insn_sym(p1[ip]));
                assert(syms_of(p2)[ip] == insn_sym(p2[ip]));
            }
            assert(p1[ip] is JmpIfZero);
            let t1p = p1[ip]->JmpIfZero_0 as int;
            assert(ip < t1 - 1);
            assert(match (p1[i], p1[ip]) {
                (Insn::JmpIfZero(ta), Insn::JmpIfZero(tb)) => ip < ta - 1 ==> tb < ta,
                _ => true,
            });
            assert(t1p < t1);
            lemma_jz_target_le(p1, p2, ip);
            assert(t1 <= t1p);
        }
    }
}

/// Lowering uniqueness: a stream of given command bytes whose jumps pair
/// mutually and without crossing is unique. In particular two accepted
/// parses of sources with the same command bytes are the same program.
#[verifier::rlimit(60)]
pub proof fn lemma_lowering_unique(p1: Seq<Insn>, p2: Seq<Insn>)
    requires
        syms_of(p1) == syms_of(p2),
        wf_jumps(p1),
        jumps_nested(p1),
        wf_jumps(p2),
        jumps_nested(p2),
    ensures
        p1 == p2,
{
    assert(syms_of(p1).len() == p1.len());
    assert(syms_of(p2).len() == p2.len());
    assert(p1.len() == p2.len());
    assert forall|q: int| 0 <= q < p1.len() implies p1[q] == p2[q] by {
        assert(insn_sym(p1[q]) == insn_sym(p2[q])) by {
            assert(syms_of(p1)[q] == insn_sym(p1[q]));
            assert(syms_of(p2)[q] == insn_sym(p2[q]));
        }
        match p1[q] {
            Insn::JmpIfZero(_) => {
                lemma_jz_target_le(p1, p2, q);
                lemma_jz_target_le(p2, p1, q);
            },
            Insn::JmpIfNonZero(u1) => {
                assert(p2[q] is JmpIfNonZero);
                let u2 = p2[q]->JmpIfNonZero_0;
                assert(p2[u2 - 1] == Insn::JmpIfZero((q + 1) as usize));
                lemma_jz_target_le(p2, p1, u2 - 1);
                lemma_jz_target_le(p1, p2, u2 - 1);
                assert(p1[u2 - 1] == Insn::JmpIfZero((q + 1) as usize));
                assert(p1[q] == Insn::JmpIfNonZero(((u2 - 1) + 1) as usize));
            },
            _ => {},
        }
    }
    assert(p1 =~= p2);
}

/// Taking one more source byte extends the command, open and close
/// counts by exactly that byte's contribution.
proof fn lemma_counts_snoc(s: Seq<u8>, j: int)
    requires
        0 <= j < s.len(),
    ensures
        cmds(s.take(j + 1)) == if is_cmd(s[j]) {
            cmds(s.take(j)).push(s[j])
        } else {
            cmds(s.take(j))
        },
        opens(s.take(j + 1)) == opens(s.take(j)) + if s[j] == 91u8 {
            1int
        } else {
            0int
        },
        closes(s.take(j + 1)) == closes(s.take(j)) + if s[j] == 93u8 {
            1int
        } else {
            0int
        },
{
    let t = s.take(j + 1);
    assert(t.drop_last() =~= s.take(j));
    assert(t.last() == s[j]);
}

/// A position is one of the pending-bracket indices.
pub open spec fn on_stack(st: Seq<usize>, p: int) -> bool {
    exists|k: int| 0 <= k < st.len() && st[k] == p
}

/// Jump pairing at one position of a partially built stream: a
/// jump-if-nonzero is already paired, a pending jump-if-zero carries the
/// placeholder target 0, and any other jump-if-zero is already paired.
spec fn jump_shape(out: Seq<Insn>, st: Seq<usize>, i: int) -> bool {
    match out[i] {
        Insn::JmpIfZero(t) => if on_stack(st, i) {
            t == 0
        } else {
            i + 2 <= t <= out.len() && out[t - 1] == Insn::JmpIfNonZero((i + 1) as usize)
        },
        Insn::JmpIfNonZero(u) => 1 <= u < i + 1 && out[u - 1] == Insn::JmpIfZero((i + 1) as usize),
        _ => true,
    }
}

/// Jump pairing for every position of a partially built stream.
spec fn partial_wf(out: Seq<Insn>, st: Seq<usize>) -> bool {
    forall|i: int| 0 <= i < out.len() ==> #[trigger] jump_shape(out, st, i)
}

/// Non-crossing for one pair of positions of a partially built stream:
/// where both are already-paired jump-if-zero entries and the second
/// opens inside the first's span, it also closes inside it.
spec fn nested_pair_shape(out: Seq<Insn>, st: Seq<usize>, i: int, j: int) -> bool {
    match (out[i], out[j]) {
        (Insn::JmpIfZero(ti), Insn::JmpIfZero(tj)) => (!on_stack(st, i) && !on_stack(st, j) && j
            < ti - 1) ==> tj < ti,
        _ => true,
    }
}

/// Non-crossing for every pair of positions of a partially built stream.
spec fn partial_nested(out: Seq<Insn>, st: Seq<usize>) -> bool {
    forall|i: int, j: int| 0 <= i < j < out.len() ==> #[trigger] nested_pair_shape(out, st, i, j)
}

/// No pending bracket sits inside an already-paired span: an open bracket
/// below another on the stack closes only after the one above it.
spec fn no_pending_inside(out: Seq<Insn>, st: Seq<usize>) -> bool {
    forall|i: int, k: int|
        #![trigger out[i], st[k]]
        0 <= i < out.len() && 0 <= k < st.len() ==> match out[i] {
            Insn::JmpIfZero(ti) => !on_stack(st, i) ==> !(i < st[k] && (st[k] as int) < ti - 1),
            _ => true,
        }
}

impl Prog {
    /// Parses and lowers a source text given as bytes.
    ///
    /// On success the opcode stream spells the command bytes of the
    /// source in order, with the jumps paired mutually (`wf_jumps`) and
    /// without crossing (`jumps_nested`); by `lemma_lowering_unique`
    /// those clauses pin the stream uniquely for a given command
    /// sequence. A ']' with no open '[' before it is rejected as
    /// `UnmatchedClose`; a source whose brackets all nest but never all
    /// close is rejected as `UnmatchedOpen`.
    pub fn from_bytes(src: &[u8]) -> (r: Result<Prog, ParseError>)
        ensures
            match r {
                Ok(p) => balanced(src@) && syms_of(p@) == cmds(src@) && wf_jumps(p@)
                    && jumps_nested(p@) && targets_ok(p@),
                Err(ParseError::UnmatchedClose) => exists|j: int|
                    0 <= j <= src@.len() && closes(#[trigger] src@.take(j)) > opens(src@.take(j)),
                Err(ParseError::UnmatchedOpen) => prefix_balanced(src@) && opens(src@) > closes(
                    src@,
                ),
            },
    {
        let n = src.len();
        let mut out: Vec<Insn> = Vec::new();
        let mut stack: Vec<usize> = Vec::new();
        let mut i: usize = 0;
        while i < n
            invariant
                n == src@.len(),
                i <= n,
                out@.len() <= i,
                out@.len() == cmds(src@.take(i as int)).len(),
                forall|k: int| 0 <= k < out@.len() ==> insn_sym(#[trigger] out@[k]) == cmds(
                    src@.take(i as int),
                )[k],
                prefix_balanced(src@.take(i as int)),
                stack@.len() == opens(src@.take(i as int)) - closes(src@.take(i as int)),
                forall|k: int| 0 <= k < stack@.len() ==> #[trigger] stack@[k] < out@.len(),
                forall|k: int| 0 <= k < stack@.len() ==> out@[#[trigger] stack@[k] as int]
                    == Insn::JmpIfZero(0),
                forall|k1: int, k2: int| 0 <= k1 < k2 < stack@.len() ==> #[trigger] stack@[k1]
                    < #[trigger] stack@[k2],
                partial_wf(out@, stack@),
                partial_nested(out@, stack@),
                no_pending_inside(out@, stack@),
            decreases n - i,
        {
            let ghost pre = src@.take(i as int);
            let ghost post = src@.take(i as int + 1);
            proof {
                lemma_counts_snoc(src@, i as int);
                assert forall|j: int| 0 <= j <= post.len() && prefix_balanced(pre) && closes(post)
                    <= opens(post) implies closes(#[trigger] post.take(j)) <= opens(post.take(j)) by {
                    if j <= i as int {
                        assert(post.take(j) =~= pre.take(j));
                    } else {
                        assert(post.take(j) =~= post);
                    }
                }
            }
            let c = src[i];
            if c == 91u8 {
                let e0 = out.len();
                let ghost old_out = out@;
                let ghost old_stack = stack@;
                stack.push(e0);
                out.push(Insn::JmpIfZero(0));
                proof {
                    let st = stack@;
                    let now = out@;
                    assert forall|p: int| 0 <= p < now.len() implies jump_shape(now, st, p) by {
                        if p < e0 as int {
                            assert(now[p] == old_out[p]);
                            if on_stack(st, p) {
                                let k = choose|k: int| 0 <= k < st.len() && st[k] == p;
                                assert(k < old_stack.len());
                                assert(on_stack(old_stack, p));
                            } else {
                                assert(!on_stack(old_stack, p)) by {
                                    if on_stack(old_stack, p) {
                                        let k = choose|k: int|
                                            0 <= k < old_stack.len() && old_stack[k] == p;
                                        assert(st[k] == p);
                                    }
                                }
                                assert(jump_shape(old_out, old_stack, p));
                            }
                        } else {
                            assert(now[p] == Insn::JmpIfZero(0));
                            assert(st[st.len() - 1] == e0);
                            assert(on_stack(st, p));
                        }
                    }
                    assert forall|i1: int, i2: int| 0 <= i1 < i2 < now.len() implies
                        nested_pair_shape(now, st, i1, i2) by {
                        if i2 < e0 as int {
                            assert(now[i1] == old_out[i1]);
                            assert(now[i2] == old_out[i2]);
                            if !on_stack(st, i1) && !on_stack(st, i2) {
                                assert(!on_stack(old_stack, i1)) by {
                                    if on_stack(old_stack, i1) {
                                        let k = choose|k: int|
                                            0 <= k < old_stack.len() && old_stack[k] == i1;
                                        assert(st[k] == i1);
                                    }
                                }
                                assert(!on_stack(old_stack, i2)) by {
                                    if on_stack(old_stack, i2) {
                                        let k = choose|k: int|
                                            0 <= k < old_stack.len() && old_stack[k] == i2;
                                        assert(st[k] == i2);
                                    }
                                }
                                assert(nested_pair_shape(old_out, old_stack, i1, i2));
                            }
                        } else {
                            assert(st[st.len() - 1] == e0);
                            assert(on_stack(st, i2));
                        }
                    }
                    assert(partial_nested(now, st));
                    assert forall|i1: int, k: int|
                        #![trigger now[i1], st[k]]
                        0 <= i1 < now.len() && 0 <= k < st.len() implies (match now[i1] {
                        Insn::JmpIfZero(ti) => !on_stack(st, i1) ==> !(i1 < st[k] && (
                        st[k] as int) < ti - 1),
                        _ => true,
                    }) by {
                        if i1 < e0 as int && now[i1] is JmpIfZero && !on_stack(st, i1) {
                            assert(now[i1] == old_out[i1]);
                            assert(!on_stack(old_stack, i1)) by {
                                if on_stack(old_stack, i1) {
                                    let k2 = choose|k2: int|
                                        0 <= k2 < old_stack.len() && old_stack[k2] == i1;
                                    assert(st[k2] == i1);
                                }
                            }
                            assert(jump_shape(old_out, old_stack, i1));
                            if k < old_stack.len() {
                                assert(st[k] == old_stack[k]);
                            } else {
                                assert(st[k] == e0);
                                assert((now[i1]->JmpIfZero_0 as int) <= old_out.len());
                            }
                        }
                        if i1 == e0 as int {
                            assert(st[st.len() - 1] == e0);
                            assert(on_stack(st, i1));
                        }
                    }
                    assert(no_pending_inside(now, st));
                }
            } else if c == 93u8 {
                if stack.len() == 0 {
                    proof {
                        assert(closes(post) > opens(post));
                        assert(post =~= src@.take(i as int + 1));
                    }
                    return Err(ParseError::UnmatchedClose);
                }
                let j = stack[stack.len() - 1];
                let ghost gstack0 = stack@;
                stack.pop();
                let e = out.len();
                let ghost old_out = out@;
                out.set(j, Insn::JmpIfZero(e + 1));
                out.push(Insn::JmpIfNonZero(j + 1));
                proof {
                    let st = stack@;
                    let now = out@;
                    assert(gstack0 =~= st.push(j));
                    assert(old_out[j as int] == Insn::JmpIfZero(0));
                    assert((j as int) < e as int);
                    assert forall|k: int| 0 <= k < st.len() implies #[trigger] st[k] < j by {
                        assert(st[k] == gstack0[k]);
                        assert(gstack0[gstack0.len() - 1] == j);
                    }
                    assert(!on_stack(st, j as int));
                    assert(now.len() == e + 1);
                    assert(now[j as int] == Insn::JmpIfZero((e + 1) as usize));
                    assert(now[e as int] == Insn::JmpIfNonZero((j + 1) as usize));
                    assert forall|p: int| 0 <= p < now.len() implies jump_shape(now, st, p) by {
                        if p == j as int {
                            assert(!on_stack(st, p));
                        } else if p == e as int {
                        } else {
                            assert(now[p] == old_out[p]);
                            if on_stack(st, p) {
                                let k = choose|k: int| 0 <= k < st.len() && st[k] == p;
                                assert(gstack0[k] == p);
                                assert(on_stack(gstack0, p));
                                assert(jump_shape(old_out, gstack0, p));
                            } else {
                                assert(jump_shape(old_out, gstack0, p));
                                match old_out[p] {
                                    Insn::JmpIfZero(t) => {
                                        if on_stack(gstack0, p) {
                                            let k = choose|k: int|
                                                0 <= k < gstack0.len() && gstack0[k] == p;
                                            if k < gstack0.len() - 1 {
                                                assert(st[k] == p);
                                                assert(on_stack(st, p));
                                            } else {
                                                assert(p == j as int);
                                            }
                                            assert(false);
                                        } else {
                                            assert(old_out[t - 1] == Insn::JmpIfNonZero(
                                                (p + 1) as usize,
                                            ));
                                            assert(t - 1 != j as int);
                                            assert(now[t - 1] == old_out[t - 1]);
                                        }
                                    },
                                    Insn::JmpIfNonZero(u) => {
                                        assert(old_out[u - 1] == Insn::JmpIfZero((p + 1) as usize));
                                        assert(u - 1 != j as int);
                                        assert(now[u - 1] == old_out[u - 1]);
                                    },
                                    _ => {},
                                }
                            }
                        }
                    }
                    assert forall|i1: int, i2: int| 0 <= i1 < i2 < now.len() implies
                        nested_pair_shape(now, st, i1, i2) by {
                        if now[i1] is JmpIfZero && now[i2] is JmpIfZero && !on_stack(st, i1)
                            && !on_stack(st, i2) {
                            if i1 == j as int {
                                if i2 < e as int {
                                    assert(now[i2] == old_out[i2]);
                                    assert(!on_stack(gstack0, i2)) by {
                                        if on_stack(gstack0, i2) {
                                            let k = choose|k: int|
                                                0 <= k < gstack0.len() && gstack0[k] == i2;
                                            if k < gstack0.len() - 1 {
                                                assert(st[k] == i2);
                                                assert(on_stack(st, i2));
                                            } else {
                                                assert(i2 == j as int);
                                            }
                                        }
                                    }
                                    assert(jump_shape(old_out, gstack0, i2));
                                    assert((old_out[i2]->JmpIfZero_0 as int) <= e as int);
                                }
                            } else if i2 == j as int {
                                assert(now[i1] == old_out[i1]);
                                assert(!on_stack(gstack0, i1)) by {
                                    if on_stack(gstack0, i1) {
                                        let k = choose|k: int|
                                            0 <= k < gstack0.len() && gstack0[k] == i1;
                                        if k < gstack0.len() - 1 {
                                            assert(st[k] == i1);
                                            assert(on_stack(st, i1));
                                        } else {
                                            assert(i1 == j as int);
                                        }
                                    }
                                }
                                let ti = old_out[i1]->JmpIfZero_0 as int;
                                if (j as int) < ti - 1 {
                                    assert(gstack0[gstack0.len() - 1] == j);
                                    assert(old_out[i1] is JmpIfZero);
                                    assert(!(i1 < j && (j as int) < ti - 1));
                                    assert(false);
                                }
                            } else {
                                assert(now[i1] == old_out[i1]);
                                assert(now[i2] == old_out[i2]);
                                assert(!on_stack(gstack0, i1)) by {
                                    if on_stack(gstack0, i1) {
                                        let k = choose|k: int|
                                            0 <= k < gstack0.len() && gstack0[k] == i1;
                                        if k < gstack0.len() - 1 {
                                            assert(st[k] == i1);
                                            assert(on_stack(st, i1));
                                        } else {
                                            assert(i1 == j as int);
                                        }
                                    }
                                }
                                assert(!on_stack(gstack0, i2)) by {
                                    if on_stack(gstack0, i2) {
                                        let k = choose|k: int|
                                            0 <= k < gstack0.len() && gstack0[k] == i2;
                                        if k < gstack0.len() - 1 {
                                            assert(st[k] == i2);
                                            assert(on_stack(st, i2));
                                        } else {
                                            assert(i2 == j as int);
                                        }
                                    }
                                }
                                assert(nested_pair_shape(old_out, gstack0, i1, i2));
                            }
                        }
                    }
                    assert(partial_nested(now, st));
                    assert forall|i1: int, k: int|
                        #![trigger now[i1], st[k]]
                        0 <= i1 < now.len() && 0 <= k < st.len() implies (match now[i1] {
                        Insn::JmpIfZero(ti) => !on_stack(st, i1) ==> !(i1 < st[k] && (
                        st[k] as int) < ti - 1),
                        _ => true,
                    }) by {
                        assert(st[k] < j);
                        if now[i1] is JmpIfZero && !on_stack(st, i1) {
                            if i1 == j as int {
                                assert(!(i1 < st[k]));
                            } else if i1 == e as int {
                                assert(!(now[i1] is JmpIfZero));
                            } else {
                                assert(now[i1] == old_out[i1]);
                                assert(!on_stack(gstack0, i1)) by {
                                    if on_stack(gstack0, i1) {
                                        let k2 = choose|k2: int|
                                            0 <= k2 < gstack0.len() && gstack0[k2] == i1;
                                        if k2 < gstack0.len() - 1 {
                                            assert(st[k2] == i1);
                                            assert(on_stack(st, i1));
                                        } else {
                                            assert(i1 == j as int);
                                        }
                                    }
                                }
                                assert(st[k] == gstack0[k]);
                                assert(!(i1 < gstack0[k] && (gstack0[k] as int) < (old_out[
                                    i1]->JmpIfZero_0 as int) - 1));
                            }
                        }
                    }
                    assert(no_pending_inside(now, st));
                }
            } else {
                let op = if c == 62u8 {
                    Some(Insn::Right)
                } else if c == 60u8 {
                    Some(Insn::Left)
                } else if c == 43u8 {
                    Some(Insn::Inc)
                } else if c == 45u8 {
                    Some(Insn::Dec)
                } else if c == 46u8 {
                    Some(Insn::Out)
                } else if c == 44u8 {
                    Some(Insn::In)
                } else {
                    None
                };
                match op {
                    Some(insn) => {
                        let ghost old_out = out@;
                        out.push(insn);
                        proof {
                            let st = stack@;
                            let now = out@;
                            assert(!(now[old_out.len() as int] is JmpIfZero));
                            assert forall|p: int| 0 <= p < now.len() implies jump_shape(
                                now,
                                st,
                                p,
                            ) by {
                                if p < old_out.len() {
                                    assert(now[p] == old_out[p]);
                                    assert(jump_shape(old_out, st, p));
                                }
                            }
                            assert forall|i1: int, i2: int| 0 <= i1 < i2 < now.len() implies
                                nested_pair_shape(now, st, i1, i2) by {
                                if i2 < old_out.len() {
                                    assert(now[i1] == old_out[i1]);
                                    assert(now[i2] == old_out[i2]);
                                    assert(nested_pair_shape(old_out, st, i1, i2));
                                }
                            }
                            assert(partial_nested(now, st));
                            assert forall|i1: int, k: int|
                                #![trigger now[i1], st[k]]
                                0 <= i1 < now.len() && 0 <= k < st.len() implies (match now[i1] {
                                Insn::JmpIfZero(ti) => !on_stack(st, i1) ==> !(i1 < st[k] && (
                                st[k] as int) < ti - 1),
                                _ => true,
                            }) by {
                                if i1 < old_out.len() {
                                    assert(now[i1] == old_out[i1]);
                                }
                            }
                            assert(no_pending_inside(now, st));
                        }
                    },
                    None => {},
                }
            }
            i += 1;
        }
        proof {
            assert(src@.take(n as int) =~= src@);
        }
        if stack.len() > 0 {
            return Err(ParseError::UnmatchedOpen);
        }
        let prog = Prog(out);
        proof {
            assert(syms_of(prog@) =~= cmds(src@));
            assert forall|p: int| 0 <= p < prog@.len() implies jump_shape(prog@, stack@, p) by {
            }
            assert forall|p: int| 0 <= p < prog@.len() implies match #[trigger] prog@[p] {
                Insn::JmpIfZero(t) => p + 2 <= t <= prog@.len() && prog@[t - 1]
                    == Insn::JmpIfNonZero((p + 1) as usize),
                Insn::JmpIfNonZero(u) => 1 <= u < p + 1 && prog@[u - 1] == Insn::JmpIfZero(
                    (p + 1) as usize,
                ),
                _ => true,
            } by {
                assert(jump_shape(prog@, stack@, p));
                assert(!on_stack(stack@, p));
            }
            assert forall|i1: int, i2: int|
                0 <= i1 < i2 < prog@.len() implies (match (#[trigger] prog@[i1], #[trigger] prog@[
                i2]) {
                (Insn::JmpIfZero(ti), Insn::JmpIfZero(tj)) => i2 < ti - 1 ==> tj < ti,
                _ => true,
            }) by {
                assert(nested_pair_shape(prog@, stack@, i1, i2));
                assert(!on_stack(stack@, i1));
                assert(!on_stack(stack@, i2));
            }
            lemma_wf_jumps_targets_ok(prog@);
        }
        Ok(prog)
    }

    /// Parses and lowers a source text given as a string slice; bytes
    /// that are not command bytes, including every non-ASCII byte, are
    /// ignored.
    pub fn from_str(s: &str) -> (r: Result<Prog, ParseError>)
        ensures
            match r {
                Ok(p) => balanced(s.spec_bytes()) && syms_of(p@) == cmds(s.spec_bytes())
                    && wf_jumps(p@) && jumps_nested(p@) && targets_ok(p@),
                Err(ParseError::UnmatchedClose) => exists|j: int|
                    0 <= j <= s.spec_bytes().len() && closes(#[trigger] s.spec_bytes().take(j))
                        > opens(s.spec_bytes().take(j)),
                Err(ParseError::UnmatchedOpen) => prefix_balanced(s.spec_bytes()) && opens(
                    s.spec_bytes(),
                ) > closes(s.spec_bytes()),
            },
    {
        Prog::from_bytes(s.as_bytes())
    }
}

} // verus!
