//! The exploration driver: a worklist of pending states, a visited set
//! for deduplication, and the constraint cache.
//!
//! The driver pops a state, prunes it cheaply if its path condition alone
//! is unsatisfiable, and otherwise asks a caller-supplied classifier about
//! it. The classifier answers in two stages: a query stage that either
//! decides outright or asks for a model of the path condition conjoined
//! with a probe constraint, and a judge stage that turns the solver's
//! answer into a verdict. A "done" verdict ends the search; "invalid"
//! discards the state; "valid" moves it to the visited set and enqueues
//! its unvisited successors.
//!
//! The worklist is popped last-in first-out, so exploration is
//! depth-first, and for a jump the fall-through successor is tried before
//! the taken one. Deduplication is by structural equality of the whole
//! state, path condition included, bucketed by the structural state hash.

use std::collections::HashMap;
use std::rc::Rc;

use vstd::prelude::*;

use crate::ast::Prog;
use crate::ast::targets_ok;
use crate::cached_solver::CachedSolver;
use crate::cached_solver::Error;
use crate::expr::BoolExpr;
use crate::expr::clone_bool;
use crate::expr::eval_bool;
use crate::state::ConcreteState;
use crate::state::State;
use crate::state::SymBytes;
use crate::state::concrete_of;
use crate::state::has_input_insn;
use crate::state::prefix_match;
use crate::state::spec_state_hash;
use crate::state::state_equiv;
use crate::state::state_hash;
use crate::state::lemma_state_hash_consistent;
use crate::state::lemma_reachable_equiv;
use crate::state::lemma_reachable_refl;
use crate::state::lemma_reachable_step;
use crate::state::lemma_wf_equiv;
use crate::state::reachable;
use crate::state::step_rel;
use crate::expr::mk_and;

verus! {

broadcast use vstd::std_specs::hash::group_hash_axioms;

/// Verdict returned by the classifier's stages.
pub enum ExploreFnResult<T> {
    /// Found the target state. This carries a value so the caller can
    /// hand back the resulting concrete state, or any other data.
    Done(T),
    /// This state is invalid. Path exploration discards it and does not
    /// compute continuations.
    Invalid,
    /// This state is valid. It is not the target state, but continuations
    /// should be computed.
    Valid,
}

/// First answer of the classifier: either a verdict outright, or a probe
/// constraint to solve alongside the state's path condition.
pub enum Classification<T> {
    Verdict(ExploreFnResult<T>),
    Probe(BoolExpr),
}

/// What the driver guarantees about the solver answer it hands to the
/// judge stage for a probe `e` on a state `s`: a model satisfies both the
/// path condition and the probe, and an `Unsat` answer means no
/// assignment satisfies them together.
pub open spec fn probe_sound(s: State, e: BoolExpr, oc: Result<Vec<u8>, Error>) -> bool {
    &&& (oc matches Ok(m) ==> eval_bool(s.path, m@) && eval_bool(e, m@))
    &&& (oc == Err::<Vec<u8>, Error>(Error::Unsat) ==> forall|m: Seq<u8>|
        !(eval_bool(s.path, m) && eval_bool(e, m)))
}

/// How a search can end with `v`: some state was classified "done" with
/// value `v`, either outright by the query stage, or by the judge stage
/// on a solver answer that was sound for the query's probe.
pub open spec fn done_for<
    T,
    FQ: Fn(&State) -> Classification<T>,
    FJ: Fn(&State, &Result<Vec<u8>, Error>) -> ExploreFnResult<T>,
>(query: FQ, judge: FJ, s: State, v: T) -> bool {
    ||| call_ensures(query, (&s,), Classification::Verdict(ExploreFnResult::Done(v)))
    ||| exists|e: BoolExpr, oc: Result<Vec<u8>, Error>|
        #![trigger call_ensures(query, (&s,), Classification::Probe(e)), call_ensures(
            judge,
            (&s, &oc),
            ExploreFnResult::Done(v),
        )]
        {
            &&& call_ensures(query, (&s,), Classification::Probe(e))
            &&& probe_sound(s, e, oc)
            &&& call_ensures(judge, (&s, &oc), ExploreFnResult::Done(v))
        }
}

/// The driver's bookkeeping for one run: the pending worklist, the
/// visited set bucketed by structural hash, and the constraint cache.
pub struct PathGroup {
    prog: Rc<Prog>,
    next: Vec<State>,
    visited: HashMap<u64, Vec<State>>,
    solver: CachedSolver,
    entry: Ghost<State>,
}

impl PathGroup {
    /// The program all states of this run share.
    pub closed spec fn prog_view(self) -> Seq<crate::ast::Insn> {
        self.prog@
    }

    /// The state this run was seeded with.
    pub closed spec fn entry_state(self) -> State {
        self.entry@
    }

    /// The pending worklist: the states not yet popped, oldest first.
    pub closed spec fn pending_view(self) -> Seq<State> {
        self.next@
    }

    /// A state belongs to this run: well formed, over this run's program,
    /// and reachable from the entry state by stepping.
    pub closed spec fn states_ok(self, s: State) -> bool {
        s.wf() && s.prog@ == self.prog@ && reachable(self.entry@, s)
    }

    /// Whether a structurally equal state has already been expanded.
    pub closed spec fn visited_contains(self, s: State) -> bool {
        exists|h: u64, i: int|
            #![auto]
            self.visited@.contains_key(h) && 0 <= i < self.visited@[h]@.len() && state_equiv(
                self.visited@[h]@[i],
                s,
            )
    }

    /// Every pending and visited state belongs to the run, every visited
    /// state sits in the bucket of its own hash, and the cache is sound.
    pub closed spec fn wf(self) -> bool {
        &&& self.solver.wf()
        &&& targets_ok(self.prog@)
        &&& forall|i: int|
            0 <= i < self.next@.len() ==> self.states_ok(#[trigger] self.next@[i])
        &&& forall|h: u64, i: int|
            #![auto]
            self.visited@.contains_key(h) && 0 <= i < self.visited@[h]@.len() ==> {
                &&& self.states_ok(self.visited@[h]@[i])
                &&& spec_state_hash(self.visited@[h]@[i]) == h
            }
    }

    /// Seeds a run: a worklist holding only the entry state of the
    /// program, an empty visited set, and the given constraint cache.
    pub fn make_entry(prog: Rc<Prog>, mem_size: usize, solver: CachedSolver) -> (r: PathGroup)
        requires
            mem_size >= 1,
            targets_ok(prog@),
            solver.wf(),
        ensures
            r.wf(),
            r.prog_view() == prog@,
            forall|t: State| !r.visited_contains(t),
            r.pending_view().len() == 1,
            r.pending_view()[0] == r.entry_state(),
            r.entry_state().wf(),
            r.entry_state().prog@ == prog@,
            r.entry_state().insn_ptr == 0,
            r.entry_state().data_ptr == 0,
            r.entry_state().input@.len() == 0,
            r.entry_state().output@.len() == 0,
            r.entry_state().path == crate::expr::BoolExpr::Lit(true),
            r.entry_state().mem@.len() == mem_size,
    {
        let prog2 = crate::state::rc_clone_prog(&prog);
        let entry = State::make_entry(prog2, mem_size);
        let ghost ge = entry;
        proof {
            lemma_reachable_refl(ge);
        }
        let mut next: Vec<State> = Vec::new();
        next.push(entry);
        PathGroup { prog, next, visited: HashMap::new(), solver, entry: Ghost(ge) }
    }

    /// Whether a structurally equal state was already expanded. The
    /// bucket of the state's own hash is the only place one can sit,
    /// since equal states hash alike.
    fn visited_contains_state(&self, s: &State) -> (r: bool)
        requires
            self.wf(),
        ensures
            r == self.visited_contains(*s),
    {
        let h = state_hash(s);
        match self.visited.get(&h) {
            None => {
                proof {
                    if self.visited_contains(*s) {
                        let (h2, i) = choose|h2: u64, i: int|
                            #![auto]
                            self.visited@.contains_key(h2) && 0 <= i < self.visited@[h2]@.len()
                                && state_equiv(self.visited@[h2]@[i], *s);
                        lemma_state_hash_consistent(self.visited@[h2]@[i], *s);
                    }
                }
                false
            },
            Some(bucket) => {
                let n = bucket.len();
                let mut k: usize = 0;
                while k < n
                    invariant
                        self.wf(),
                        n == bucket@.len(),
                        k <= n,
                        self.visited@.contains_key(h),
                        bucket@ == self.visited@[h]@,
                        h == spec_state_hash(*s),
                        forall|i: int| 0 <= i < k ==> !state_equiv(bucket@[i], *s),
                    decreases n - k,
                {
                    if &bucket[k] == s {
                        return true;
                    }
                    proof {
                        assert(!state_equiv(bucket@[k as int], *s));
                    }
                    k += 1;
                }
                proof {
                    if self.visited_contains(*s) {
                        let (h2, i) = choose|h2: u64, i: int|
                            #![auto]
                            self.visited@.contains_key(h2) && 0 <= i < self.visited@[h2]@.len()
                                && state_equiv(self.visited@[h2]@[i], *s);
                        lemma_state_hash_consistent(self.visited@[h2]@[i], *s);
                        assert(h2 == h);
                        assert(!state_equiv(bucket@[i], *s));
                    }
                }
                false
            },
        }
    }

    /// Moves a state into the visited set. The visited set never shrinks.
    fn visited_insert(&mut self, s: State)
        requires
            old(self).wf(),
            old(self).states_ok(s),
        ensures
            final(self).wf(),
            final(self).prog_view() == old(self).prog_view(),
            final(self).next@ == old(self).next@,
            final(self).entry_state() == old(self).entry_state(),
            final(self).visited_contains(s),
            forall|t: State| old(self).visited_contains(t) ==> final(self).visited_contains(t),
            forall|t: State|
                final(self).visited_contains(t) <==> (old(self).visited_contains(t)
                    || state_equiv(t, s)),
    {
        if self.visited_contains_state(&s) {
            proof {
                assert forall|t: State|
                    self.visited_contains(t) <==> (old(self).visited_contains(t) || state_equiv(
                        t,
                        s,
                    )) by {
                    if state_equiv(t, s) && !old(self).visited_contains(t) {
                        let (h2, i) = choose|h2: u64, i: int|
                            #![auto]
                            self.visited@.contains_key(h2) && 0 <= i < self.visited@[h2]@.len()
                                && state_equiv(self.visited@[h2]@[i], s);
                        assert(state_equiv(self.visited@[h2]@[i], t));
                    }
                }
            }
            return;
        }
        let h = state_hash(&s);
        let ghost old_map = self.visited@;
        let taken = self.visited.remove(&h);
        let mut bucket = match taken {
            Some(b) => b,
            None => Vec::new(),
        };
        let ghost mid_bucket = bucket@;
        bucket.push(s);
        self.visited.insert(h, bucket);
        proof {
            let new_map = self.visited@;
            assert(new_map == old_map.remove(h).insert(h, new_map[h]));
            assert(new_map[h]@ == mid_bucket.push(s));
            assert forall|t: State| old(self).visited_contains(t) implies self.visited_contains(
                t,
            ) by {
                let (h2, i) = choose|h2: u64, i: int|
                    #![auto]
                    old_map.contains_key(h2) && 0 <= i < old_map[h2]@.len() && state_equiv(
                        old_map[h2]@[i],
                        t,
                    );
                if h2 == h {
                    assert(new_map[h]@[i] == old_map[h]@[i]);
                } else {
                    assert(new_map.contains_key(h2) && new_map[h2] == old_map[h2]);
                }
            }
            assert(new_map[h]@[mid_bucket.len() as int] == s);
            assert(self.visited_contains(s));
            assert forall|t: State|
                self.visited_contains(t) <==> (old(self).visited_contains(t) || state_equiv(
                    t,
                    s,
                )) by {
                if self.visited_contains(t) {
                    let (h2, i) = choose|h2: u64, i: int|
                        #![auto]
                        new_map.contains_key(h2) && 0 <= i < new_map[h2]@.len() && state_equiv(
                            new_map[h2]@[i],
                            t,
                        );
                    if h2 == h && i == mid_bucket.len() as int {
                        assert(state_equiv(s, t));
                        assert(state_equiv(t, s));
                    } else if h2 == h {
                        assert(new_map[h2]@[i] == old_map[h]@[i]);
                        assert(old(self).visited_contains(t));
                    } else {
                        assert(old_map.contains_key(h2) && old_map[h2] == new_map[h2]);
                        assert(old(self).visited_contains(t));
                    }
                }
                if state_equiv(t, s) {
                    assert(state_equiv(new_map[h]@[mid_bucket.len() as int], t));
                    assert(self.visited_contains(t));
                }
            }
        }
    }

    /// Enqueues every successor of a state that has not been visited.
    fn add_continuations(&mut self, state: &State)
        requires
            old(self).wf(),
            old(self).states_ok(*state),
        ensures
            final(self).wf(),
            final(self).prog_view() == old(self).prog_view(),
            final(self).visited@ == old(self).visited@,
            forall|t: State|
                old(self).visited_contains(t) <==> final(self).visited_contains(t),
            final(self).solver@ == old(self).solver@,
            final(self).entry_state() == old(self).entry_state(),
    {
        let mut succs = state.step();
        let ghost gout = succs@;
        let ghost gentry = self.entry@;
        proof {
            assert forall|i: int| 0 <= i < gout.len() implies reachable(
                gentry,
                #[trigger] gout[i],
            ) by {
                lemma_reachable_step(gentry, *state, gout, i);
            }
        }
        while succs.len() > 0
            invariant
                self.wf(),
                self.prog_view() == old(self).prog_view(),
                self.visited@ == old(self).visited@,
                self.solver@ == old(self).solver@,
                self.entry@ == gentry,
                gentry == old(self).entry@,
                forall|i: int|
                    0 <= i < succs@.len() ==> (#[trigger] succs@[i]).wf() && succs@[i].prog@
                        == self.prog@ && reachable(gentry, succs@[i]),
            decreases succs@.len(),
        {
            let ghost before = succs@;
            let s = succs.remove(0);
            proof {
                assert(succs@ =~= before.remove(0));
                assert forall|i: int|
                    0 <= i < succs@.len() implies (#[trigger] succs@[i]).wf() && succs@[i].prog@
                    == self.prog@ && reachable(gentry, succs@[i]) by {
                    assert(succs@[i] == before[i + 1]);
                }
            }
            if !self.visited_contains_state(&s) {
                self.next.push(s);
            }
        }
        proof {
            assert forall|t: State|
                old(self).visited_contains(t) <==> self.visited_contains(t) by {
                if old(self).visited_contains(t) {
                    let (h2, i) = choose|h2: u64, i: int|
                        #![auto]
                        old(self).visited@.contains_key(h2) && 0 <= i < old(
                            self,
                        ).visited@[h2]@.len() && state_equiv(old(self).visited@[h2]@[i], t);
                    assert(state_equiv(self.visited@[h2]@[i], t));
                }
                if self.visited_contains(t) {
                    let (h2, i) = choose|h2: u64, i: int|
                        #![auto]
                        self.visited@.contains_key(h2) && 0 <= i < self.visited@[h2]@.len()
                            && state_equiv(self.visited@[h2]@[i], t);
                    assert(state_equiv(old(self).visited@[h2]@[i], t));
                }
            }
        }
    }

    /// Expansion of one popped state on a "valid" verdict.
    /// The visited set never shrinks and gains exactly this one state.
    fn expand_valid(&mut self, state: State)
        requires
            old(self).wf(),
            old(self).states_ok(state),
        ensures
            final(self).wf(),
            final(self).prog_view() == old(self).prog_view(),
            final(self).entry_state() == old(self).entry_state(),
            forall|t: State| old(self).visited_contains(t) ==> final(self).visited_contains(t),
            forall|t: State|
                final(self).visited_contains(t) <==> (old(self).visited_contains(t)
                    || state_equiv(t, state)),
    {
        let copy = state.clone();
        proof {
            lemma_wf_equiv(state, copy);
            lemma_reachable_equiv(self.entry@, state, copy);
        }
        let ghost mid_old = *self;
        self.visited_insert(copy);
        let ghost mid = *self;
        self.add_continuations(&state);
        proof {
            assert forall|t: State|
                self.visited_contains(t) <==> (mid_old.visited_contains(t) || state_equiv(
                    t,
                    state,
                )) by {
                assert(self.visited_contains(t) <==> mid.visited_contains(t));
                if state_equiv(t, copy) {
                    assert(state_equiv(copy, state));
                    assert(state_equiv(t, state));
                }
                if state_equiv(t, state) {
                    assert(state_equiv(state, copy));
                    assert(state_equiv(t, copy));
                }
            }
        }
    }

    /// The core loop. Pops pending states, prunes the unreachable, and
    /// classifies the rest until the classifier reports success, the
    /// worklist empties, or the step budget runs out.
    ///
    /// On success the value came from a "done" verdict of the classifier
    /// on some state of this run, with the solver answer it judged sound
    /// for that state's path condition. `None` means the search found no
    /// match: with an empty final worklist it was exhausted, with a
    /// nonempty one the step budget ran out first and the remaining
    /// states were left pending. The visited set never shrinks.
    pub fn explore_until<T, FQ, FJ>(&mut self, max_steps: usize, query: FQ, judge: FJ) -> (r:
        Option<T>) where
        FQ: Fn(&State) -> Classification<T>,
        FJ: Fn(&State, &Result<Vec<u8>, Error>) -> ExploreFnResult<T>,

        requires
            old(self).wf(),
            forall|s: State|
                s.wf() && s.prog@ == old(self).prog_view() ==> #[trigger] call_requires(
                    query,
                    (&s,),
                ),
            forall|s: State, oc: Result<Vec<u8>, Error>|
                s.wf() && s.prog@ == old(self).prog_view() ==> #[trigger] call_requires(
                    judge,
                    (&s, &oc),
                ),
        ensures
            final(self).wf(),
            final(self).prog_view() == old(self).prog_view(),
            forall|t: State| old(self).visited_contains(t) ==> final(self).visited_contains(t),
            final(self).entry_state() == old(self).entry_state(),
            max_steps == 0 ==> r is None && final(self).pending_view() == old(
                self,
            ).pending_view(),
            r matches Some(v) ==> exists|s: State|
                #![auto]
                s.wf() && s.prog@ == old(self).prog_view() && reachable(
                    old(self).entry_state(),
                    s,
                ) && done_for(query, judge, s, v),
    {
        let ghost gprog = old(self).prog_view();
        let ghost init = *old(self);
        let mut fuel = max_steps;
        while fuel > 0
            invariant
                init == *old(self),
                gprog == init.prog_view(),
                fuel <= max_steps,
                max_steps == 0 ==> self.pending_view() == init.pending_view(),
                self.wf(),
                self.prog_view() == gprog,
                self.entry@ == init.entry@,
                forall|t: State| init.visited_contains(t) ==> self.visited_contains(t),
                forall|s: State|
                    s.wf() && s.prog@ == gprog ==> #[trigger] call_requires(query, (&s,)),
                forall|s: State, oc: Result<Vec<u8>, Error>|
                    s.wf() && s.prog@ == gprog ==> #[trigger] call_requires(judge, (&s, &oc)),
            decreases fuel,
        {
            fuel = fuel - 1;
            let popped = self.next.pop();
            let state = match popped {
                Some(s) => s,
                None => {
                    return None;
                },
            };
            proof {
                assert(self.states_ok(state));
            }
            // Path-satisfiability pre-check: prune states whose path
            // condition alone has no model.
            let pre = self.solver.solve(clone_bool(&state.path), state.input.0.len());
            let pruned = match pre {
                Err(Error::Unsat) => true,
                _ => false,
            };
            if pruned {
                continue;
            }
            match query(&state) {
                Classification::Verdict(verdict) => {
                    match verdict {
                        ExploreFnResult::Done(val) => {
                            proof {
                                assert(done_for(query, judge, state, val));
                            }
                            return Some(val);
                        },
                        ExploreFnResult::Invalid => {},
                        ExploreFnResult::Valid => {
                            self.expand_valid(state);
                        },
                    }
                },
                Classification::Probe(e) => {
                    let ghost ge = e;
                    let q = mk_and(clone_bool(&state.path), e);
                    let ghost gq = q;
                    let oc = self.solver.solve(q, state.input.0.len());
                    proof {
                        if oc is Ok {
                            assert(eval_bool(gq, oc->Ok_0@));
                        }
                        if oc == Err::<Vec<u8>, Error>(Error::Unsat) {
                            assert forall|m: Seq<u8>|
                                !(eval_bool(state.path, m) && eval_bool(ge, m)) by {
                                assert(!eval_bool(gq, m));
                            }
                        }
                        assert(probe_sound(state, ge, oc));
                    }
                    match judge(&state, &oc) {
                        ExploreFnResult::Done(val) => {
                            proof {
                                assert(call_ensures(
                                    judge,
                                    (&state, &oc),
                                    ExploreFnResult::Done(val),
                                ));
                                assert(done_for(query, judge, state, val));
                            }
                            return Some(val);
                        },
                        ExploreFnResult::Invalid => {},
                        ExploreFnResult::Valid => {
                            self.expand_valid(state);
                        },
                    }
                },
            }
        }
        None
    }

    /// Searches for a state whose symbolic output can spell exactly the
    /// target bytes, and returns its concrete snapshot under a model the
    /// solver produced.
    ///
    /// A state whose output is already longer than the target is
    /// discarded; one whose output prefix is proven incompatible is
    /// discarded; an indeterminate solver answer keeps the state alive
    /// without treating it as a success. Any returned concrete state's
    /// output equals the target, and if the program has no input opcode
    /// the returned input is empty. `None` with an empty final worklist
    /// means the search was exhausted; with a nonempty one the step
    /// budget ran out first.
    pub fn explore_until_output(&mut self, output: &[u8], max_steps: usize) -> (r: Option<
        ConcreteState,
    >)
        requires
            old(self).wf(),
        ensures
            final(self).wf(),
            final(self).prog_view() == old(self).prog_view(),
            forall|t: State| old(self).visited_contains(t) ==> final(self).visited_contains(t),
            r matches Some(cs) ==> cs.output@ == output@,
            r matches Some(cs) ==> (!has_input_insn(old(self).prog_view())
                ==> cs.input@.len() == 0),
            r matches Some(cs) ==> exists|s: State, m: Seq<u8>|
                #![auto]
                {
                    &&& s.wf()
                    &&& reachable(old(self).entry_state(), s)
                    &&& eval_bool(s.path, m)
                    &&& s.output@.len() == output@.len()
                    &&& concrete_of(s, m, cs)
                },
    {
        let ghost gprog = old(self).prog_view();
        let query = |s: &State| -> (c: Classification<ConcreteState>)
            requires
                s.wf(),
            ensures
                (c matches Classification::Verdict(v) ==> v is Invalid),
                (c matches Classification::Probe(e) ==> s.output@.len() <= output@.len() && forall|
                    m: Seq<u8>,
                |
                    #[trigger] eval_bool(e, m) == prefix_match(s.output@, output@, m)),
            {
                if s.output.0.len() > output.len() {
                    Classification::Verdict(ExploreFnResult::Invalid)
                } else {
                    Classification::Probe(SymBytes::syms_eq(&s.output, output))
                }
            };
        let judge = |s: &State, oc: &Result<Vec<u8>, Error>| -> (v: ExploreFnResult<
            ConcreteState,
        >)
            requires
                s.wf(),
            ensures
                (v matches ExploreFnResult::Done(cs) ==> oc matches Ok(m) && s.output@.len()
                    == output@.len() && concrete_of(*s, m@, cs)),
            {
                match oc {
                    Ok(m) => {
                        if s.output.0.len() == output.len() {
                            ExploreFnResult::Done(ConcreteState::from_model(s, m))
                        } else {
                            ExploreFnResult::Valid
                        }
                    },
                    Err(e) => {
                        match e {
                            Error::Unknown => ExploreFnResult::Valid,
                            Error::Unsat => ExploreFnResult::Invalid,
                        }
                    },
                }
            };
        let r = self.explore_until(max_steps, query, judge);
        proof {
            if r is Some {
                let cs = r->Some_0;
                let s = choose|s: State|
                    #![auto]
                    s.wf() && s.prog@ == gprog && reachable(old(self).entry_state(), s)
                        && done_for(query, judge, s, cs);
                if call_ensures(
                    query,
                    (&s,),
                    Classification::Verdict(ExploreFnResult::Done(cs)),
                ) {
                    // The query stage never answers "done" outright.
                    assert(false);
                } else {
                    let (e, oc) = choose|e: BoolExpr, oc: Result<Vec<u8>, Error>|
                        #![trigger call_ensures(query, (&s,), Classification::Probe(e)), call_ensures(
                            judge,
                            (&s, &oc),
                            ExploreFnResult::Done(cs),
                        )]
                        {
                            &&& call_ensures(query, (&s,), Classification::Probe(e))
                            &&& probe_sound(s, e, oc)
                            &&& call_ensures(judge, (&s, &oc), ExploreFnResult::Done(cs))
                        };
                    let m = oc->Ok_0;
                    assert(eval_bool(e, m@));
                    assert(prefix_match(s.output@, output@, m@));
                    assert(s.output@.len() == output@.len());
                    assert(concrete_of(s, m@, cs));
                    assert forall|i: int| 0 <= i < cs.output@.len() implies cs.output@[i]
                        == output@[i] by {
                        assert(eval_bool(e, m@) == prefix_match(s.output@, output@, m@));
                        assert(cs.output@[i] == crate::expr::eval_byte(s.output@[i], m@));
                    }
                    assert(cs.output@ =~= output@);
                    assert(reachable(old(self).entry_state(), s));
                    assert(eval_bool(s.path, m@));
                    if !has_input_insn(gprog) {
                        assert(s.input@.len() == 0);
                        assert(cs.input@.len() == 0);
                    }
                }
            }
        }
        r
    }
}

} // verus!
