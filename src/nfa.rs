//! Nondeterministic finite automata over ASCII symbols, and what they accept.

use vstd::prelude::*;
use crate::states::{AcceptedStateLabel, State, Symbol};

verus! {

/// An NFA whose states are the ids `0..accepted.len()`.
///
/// No method runs it: convert it to a DFA first (`to_dfa`).
#[derive(Debug)]
pub struct NFA {
    pub init: State,
    /// The label of each state; `None` for a state that does not accept.
    pub accepted: Vec<Option<AcceptedStateLabel>>,
    /// The symbol-labelled edges out of each state.
    pub delta: Vec<Vec<(Symbol, State)>>,
    /// The epsilon edges out of each state.
    pub epsilon: Vec<Vec<State>>,
}

/// The states whose flag is set.
pub open spec fn flagged(b: Seq<bool>) -> Set<State> {
    Set::new(|x: State| (x.0 as int) < b.len() && b[x.0 as int])
}

impl NFA {
    pub open spec fn num_states(&self) -> nat {
        self.accepted@.len()
    }

    /// The tables agree in size, and every edge stays among the states, on an ASCII symbol.
    pub open spec fn wf(&self) -> bool {
        &&& self.delta@.len() == self.accepted@.len()
        &&& self.epsilon@.len() == self.accepted@.len()
        &&& self.accepted@.len() <= u32::MAX
        &&& (self.init.0 as int) < self.accepted@.len()
        &&& forall|x: int, k: int|
            0 <= x < self.delta@.len() && 0 <= k < self.delta@[x]@.len() ==> {
                &&& (#[trigger] self.delta@[x]@[k]).1.0 < self.accepted@.len()
                &&& self.delta@[x]@[k].0.0 < 128
            }
        &&& forall|x: int, k: int|
            0 <= x < self.epsilon@.len() && 0 <= k < self.epsilon@[x]@.len() ==> (
            #[trigger] self.epsilon@[x]@[k]).0 < self.accepted@.len()
    }

    /// The label of `x`, if it accepts.
    pub open spec fn label(&self, x: State) -> Option<AcceptedStateLabel> {
        if (x.0 as int) < self.accepted@.len() {
            self.accepted@[x.0 as int]
        } else {
            None
        }
    }

    /// There is an epsilon edge from `x` to `y`.
    pub open spec fn eps_edge(&self, x: State, y: State) -> bool {
        (x.0 as int) < self.epsilon@.len() && self.epsilon@[x.0 as int]@.contains(y)
    }

    /// There is an edge from `x` to `y` on the symbol `a`.
    pub open spec fn delta_edge(&self, x: State, a: u8, y: State) -> bool {
        (x.0 as int) < self.delta@.len() && self.delta@[x.0 as int]@.contains((Symbol(a), y))
    }

    /// No epsilon edge leaves `t`.
    pub open spec fn eps_closed(&self, t: Set<State>) -> bool {
        forall|x: State, y: State| #[trigger] t.contains(x) && #[trigger] self.eps_edge(x, y) ==> t.contains(y)
    }

    /// The epsilon closure of `seed`: the least set that holds `seed` and that no epsilon edge
    /// leaves.
    pub open spec fn closure(&self, seed: Set<State>) -> Set<State> {
        Set::new(|x: State| forall|t: Set<State>| #[trigger] seed.subset_of(t) && self.eps_closed(t) ==> t.contains(x))
    }

    /// The states that one `a` edge leads to from `from`.
    pub open spec fn step(&self, from: Set<State>, a: u8) -> Set<State> {
        Set::new(|y: State| exists|x: State| #[trigger] from.contains(x) && self.delta_edge(x, a, y))
    }

    /// The states that the NFA can be in after reading `s`.
    pub open spec fn reach(&self, s: Seq<u8>) -> Set<State>
        decreases s.len(),
    {
        if s.len() == 0 {
            self.closure(set![self.init])
        } else {
            self.closure(self.step(self.reach(s.drop_last()), s.last()))
        }
    }

    /// `x` is an accepting state of `t` with the smallest id.
    pub open spec fn is_first_accepting(&self, t: Set<State>, x: State) -> bool {
        &&& t.contains(x)
        &&& self.label(x) is Some
        &&& forall|y: State| #[trigger] t.contains(y) && self.label(y) is Some ==> x.0 <= y.0
    }

    /// The label of the accepting state of `t` with the smallest id: ties between token classes
    /// go to the one registered first.
    pub open spec fn first_label(&self, t: Set<State>) -> Option<AcceptedStateLabel> {
        if exists|x: State| self.is_first_accepting(t, x) {
            self.label(choose|x: State| self.is_first_accepting(t, x))
        } else {
            None
        }
    }

    /// Does the NFA accept `s`?
    pub open spec fn accepts(&self, s: Seq<u8>) -> bool {
        exists|x: State| #[trigger] self.reach(s).contains(x) && self.label(x) is Some
    }

    /// The label that reading `s` ends with.
    pub open spec fn label_of(&self, s: Seq<u8>) -> Option<AcceptedStateLabel> {
        self.first_label(self.reach(s))
    }

    pub proof fn lemma_closure_contains_seed(&self, seed: Set<State>)
        ensures
            seed.subset_of(self.closure(seed)),
    {
    }

    pub proof fn lemma_closure_is_closed(&self, seed: Set<State>)
        ensures
            self.eps_closed(self.closure(seed)),
    {
        let c = self.closure(seed);
        assert forall|x: State, y: State| #[trigger] c.contains(x) && #[trigger] self.eps_edge(x, y) implies c.contains(y) by {
            assert forall|t: Set<State>| #[trigger] seed.subset_of(t) && self.eps_closed(t) implies t.contains(y) by {
                assert(t.contains(x));
            }
        }
    }

    pub proof fn lemma_closure_least(&self, seed: Set<State>, t: Set<State>)
        requires
            seed.subset_of(t),
            self.eps_closed(t),
        ensures
            self.closure(seed).subset_of(t),
    {
    }

    /// The closure of nothing is nothing.
    pub proof fn lemma_closure_empty(&self)
        ensures
            self.closure(Set::empty()) == Set::<State>::empty(),
    {
        self.lemma_closure_least(Set::empty(), Set::empty());
        assert(self.closure(Set::empty()) =~= Set::empty());
    }

    /// Among a finite set of states, an accepting one with the smallest id exists as soon as any
    /// accepting one does.
    pub proof fn lemma_first_accepting_exists(&self, t: Set<State>, x: State)
        requires
            t.contains(x),
            self.label(x) is Some,
        ensures
            exists|m: State| self.is_first_accepting(t, m),
        decreases x.0,
    {
        if !self.is_first_accepting(t, x) {
            let y = choose|y: State| #[trigger] t.contains(y) && self.label(y) is Some && !(x.0 <= y.0);
            self.lemma_first_accepting_exists(t, y);
        }
    }

    /// The first accepting state is unique, so `first_label` is its label.
    pub proof fn lemma_first_label_is(&self, t: Set<State>, x: State)
        requires
            self.is_first_accepting(t, x),
        ensures
            self.first_label(t) == self.label(x),
    {
        let m = choose|m: State| self.is_first_accepting(t, m);
        assert(m.0 <= x.0 && x.0 <= m.0);
        assert(m == x);
    }

    /// Whatever accepts, accepts with a label, and the other way round.
    pub proof fn lemma_accepts_iff_label(&self, s: Seq<u8>)
        ensures
            self.accepts(s) <==> self.label_of(s) is Some,
    {
        let t = self.reach(s);
        if self.accepts(s) {
            let x = choose|x: State| #[trigger] t.contains(x) && self.label(x) is Some;
            self.lemma_first_accepting_exists(t, x);
            let m = choose|m: State| self.is_first_accepting(t, m);
            self.lemma_first_label_is(t, m);
        }
        if self.label_of(s) is Some {
            let m = choose|m: State| self.is_first_accepting(t, m);
            assert(t.contains(m) && self.label(m) is Some);
        }
    }
}


impl NFA {
    /// The number of states.
    pub fn num_states_exec(&self) -> (r: usize)
        ensures
            r == self.num_states(),
    {
        self.accepted.len()
    }
}


impl NFA {
    /// Only the initial state has epsilon edges, and neither it nor any state they reach
    /// accepts.
    pub open spec fn eps_only_from_init_to_silent(&self) -> bool {
        &&& self.label(self.init) is None
        &&& forall|x: State, y: State| #[trigger] self.eps_edge(x, y) ==> x == self.init && self.label(y) is None
    }

    /// With epsilon edges only from a silent initial state to silent states, no state that the
    /// NFA is in before reading anything accepts: there are no empty matches.
    pub proof fn lemma_no_empty_match(&self)
        requires
            self.eps_only_from_init_to_silent(),
        ensures
            self.first_label(self.closure(set![self.init])) is None,
            !self.accepts(Seq::empty()),
    {
        let seed = set![self.init];
        let t = Set::new(|y: State| y == self.init || self.eps_edge(self.init, y));
        assert(seed.subset_of(t));
        assert(self.eps_closed(t));
        self.lemma_closure_least(seed, t);
        let c = self.closure(seed);
        assert forall|x: State| #[trigger] c.contains(x) implies self.label(x) is None by {
            assert(t.contains(x));
        }
        assert(!(exists|x: State| self.is_first_accepting(c, x)));
        assert(self.reach(Seq::empty()) == c);
    }
}


impl NFA {
    /// `lang(x, s)` holds whenever reading `s` can lead to `x`: it holds of the initial state
    /// on the empty input, and every edge carries it along.
    pub open spec fn is_reach_invariant(&self, lang: spec_fn(State, Seq<u8>) -> bool) -> bool {
        &&& lang(self.init, Seq::empty())
        &&& forall|x: State, y: State, s: Seq<u8>| #[trigger] self.eps_edge(x, y) && #[trigger] lang(x, s) ==> lang(y, s)
        &&& forall|x: State, a: u8, y: State, s: Seq<u8>|
            #[trigger] self.delta_edge(x, a, y) && #[trigger] lang(x, s) ==> lang(y, s.push(a))
    }

    /// What a reach invariant says holds of every state that reading `s` leads to.
    pub proof fn lemma_reach_invariant(&self, lang: spec_fn(State, Seq<u8>) -> bool, s: Seq<u8>)
        requires
            self.is_reach_invariant(lang),
        ensures
            forall|x: State| #[trigger] self.reach(s).contains(x) ==> lang(x, s),
        decreases s.len(),
    {
        let t = Set::new(|x: State| lang(x, s));
        if s.len() == 0 {
            assert(s =~= Seq::<u8>::empty());
            assert(set![self.init].subset_of(t));
        } else {
            let p = s.drop_last();
            let a = s.last();
            self.lemma_reach_invariant(lang, p);
            assert(s =~= p.push(a));
            assert forall|y: State| #[trigger] self.step(self.reach(p), a).contains(y) implies t.contains(y) by {
                let x = choose|x: State| #[trigger] self.reach(p).contains(x) && self.delta_edge(x, a, y);
                assert(lang(x, p));
            }
            assert(self.step(self.reach(p), a).subset_of(t));
        }
        assert(self.eps_closed(t));
        if s.len() == 0 {
            self.lemma_closure_least(set![self.init], t);
        } else {
            self.lemma_closure_least(self.step(self.reach(s.drop_last()), s.last()), t);
        }
    }

    /// From the initial state, an epsilon edge to `start` and a chain of edges that spell `w`
    /// lead to `State(start + |w|)` on input `w`.
    pub open spec fn has_chain(&self, start: u32, w: Seq<u8>) -> bool {
        &&& self.eps_edge(self.init, State(start))
        &&& start + w.len() <= u32::MAX
        &&& forall|i: int| 0 <= i < w.len() ==> #[trigger] self.delta_edge(State((start + i) as u32), w[i], State((start + i + 1) as u32))
    }

    /// A chain from the initial state is followed.
    pub proof fn lemma_chain_reached(&self, start: u32, w: Seq<u8>, n: int)
        requires
            self.has_chain(start, w),
            0 <= n <= w.len(),
        ensures
            self.reach(w.subrange(0, n)).contains(State((start + n) as u32)),
        decreases n,
    {
        let s = w.subrange(0, n);
        if n == 0 {
            self.lemma_closure_is_closed(set![self.init]);
            self.lemma_closure_contains_seed(set![self.init]);
            let c = self.closure(set![self.init]);
            assert(c.contains(self.init));
            assert(c.contains(State(start)));
            assert(State((start + n) as u32) == State(start));
        } else {
            self.lemma_chain_reached(start, w, n - 1);
            assert(s.drop_last() =~= w.subrange(0, n - 1));
            let i = n - 1;
            let prev = State((start + i) as u32);
            let y = State((start + i + 1) as u32);
            assert(self.delta_edge(State((start + i) as u32), w[i], State((start + i + 1) as u32)));
            assert(prev == State((start + n - 1) as u32));
            assert(y == State((start + n) as u32));
            assert(self.step(self.reach(s.drop_last()), s.last()).contains(y));
            self.lemma_closure_contains_seed(self.step(self.reach(s.drop_last()), s.last()));
        }
    }
}

} // verus!
