//! The subset (powerset) construction: from an NFA to a DFA that accepts the same strings.

use vstd::prelude::*;
use crate::dfa::DFA;
use crate::nfa::{flagged, NFA};
use crate::states::{strictly_increasing, AcceptedStateLabel, State, StateSet, Symbol};

verus! {

broadcast use vstd::set_lib::group_set_lib_default;

/// `2^n`.
pub open spec fn two_pow(n: nat) -> nat
    decreases n,
{
    if n == 0 {
        1
    } else {
        2 * two_pow((n - 1) as nat)
    }
}

/// `s` is strictly increasing, and every state in it is below `n`.
pub open spec fn sorted_below(s: Seq<State>, n: nat) -> bool {
    &&& strictly_increasing(s)
    &&& forall|i: int| 0 <= i < s.len() ==> (#[trigger] s[i]).0 < n
}

/// There are at most `2^n` sorted lists of states below `n`: the subset construction ends.
pub proof fn lemma_few_sorted_lists(t: Set<Seq<State>>, n: nat)
    requires
        t.finite(),
        forall|s: Seq<State>| #[trigger] t.contains(s) ==> sorted_below(s, n),
    ensures
        t.len() <= two_pow(n),
    decreases n,
{
    if n == 0 {
        let e = set![Seq::<State>::empty()];
        assert forall|s: Seq<State>| #[trigger] t.contains(s) implies e.contains(s) by {
            if s.len() > 0 {
                assert(s[0].0 < n);
            }
            assert(s =~= Seq::<State>::empty());
        }
        vstd::set_lib::lemma_len_subset(t, e);
    } else {
        let m = (n - 1) as nat;
        let a = t.filter(|s: Seq<State>| s.len() == 0 || s.last().0 < m);
        let b = t.filter(|s: Seq<State>| s.len() > 0 && s.last().0 == m);
        assert forall|s: Seq<State>| #[trigger] a.contains(s) implies sorted_below(s, m) by {
            assert forall|i: int| 0 <= i < s.len() implies (#[trigger] s[i]).0 < m by {
                if i < s.len() - 1 {
                    assert(s[i].0 < s[s.len() - 1].0);
                }
            }
        }
        lemma_few_sorted_lists(a, m);
        let f = |s: Seq<State>| s.drop_last();
        let bm = b.map(f);
        assert forall|s1: Seq<State>, s2: Seq<State>|
            b.contains(s1) && b.contains(s2) && #[trigger] f(s1) == #[trigger] f(s2) implies s1 == s2 by {
            assert(s1 =~= s1.drop_last().push(s1.last()));
            assert(s2 =~= s2.drop_last().push(s2.last()));
        }
        vstd::set_lib::lemma_map_size(b, bm, f);
        assert forall|s: Seq<State>| #[trigger] bm.contains(s) implies sorted_below(s, m) by {
            let s0 = choose|s0: Seq<State>| b.contains(s0) && f(s0) == s;
            assert forall|i: int| 0 <= i < s.len() implies (#[trigger] s[i]).0 < m by {
                assert(s[i] == s0[i]);
                assert(s0[i].0 < s0[s0.len() - 1].0);
            }
        }
        lemma_few_sorted_lists(bm, m);
        assert(t =~= a.union(b));
        vstd::set_lib::lemma_len_union(a, b);
    }
}

/// The number of flags that are not set.
pub open spec fn unset_count(b: Seq<bool>) -> nat
    decreases b.len(),
{
    if b.len() == 0 {
        0
    } else {
        unset_count(b.drop_last()) + if b.last() {
            0nat
        } else {
            1nat
        }
    }
}

/// Setting a flag that was not set leaves one flag fewer unset.
pub proof fn lemma_unset_count_update(b: Seq<bool>, i: int)
    requires
        0 <= i < b.len(),
        !b[i],
    ensures
        unset_count(b) >= 1,
        unset_count(b.update(i, true)) == unset_count(b) - 1,
    decreases b.len(),
{
    let c = b.update(i, true);
    if i < b.len() - 1 {
        assert(c.drop_last() =~= b.drop_last().update(i, true));
        lemma_unset_count_update(b.drop_last(), i);
    } else {
        assert(c.drop_last() =~= b.drop_last());
    }
}

/// `n` flags, none of them set.
fn no_flags(n: usize) -> (r: Vec<bool>)
    ensures
        r@.len() == n,
        forall|i: int| 0 <= i < n ==> !#[trigger] r@[i],
        flagged(r@) == Set::<State>::empty(),
{
    let mut v: Vec<bool> = Vec::new();
    let mut i: usize = 0;
    while i < n
        invariant
            i <= n,
            v@.len() == i,
            forall|k: int| 0 <= k < i ==> !#[trigger] v@[k],
        decreases n - i,
    {
        v.push(false);
        i += 1;
    }
    assert(flagged(v@) =~= Set::<State>::empty());
    v
}

/// The flagged states, in increasing order.
fn sorted_states(bits: &Vec<bool>) -> (r: Vec<State>)
    requires
        bits@.len() <= u32::MAX,
    ensures
        sorted_below(r@, bits@.len() as nat),
        r@.to_set() == flagged(bits@),
{
    let mut v: Vec<State> = Vec::new();
    let mut i: usize = 0;
    while i < bits.len()
        invariant
            bits@.len() <= u32::MAX,
            i <= bits@.len(),
            sorted_below(v@, i as nat),
            forall|x: State| #[trigger] v@.contains(x) <==> (x.0 < i && bits@[x.0 as int]),
        decreases bits@.len() - i,
    {
        if bits[i] {
            let ghost old_v = v@;
            v.push(State(i as u32));
            proof {
                assert forall|x: State| #[trigger] v@.contains(x) <==> (x.0 < i + 1 && bits@[x.0 as int]) by {
                    if v@.contains(x) && x != State(i as u32) {
                        let k = choose|k: int| 0 <= k < v@.len() && v@[k] == x;
                        assert(old_v.contains(x)) by {
                            assert(k < old_v.len());
                            assert(old_v[k] == x);
                        }
                    }
                    if x.0 < i + 1 && bits@[x.0 as int] {
                        if x.0 == i {
                            assert(v@[v@.len() - 1] == x);
                        } else {
                            assert(old_v.contains(x));
                            let k = choose|k: int| 0 <= k < old_v.len() && old_v[k] == x;
                            assert(v@[k] == x);
                        }
                    }
                }
                assert forall|a: int, b: int| 0 <= a < b < v@.len() implies v@[a].0 < v@[b].0 by {
                    if b == v@.len() - 1 {
                        assert(old_v[a].0 < i);
                    } else {
                        assert(old_v[a].0 < old_v[b].0);
                    }
                }
            }
        }
        i += 1;
    }
    assert(v@.to_set() =~= flagged(bits@));
    v
}

/// Where `ss` lies in `sets`, if it does.
fn find(sets: &Vec<StateSet>, ss: &StateSet) -> (r: Option<usize>)
    ensures
        match r {
            Some(i) => i < sets@.len() && sets@[i as int]@ == ss@,
            None => forall|i: int| 0 <= i < sets@.len() ==> (#[trigger] sets@[i])@ != ss@,
        },
{
    let mut i: usize = 0;
    while i < sets.len()
        invariant
            i <= sets@.len(),
            forall|k: int| 0 <= k < i ==> (#[trigger] sets@[k])@ != ss@,
        decreases sets@.len() - i,
    {
        if sets[i].same(ss) {
            return Some(i);
        }
        i += 1;
    }
    None
}

/// Turns an NFA into an equivalent DFA.
pub struct NfaConverter<'a> {
    pub nfa: &'a NFA,
    /// For each state of the NFA, the symbols on its outgoing edges, each once.
    pub active_symbols: Vec<Vec<Symbol>>,
}

/// `syms` lists, each once, the symbols of `edges`.
pub open spec fn lists_symbols(syms: Seq<Symbol>, edges: Seq<(Symbol, State)>) -> bool {
    &&& syms.no_duplicates()
    &&& forall|a: Symbol| #[trigger] syms.contains(a) <==> exists|k: int| 0 <= k < edges.len() && (#[trigger] edges[k]).0 == a
}

/// Does `syms` hold `a`?
fn holds_symbol(syms: &Vec<Symbol>, a: Symbol) -> (r: bool)
    ensures
        r == syms@.contains(a),
{
    let mut i: usize = 0;
    while i < syms.len()
        invariant
            i <= syms@.len(),
            forall|j: int| 0 <= j < i ==> syms@[j] != a,
        decreases syms@.len() - i,
    {
        if syms[i].0 == a.0 {
            proof {
                assert(syms@[i as int] == a);
            }
            return true;
        }
        i += 1;
    }
    false
}

impl<'a> NfaConverter<'a> {
    /// The NFA is well formed, and `active_symbols` lists, for each state, the symbols of its
    /// edges, each once.
    pub open spec fn wf(&self) -> bool {
        &&& self.nfa.wf()
        &&& self.active_symbols@.len() == self.nfa.delta@.len()
        &&& forall|x: int| 0 <= x < self.active_symbols@.len() ==> lists_symbols(
            (#[trigger] self.active_symbols@[x])@,
            self.nfa.delta@[x]@,
        )
    }

    pub open spec fn spec_nfa(&self) -> &'a NFA {
        self.nfa
    }

    /// A converter for `nfa`.
    pub fn new(nfa: &'a NFA) -> (r: Self)
        requires
            nfa.wf(),
        ensures
            r.wf(),
            r.spec_nfa() == nfa,
    {
        let mut tmp = NfaConverter { nfa, active_symbols: Vec::new() };
        tmp.compute_active_symbols();
        tmp
    }

    /// Fill in `active_symbols`.
    fn compute_active_symbols(&mut self)
        requires
            old(self).nfa.wf(),
            old(self).active_symbols@.len() == 0,
        ensures
            final(self).wf(),
            final(self).nfa == old(self).nfa,
    {
        let n = self.nfa.delta.len();
        let mut x: usize = 0;
        while x < n
            invariant
                self.nfa.wf(),
                self.nfa == old(self).nfa,
                n == self.nfa.delta@.len(),
                x <= n,
                self.active_symbols@.len() == x,
                forall|y: int| 0 <= y < x ==> lists_symbols((#[trigger] self.active_symbols@[y])@, self.nfa.delta@[y]@),
            decreases n - x,
        {
            let edges = &self.nfa.delta[x];
            let mut syms: Vec<Symbol> = Vec::new();
            let mut k: usize = 0;
            while k < edges.len()
                invariant
                    k <= edges@.len(),
                    syms@.no_duplicates(),
                    forall|a: Symbol| #[trigger] syms@.contains(a) <==> exists|j: int| 0 <= j < k && (#[trigger] edges@[j]).0 == a,
                decreases edges@.len() - k,
            {
                let a = edges[k].0;
                if !holds_symbol(&syms, a) {
                    let ghost old_syms = syms@;
                    syms.push(a);
                    proof {
                        assert forall|a2: Symbol| #[trigger] syms@.contains(a2) <==> (old_syms.contains(a2) || a2 == a) by {
                            if syms@.contains(a2) && a2 != a {
                                let i = choose|i: int| 0 <= i < syms@.len() && syms@[i] == a2;
                                assert(old_syms[i] == a2);
                            }
                            if old_syms.contains(a2) {
                                let i = choose|i: int| 0 <= i < old_syms.len() && old_syms[i] == a2;
                                assert(syms@[i] == a2);
                            }
                            if a2 == a {
                                assert(syms@[old_syms.len() as int] == a2);
                            }
                        }
                    }
                }
                proof {
                    assert forall|a2: Symbol| #[trigger] syms@.contains(a2) <==> exists|j: int| 0 <= j < k + 1 && (#[trigger] edges@[j]).0 == a2 by {
                        if a2 == a {
                            assert(edges@[k as int].0 == a2);
                        }
                    }
                }
                k += 1;
            }
            self.active_symbols.push(syms);
            x += 1;
        }
    }

    /// Is `ss` an accepting state of the DFA, and with what label? The label of its member with
    /// the smallest id wins: that is where token priority is decided.
    fn is_accepted(&self, ss: &StateSet) -> (r: Option<AcceptedStateLabel>)
        requires
            self.wf(),
            sorted_below(ss@, self.nfa.num_states()),
        ensures
            r == self.nfa.first_label(ss@.to_set()),
    {
        let states = ss.states();
        let ghost t = ss@.to_set();
        let mut i: usize = 0;
        while i < states.len()
            invariant
                states@ == ss@,
                sorted_below(ss@, self.nfa.num_states()),
                self.nfa.wf(),
                t == ss@.to_set(),
                i <= states@.len(),
                forall|k: int| 0 <= k < i ==> self.nfa.label(#[trigger] states@[k]) is None,
            decreases states@.len() - i,
        {
            let s = states[i];
            if let Some(label) = &self.nfa.accepted[s.0 as usize] {
                proof {
                    assert(t.contains(s));
                    assert forall|y: State| #[trigger] t.contains(y) && self.nfa.label(y) is Some implies s.0 <= y.0 by {
                        let k = choose|k: int| 0 <= k < states@.len() && states@[k] == y;
                        if k < i {
                        } else if k > i {
                            assert(states@[i as int].0 < states@[k].0);
                        }
                    }
                    assert(self.nfa.is_first_accepting(t, s));
                    self.nfa.lemma_first_label_is(t, s);
                }
                return Some(label.copy());
            }
            i += 1;
        }
        proof {
            if exists|x: State| self.nfa.is_first_accepting(t, x) {
                let x = choose|x: State| self.nfa.is_first_accepting(t, x);
                let k = choose|k: int| 0 <= k < states@.len() && states@[k] == x;
                assert(self.nfa.label(states@[k]) is None);
            }
        }
        None
    }

    /// The symbols with an edge out of some state of `ss`, as a table of 128 flags.
    fn active_symbols(&self, ss: &StateSet) -> (r: Vec<bool>)
        requires
            self.wf(),
            sorted_below(ss@, self.nfa.num_states()),
        ensures
            r@.len() == 128,
            forall|a: int| 0 <= a < 128 ==> #[trigger] r@[a] == !self.nfa.step(ss@.to_set(), a as u8).is_empty(),
    {
        let states = ss.states();
        let mut marks: Vec<bool> = Vec::new();
        let mut a: usize = 0;
        while a < 128
            invariant
                a <= 128,
                marks@.len() == a,
                forall|b: int| 0 <= b < a ==> !marks@[b],
            decreases 128 - a,
        {
            marks.push(false);
            a += 1;
        }
        let ghost t = ss@.to_set();
        let mut i: usize = 0;
        while i < states.len()
            invariant
                self.wf(),
                states@ == ss@,
                t == ss@.to_set(),
                sorted_below(ss@, self.nfa.num_states()),
                i <= states@.len(),
                marks@.len() == 128,
                forall|b: int| 0 <= b < 128 && #[trigger] marks@[b] ==> exists|k: int, y: State|
                    0 <= k < i && #[trigger] self.nfa.delta_edge(states@[k], b as u8, y),
                forall|k: int, b: int, y: State| 0 <= k < i && 0 <= b < 128 && #[trigger] self.nfa.delta_edge(states@[k], b as u8, y)
                    ==> marks@[b],
            decreases states@.len() - i,
        {
            let s = states[i];
            let syms = &self.active_symbols[s.0 as usize];
            let ghost edges = self.nfa.delta@[s.0 as int]@;
            assert(lists_symbols(syms@, edges));
            let mut k: usize = 0;
            while k < syms.len()
                invariant
                    self.wf(),
                    lists_symbols(syms@, edges),
                    edges == self.nfa.delta@[s.0 as int]@,
                    (s.0 as int) < self.nfa.delta@.len(),
                    s == states@[i as int],
                    i < states@.len(),
                    k <= syms@.len(),
                    marks@.len() == 128,
                    forall|b: int| 0 <= b < 128 && #[trigger] marks@[b] ==> exists|j: int, y: State|
                        0 <= j <= i && #[trigger] self.nfa.delta_edge(states@[j], b as u8, y),
                    forall|j: int, b: int, y: State| 0 <= j < i && 0 <= b < 128 && #[trigger] self.nfa.delta_edge(states@[j], b as u8, y)
                        ==> marks@[b],
                    forall|j: int| 0 <= j < k ==> marks@[(#[trigger] syms@[j]).0 as int],
                    syms@.len() == syms.len(),
                decreases syms@.len() - k,
            {
                let b = syms[k].0;
                proof {
                    assert(syms@.contains(syms@[k as int]));
                    let m = choose|m: int| 0 <= m < edges.len() && (#[trigger] edges[m]).0 == syms@[k as int];
                    assert(self.nfa.delta@[s.0 as int]@[m].0.0 < 128);
                    assert(edges[m] == (Symbol(b), edges[m].1));
                    assert(self.nfa.delta@[states@[i as int].0 as int]@.contains((Symbol(b), edges[m].1)));
                    assert(self.nfa.delta_edge(states@[i as int], b, edges[m].1));
                }
                let ghost old_marks = marks@;
                proof {
                    assert(forall|j: int| 0 <= j < k ==> old_marks[(#[trigger] syms@[j]).0 as int]);
                }
                marks.set(b as usize, true);
                proof {
                    let m = choose|m: int| 0 <= m < edges.len() && (#[trigger] edges[m]).0 == syms@[k as int];
                    assert forall|c: int| 0 <= c < 128 && #[trigger] marks@[c] implies exists|j: int, y: State|
                        0 <= j <= i && #[trigger] self.nfa.delta_edge(states@[j], c as u8, y) by {
                        if c == b as int {
                            assert(self.nfa.delta_edge(states@[i as int], c as u8, edges[m].1));
                        } else {
                            assert(old_marks[c]);
                        }
                    }
                    assert forall|j: int| 0 <= j < k + 1 implies marks@[(#[trigger] syms@[j]).0 as int] by {
                        if j < k {
                            assert(old_marks[syms@[j].0 as int]);
                            assert(syms@.contains(syms@[j]));
                            let m2 = choose|m2: int| 0 <= m2 < edges.len() && (#[trigger] edges[m2]).0 == syms@[j];
                            assert(self.nfa.delta@[s.0 as int]@[m2].0.0 < 128);
                        } else {
                            assert(syms@[j].0 == b);
                        }
                    }
                }
                k += 1;
            }
            proof {
                assert forall|j: int, b: int, y: State| 0 <= j < i + 1 && 0 <= b < 128 && #[trigger] self.nfa.delta_edge(states@[j], b as u8, y)
                    implies marks@[b] by {
                    if j == i {
                        let m = choose|m: int| 0 <= m < edges.len() && edges[m] == (Symbol(b as u8), y);
                        assert(edges[m].0 == Symbol(b as u8));
                        assert(syms@.contains(Symbol(b as u8)));
                        let q = choose|q: int| 0 <= q < syms@.len() && syms@[q] == Symbol(b as u8);
                        assert(marks@[syms@[q].0 as int]);
                    }
                }
            }
            i += 1;
        }
        proof {
            assert forall|a: int| 0 <= a < 128 implies #[trigger] marks@[a] == !self.nfa.step(t, a as u8).is_empty() by {
                if marks@[a] {
                    let (k, y) = choose|k: int, y: State| 0 <= k < states@.len() && #[trigger] self.nfa.delta_edge(states@[k], a as u8, y);
                    assert(t.contains(states@[k]));
                    assert(self.nfa.step(t, a as u8).contains(y));
                }
                if !self.nfa.step(t, a as u8).is_empty() {
                    let y = self.nfa.step(t, a as u8).choose();
                    assert(self.nfa.step(t, a as u8).contains(y));
                    let x = choose|x: State| #[trigger] t.contains(x) && self.nfa.delta_edge(x, a as u8, y);
                    let k = choose|k: int| 0 <= k < states@.len() && states@[k] == x;
                    assert(self.nfa.delta_edge(states@[k], a as u8, y));
                }
            }
        }
        marks
    }

    /// Extend the flagged states with every state that epsilon edges reach from them.
    fn eps_closure(&self, reachable: &mut Vec<bool>)
        requires
            self.wf(),
            old(reachable)@.len() == self.nfa.num_states(),
        ensures
            final(reachable)@.len() == old(reachable)@.len(),
            flagged(final(reachable)@) == self.nfa.closure(flagged(old(reachable)@)),
    {
        let ghost seed = flagged(reachable@);
        let n = reachable.len();
        let mut queue: Vec<State> = Vec::new();
        let mut i: usize = 0;
        while i < n
            invariant
                self.wf(),
                n == reachable@.len(),
                n == self.nfa.num_states(),
                seed == flagged(reachable@),
                i <= n,
                forall|k: int| 0 <= k < queue@.len() ==> flagged(reachable@).contains(#[trigger] queue@[k]),
                forall|x: State| #[trigger] flagged(reachable@).contains(x) && x.0 < i ==> queue@.contains(x),
            decreases n - i,
        {
            if reachable[i] {
                let ghost old_queue = queue@;
                queue.push(State(i as u32));
                proof {
                    assert(queue@[queue@.len() - 1] == State(i as u32));
                    assert forall|x: State| old_queue.contains(x) implies #[trigger] queue@.contains(x) by {
                        let j = choose|j: int| 0 <= j < old_queue.len() && old_queue[j] == x;
                        assert(queue@[j] == x);
                    }
                }
            }
            i += 1;
        }
        proof {
            self.nfa.lemma_closure_contains_seed(seed);
        }
        while queue.len() > 0
            invariant
                self.wf(),
                n == reachable@.len(),
                n == self.nfa.num_states(),
                seed.subset_of(flagged(reachable@)),
                flagged(reachable@).subset_of(self.nfa.closure(seed)),
                forall|k: int| 0 <= k < queue@.len() ==> flagged(reachable@).contains(#[trigger] queue@[k]),
                forall|x: State, y: State|
                    #[trigger] flagged(reachable@).contains(x) && !queue@.contains(x) && #[trigger] self.nfa.eps_edge(x, y)
                        ==> flagged(reachable@).contains(y),
            decreases unset_count(reachable@), queue@.len(),
        {
            let ghost q0 = queue@.len();
            let ghost u0 = unset_count(reachable@);
            let ghost before_pop = queue@;
            let s = queue.pop().unwrap();
            proof {
                assert(flagged(reachable@).contains(before_pop[before_pop.len() - 1]));
                assert forall|x: State| #[trigger] before_pop.contains(x) && x != s implies queue@.contains(x) by {
                    let j = choose|j: int| 0 <= j < before_pop.len() && before_pop[j] == x;
                    assert(queue@[j] == x);
                }
            }
            let nbrs = &self.nfa.epsilon[s.0 as usize];
            let mut k: usize = 0;
            while k < nbrs.len()
                invariant
                    self.wf(),
                    n == reachable@.len(),
                    n == self.nfa.num_states(),
                    nbrs@ == self.nfa.epsilon@[s.0 as int]@,
                    (s.0 as int) < n,
                    flagged(reachable@).contains(s),
                    k <= nbrs@.len(),
                    seed.subset_of(flagged(reachable@)),
                    flagged(reachable@).subset_of(self.nfa.closure(seed)),
                    forall|j: int| 0 <= j < queue@.len() ==> flagged(reachable@).contains(#[trigger] queue@[j]),
                    forall|x: State, y: State|
                        #[trigger] flagged(reachable@).contains(x) && !queue@.contains(x) && x != s && #[trigger] self.nfa.eps_edge(x, y)
                            ==> flagged(reachable@).contains(y),
                    forall|j: int| 0 <= j < k ==> flagged(reachable@).contains(#[trigger] nbrs@[j]),
                    unset_count(reachable@) + queue@.len() == u0 + q0 - 1,
                    unset_count(reachable@) <= u0,
                decreases nbrs@.len() - k,
            {
                let nbr = nbrs[k];
                proof {
                    assert(self.nfa.epsilon@[s.0 as int]@[k as int].0 < n);
                }
                if !reachable[nbr.0 as usize] {
                    proof {
                        lemma_unset_count_update(reachable@, nbr.0 as int);
                        self.nfa.lemma_closure_is_closed(seed);
                        assert(self.nfa.eps_edge(s, nbr));
                        assert(self.nfa.closure(seed).contains(nbr));
                    }
                    let ghost old_flags = flagged(reachable@);
                    let ghost old_queue = queue@;
                    reachable.set(nbr.0 as usize, true);
                    queue.push(nbr);
                    proof {
                        assert(flagged(reachable@) =~= old_flags.insert(nbr));
                        assert(queue@[queue@.len() - 1] == nbr);
                        assert forall|x: State| old_queue.contains(x) implies #[trigger] queue@.contains(x) by {
                            let j = choose|j: int| 0 <= j < old_queue.len() && old_queue[j] == x;
                            assert(queue@[j] == x);
                        }
                    }
                }
                k += 1;
            }
            proof {
                assert forall|x: State, y: State|
                    #[trigger] flagged(reachable@).contains(x) && !queue@.contains(x) && #[trigger] self.nfa.eps_edge(x, y)
                        implies flagged(reachable@).contains(y) by {
                    if x == s {
                        let j = choose|j: int| 0 <= j < nbrs@.len() && nbrs@[j] == y;
                        assert(flagged(reachable@).contains(nbrs@[j]));
                    }
                }
            }
        }
        proof {
            self.nfa.lemma_closure_least(seed, flagged(reachable@));
            assert(flagged(reachable@) =~= self.nfa.closure(seed));
        }
    }

    /// The epsilon closure of one state.
    fn eps_closure_one_state(&self, state: State) -> (r: StateSet)
        requires
            self.wf(),
            (state.0 as int) < self.nfa.num_states(),
        ensures
            r@.to_set() == self.nfa.closure(set![state]),
            sorted_below(r@, self.nfa.num_states()),
            r@.len() > 0,
    {
        let mut bits = no_flags(self.nfa.num_states_exec());
        bits.set(state.0 as usize, true);
        proof {
            assert(flagged(bits@) =~= set![state]);
        }
        self.eps_closure(&mut bits);
        let v = sorted_states(&bits);
        proof {
            self.nfa.lemma_closure_contains_seed(set![state]);
            assert(v@.to_set().contains(state));
        }
        StateSet::new(v)
    }

    /// Move every state of `ss` along the edges labelled `sym`, then close under epsilon edges.
    fn next_stateset(&self, ss: &StateSet, sym: Symbol) -> (r: StateSet)
        requires
            self.wf(),
            sorted_below(ss@, self.nfa.num_states()),
            !self.nfa.step(ss@.to_set(), sym.0).is_empty(),
        ensures
            r@.to_set() == self.nfa.closure(self.nfa.step(ss@.to_set(), sym.0)),
            sorted_below(r@, self.nfa.num_states()),
            r@.len() > 0,
    {
        let n = self.nfa.num_states_exec();
        let mut bits = no_flags(n);
        let states = ss.states();
        let ghost t = ss@.to_set();
        let mut i: usize = 0;
        while i < states.len()
            invariant
                self.wf(),
                n == self.nfa.num_states(),
                bits@.len() == n,
                states@ == ss@,
                t == ss@.to_set(),
                sorted_below(ss@, n as nat),
                i <= states@.len(),
                forall|y: State| #[trigger] flagged(bits@).contains(y) ==> exists|k: int|
                    0 <= k < i && #[trigger] self.nfa.delta_edge(states@[k], sym.0, y),
                forall|k: int, y: State| 0 <= k < i && #[trigger] self.nfa.delta_edge(states@[k], sym.0, y)
                    ==> flagged(bits@).contains(y),
            decreases states@.len() - i,
        {
            let x = states[i];
            let edges = &self.nfa.delta[x.0 as usize];
            let mut k: usize = 0;
            while k < edges.len()
                invariant
                    self.wf(),
                    n == self.nfa.num_states(),
                    bits@.len() == n,
                    states@ == ss@,
                    i < states@.len(),
                    x == states@[i as int],
                    (x.0 as int) < n,
                    edges@ == self.nfa.delta@[x.0 as int]@,
                    k <= edges@.len(),
                    forall|y: State| #[trigger] flagged(bits@).contains(y) ==> exists|j: int|
                        0 <= j <= i && #[trigger] self.nfa.delta_edge(states@[j], sym.0, y),
                    forall|j: int, y: State| 0 <= j < i && #[trigger] self.nfa.delta_edge(states@[j], sym.0, y)
                        ==> flagged(bits@).contains(y),
                    forall|j: int| 0 <= j < k && (#[trigger] edges@[j]).0 == sym ==> flagged(bits@).contains(edges@[j].1),
                decreases edges@.len() - k,
            {
                let (a, y) = edges[k];
                proof {
                    assert(self.nfa.delta@[x.0 as int]@[k as int].1.0 < n);
                }
                if a.0 == sym.0 {
                    let ghost old_flags = flagged(bits@);
                    bits.set(y.0 as usize, true);
                    proof {
                        assert(flagged(bits@) =~= old_flags.insert(y));
                        assert(edges@[k as int] == (sym, y));
                        assert(self.nfa.delta_edge(states@[i as int], sym.0, y));
                    }
                }
                k += 1;
            }
            proof {
                assert forall|j: int, y: State| 0 <= j < i + 1 && #[trigger] self.nfa.delta_edge(states@[j], sym.0, y)
                    implies flagged(bits@).contains(y) by {
                    if j == i {
                        let m = choose|m: int| 0 <= m < edges@.len() && edges@[m] == (Symbol(sym.0), y);
                        assert(edges@[m].0 == sym);
                    }
                }
            }
            i += 1;
        }
        proof {
            let st = self.nfa.step(t, sym.0);
            assert forall|y: State| flagged(bits@).contains(y) <==> st.contains(y) by {
                if flagged(bits@).contains(y) {
                    let k = choose|k: int| 0 <= k < states@.len() && #[trigger] self.nfa.delta_edge(states@[k], sym.0, y);
                    assert(t.contains(states@[k]));
                }
                if st.contains(y) {
                    let x = choose|x: State| #[trigger] t.contains(x) && self.nfa.delta_edge(x, sym.0, y);
                    let k = choose|k: int| 0 <= k < states@.len() && states@[k] == x;
                    assert(self.nfa.delta_edge(states@[k], sym.0, y));
                }
            }
            assert(flagged(bits@) =~= st);
        }
        let ghost before = flagged(bits@);
        self.eps_closure(&mut bits);
        let v = sorted_states(&bits);
        proof {
            let y = before.choose();
            self.nfa.lemma_closure_contains_seed(before);
            assert(v@.to_set().contains(y));
        }
        StateSet::new(v)
    }
}


impl<'a> NfaConverter<'a> {
    /// The sets of NFA states that `sets` holds, in order.
    pub closed spec fn set_views(sets: Seq<StateSet>) -> Seq<Set<State>> {
        sets.map_values(|ss: StateSet| ss@.to_set())
    }

    /// Perform the subset construction. DFA state `0` stands for the epsilon closure of the
    /// NFA's initial state.
    pub fn to_dfa(self) -> (r: DFA)
        requires
            self.wf(),
        ensures
            r.init == 0,
            r.wf(),
            r.simulates(self.spec_nfa()),
            r.accepted@.len() <= two_pow(self.spec_nfa().num_states()),
    {
        let nfa = self.nfa;
        let ghost n = nfa.num_states();
        let init = self.eps_closure_one_state(nfa.init);
        let mut sets: Vec<StateSet> = Vec::new();
        sets.push(init);
        let mut accepted: Vec<Option<AcceptedStateLabel>> = Vec::new();
        let mut delta: Vec<Vec<Option<usize>>> = Vec::new();
        let mut done: usize = 0;
        let ghost mut inputs: Seq<Seq<u8>> = seq![Seq::<u8>::empty()];
        proof {
            lemma_distinct_lists_bounded(sets@, n);
        }
        while done < sets.len()
            invariant
                inputs.len() == sets@.len(),
                forall|i: int| 0 <= i < sets@.len() ==> (#[trigger] sets@[i])@.to_set() == nfa.reach(inputs[i]),
                self.wf(),
                nfa == self.nfa,
                n == nfa.num_states(),
                1 <= sets@.len() <= two_pow(n),
                done <= sets@.len(),
                accepted@.len() == done,
                delta@.len() == done,
                sets@[0]@.to_set() == nfa.closure(set![nfa.init]),
                forall|i: int| 0 <= i < sets@.len() ==> sorted_below((#[trigger] sets@[i])@, n),
                forall|i: int| 0 <= i < sets@.len() ==> (#[trigger] sets@[i])@.len() > 0,
                forall|i: int, j: int| 0 <= i < j < sets@.len() ==> (#[trigger] sets@[i])@ != (#[trigger] sets@[j])@,
                forall|q: int| 0 <= q < done ==> (#[trigger] delta@[q])@.len() == 128,
                forall|q: int, a: int|
                    0 <= q < done && 0 <= a < 128 ==> match #[trigger] delta@[q]@[a] {
                        Some(r) => r < sets@.len() && sets@[r as int]@.to_set() == nfa.closure(
                            nfa.step(sets@[q]@.to_set(), a as u8),
                        ),
                        None => nfa.step(sets@[q]@.to_set(), a as u8) == Set::<State>::empty(),
                    },
                forall|q: int| 0 <= q < done ==> #[trigger] accepted@[q] == nfa.first_label(sets@[q]@.to_set()),
            decreases two_pow(n) - sets@.len(), sets@.len() - done,
        {
            let ss = sets[done].copy();
            let label = self.is_accepted(&ss);
            let active = self.active_symbols(&ss);
            let mut row: Vec<Option<usize>> = Vec::new();
            let mut a: usize = 0;
            let ghost start_len = sets@.len();
            while a < 128
                invariant
                    inputs.len() == sets@.len(),
                    forall|i: int| 0 <= i < sets@.len() ==> (#[trigger] sets@[i])@.to_set() == nfa.reach(inputs[i]),
                    start_len <= sets@.len(),
                    self.wf(),
                    nfa == self.nfa,
                    n == nfa.num_states(),
                    ss@ == sets@[done as int]@,
                    sorted_below(ss@, n),
                    active@.len() == 128,
                    forall|b: int| 0 <= b < 128 ==> #[trigger] active@[b] == !nfa.step(ss@.to_set(), b as u8).is_empty(),
                    a <= 128,
                    row@.len() == a,
                    1 <= sets@.len() <= two_pow(n),
                    done < sets@.len(),
                    accepted@.len() == done,
                    delta@.len() == done,
                    sets@[0]@.to_set() == nfa.closure(set![nfa.init]),
                    forall|i: int| 0 <= i < sets@.len() ==> sorted_below((#[trigger] sets@[i])@, n),
                    forall|i: int| 0 <= i < sets@.len() ==> (#[trigger] sets@[i])@.len() > 0,
                forall|i: int| 0 <= i < sets@.len() ==> (#[trigger] sets@[i])@.len() > 0,
                    forall|i: int, j: int| 0 <= i < j < sets@.len() ==> (#[trigger] sets@[i])@ != (#[trigger] sets@[j])@,
                    forall|q: int| 0 <= q < done ==> (#[trigger] delta@[q])@.len() == 128,
                    forall|q: int, b: int|
                        0 <= q < done && 0 <= b < 128 ==> match #[trigger] delta@[q]@[b] {
                            Some(r) => r < sets@.len() && sets@[r as int]@.to_set() == nfa.closure(
                                nfa.step(sets@[q]@.to_set(), b as u8),
                            ),
                            None => nfa.step(sets@[q]@.to_set(), b as u8) == Set::<State>::empty(),
                        },
                    forall|q: int| 0 <= q < done ==> #[trigger] accepted@[q] == nfa.first_label(sets@[q]@.to_set()),
                    forall|b: int|
                        0 <= b < a ==> match #[trigger] row@[b] {
                            Some(r) => r < sets@.len() && sets@[r as int]@.to_set() == nfa.closure(
                                nfa.step(ss@.to_set(), b as u8),
                            ),
                            None => nfa.step(ss@.to_set(), b as u8) == Set::<State>::empty(),
                        },
                decreases 128 - a,
            {
                if active[a] {
                    let next = self.next_stateset(&ss, Symbol(a as u8));
                    let target = match find(&sets, &next) {
                        Some(i) => i,
                        None => {
                            let ghost old_sets = sets@;
                            sets.push(next);
                            proof {
                                let w = inputs[done as int].push(a as u8);
                                assert(w.drop_last() =~= inputs[done as int]);
                                assert(next@.to_set() == nfa.reach(w));
                                inputs = inputs.push(w);
                                assert(sets@[sets@.len() - 1] == next);
                                assert forall|i: int, j: int| 0 <= i < j < sets@.len() implies
                                    (#[trigger] sets@[i])@ != (#[trigger] sets@[j])@ by {
                                    if j < old_sets.len() {
                                        assert(old_sets[i]@ != old_sets[j]@);
                                    } else {
                                        assert(old_sets[i]@ != next@);
                                    }
                                }
                                lemma_distinct_lists_bounded(sets@, n);
                            }
                            sets.len() - 1
                        },
                    };
                    row.push(Some(target));
                } else {
                    row.push(None);
                    proof {
                        assert(nfa.step(ss@.to_set(), a as u8) =~= Set::<State>::empty());
                    }
                }
                a += 1;
            }
            accepted.push(label);
            delta.push(row);
            done += 1;
        }
        let dfa = DFA { init: 0, accepted, delta };
        proof {
            let views = Self::set_views(sets@);
            assert forall|q: int| 0 <= q < views.len() implies #[trigger] views[q] == sets@[q]@.to_set() by {}
            assert forall|q: int| 0 <= q < views.len() implies !(#[trigger] views[q]).is_empty() by {
                assert(views[q].contains(sets@[q]@[0]));
            }
            assert forall|i: int, j: int| 0 <= i < views.len() && 0 <= j < views.len() && i != j implies #[trigger] views[i]
                != #[trigger] views[j] by {
                if views[i] == views[j] {
                    lemma_sorted_set_determines(sets@[i]@, sets@[j]@);
                    if i < j {
                        assert(sets@[i]@ != sets@[j]@);
                    } else {
                        assert(sets@[j]@ != sets@[i]@);
                    }
                }
            }
            assert forall|q: int| 0 <= q < views.len() implies exists|w: Seq<u8>| #[trigger] nfa.reach(w) == #[trigger] views[q] by {
                assert(nfa.reach(inputs[q]) == views[q]);
            }
            assert(dfa.is_subset_construction(nfa, views));
        }
        dfa
    }
}

/// A strictly increasing list is fixed by the set of its states.
proof fn lemma_sorted_set_determines(a: Seq<State>, b: Seq<State>)
    requires
        strictly_increasing(a),
        strictly_increasing(b),
        a.to_set() == b.to_set(),
    ensures
        a == b,
    decreases a.len(),
{
    if a.len() == 0 {
        if b.len() > 0 {
            assert(b.to_set().contains(b[0]));
        }
        assert(a =~= b);
    } else {
        assert(a.to_set().contains(a[0]));
        let k = choose|k: int| 0 <= k < b.len() && b[k] == a[0];
        assert(b.to_set().contains(b[0]));
        let m = choose|m: int| 0 <= m < a.len() && a[m] == b[0];
        if m > 0 {
            assert(a[0].0 < a[m].0);
        }
        if k > 0 {
            assert(b[0].0 < b[k].0);
        }
        assert(a[0] == b[0]);
        let a1 = a.drop_first();
        let b1 = b.drop_first();
        assert forall|x: State| a1.to_set().contains(x) <==> b1.to_set().contains(x) by {
            if a1.to_set().contains(x) {
                let i = choose|i: int| 0 <= i < a1.len() && a1[i] == x;
                assert(a[i + 1] == x);
                assert(a[0].0 < x.0);
                assert(b.to_set().contains(x));
                let j = choose|j: int| 0 <= j < b.len() && b[j] == x;
                assert(j != 0);
                assert(b1[j - 1] == x);
            }
            if b1.to_set().contains(x) {
                let i = choose|i: int| 0 <= i < b1.len() && b1[i] == x;
                assert(b[i + 1] == x);
                assert(b[0].0 < x.0);
                assert(a.to_set().contains(x));
                let j = choose|j: int| 0 <= j < a.len() && a[j] == x;
                assert(j != 0);
                assert(a1[j - 1] == x);
            }
        }
        assert(a1.to_set() =~= b1.to_set());
        lemma_sorted_set_determines(a1, b1);
        assert(b.len() > 0);
        assert(a.len() == b.len());
        assert forall|i: int| 0 <= i < a.len() implies a[i] == b[i] by {
            if i > 0 {
                assert(a[i] == a1[i - 1]);
                assert(b[i] == b1[i - 1]);
            }
        }
        assert(a =~= b);
    }
}

/// Distinct sorted lists of states below `n` number at most `2^n`.
proof fn lemma_distinct_lists_bounded(sets: Seq<StateSet>, n: nat)
    requires
        forall|i: int| 0 <= i < sets.len() ==> sorted_below((#[trigger] sets[i])@, n),
        forall|i: int, j: int| 0 <= i < j < sets.len() ==> (#[trigger] sets[i])@ != (#[trigger] sets[j])@,
    ensures
        sets.len() <= two_pow(n),
{
    let lists = sets.map_values(|ss: StateSet| ss@);
    assert(lists.no_duplicates()) by {
        assert forall|i: int, j: int| 0 <= i < lists.len() && 0 <= j < lists.len() && i != j implies lists[i] != lists[j] by {
            if i < j {
                assert(sets[i]@ != sets[j]@);
            } else {
                assert(sets[j]@ != sets[i]@);
            }
        }
    }
    lists.unique_seq_to_set();
    let t = lists.to_set();
    assert forall|s: Seq<State>| #[trigger] t.contains(s) implies sorted_below(s, n) by {
        let i = choose|i: int| 0 <= i < lists.len() && lists[i] == s;
        assert(sorted_below(sets[i]@, n));
    }
    lemma_few_sorted_lists(t, n);
}

impl NFA {
    /// Convert this NFA into an equivalent DFA: they accept the same strings, with the same
    /// labels.
    pub fn to_dfa(&self) -> (r: DFA)
        requires
            self.wf(),
        ensures
            r.wf(),
            r.init == 0,
            r.simulates(self),
            r.accepted@.len() <= two_pow(self.num_states()),
    {
        NfaConverter::new(self).to_dfa()
    }
}

} // verus!
