//! The building blocks of the automata: symbols, states, sets of states and accept labels.

use vstd::prelude::*;
use crate::tokens::Token;

verus! {

/// One input symbol of an automaton: an ASCII byte.
#[derive(Clone, Copy, PartialEq, Eq, Structural, Debug)]
pub struct Symbol(pub u8);

impl Symbol {
    /// Wrap an ASCII byte.
    pub fn new(b: u8) -> (r: Symbol)
        requires
            b < 128,
        ensures
            r.0 == b,
    {
        Symbol(b)
    }

    /// The symbol as a character.
    pub fn to_char(self) -> (c: char)
        ensures
            c as u32 == self.0 as u32,
    {
        self.0 as char
    }
}

/// A state of an NFA. Smaller ids were created earlier and carry higher lexical priority.
#[derive(Clone, Copy, PartialEq, Eq, Structural, Debug)]
pub struct State(pub u32);


/// The label of an accepting state: what a match that ends there is.
#[derive(Debug, Clone, PartialEq, Eq)]
pub enum AcceptedStateLabel {
    /// A token. Its inner data is filler (an identifier's name, an integer's value): the
    /// scanner fills it in from the matched text.
    TokenType { type_: Token<'static> },
    LineComment,
    StarComment,
    JavadocComment,
    Whitespace,
}

impl AcceptedStateLabel {
    /// A copy of this label.
    pub fn copy(&self) -> (r: AcceptedStateLabel)
        ensures
            r == *self,
    {
        match self {
            AcceptedStateLabel::TokenType { type_ } => AcceptedStateLabel::TokenType { type_: type_.copy() },
            AcceptedStateLabel::LineComment => AcceptedStateLabel::LineComment,
            AcceptedStateLabel::StarComment => AcceptedStateLabel::StarComment,
            AcceptedStateLabel::JavadocComment => AcceptedStateLabel::JavadocComment,
            AcceptedStateLabel::Whitespace => AcceptedStateLabel::Whitespace,
        }
    }
}

/// `s` is strictly increasing.
pub open spec fn strictly_increasing(s: Seq<State>) -> bool {
    forall|i: int, j: int| 0 <= i < j < s.len() ==> s[i].0 < s[j].0
}

/// A sorted, deduplicated, non-empty list of states: a state of the DFA that the subset
/// construction builds. Two of them are equal exactly when their lists are.
#[derive(Debug)]
pub struct StateSet {
    states: Vec<State>,
}

impl View for StateSet {
    type V = Seq<State>;

    closed spec fn view(&self) -> Seq<State> {
        self.states@
    }
}

impl StateSet {
    #[verifier::type_invariant]
    spec fn inv(self) -> bool {
        self.states@.len() > 0 && strictly_increasing(self.states@)
    }

    /// The states, as a set.
    pub open spec fn to_set(&self) -> Set<State> {
        self@.to_set()
    }

    /// `states` must be non-empty and strictly increasing.
    pub fn new(states: Vec<State>) -> (r: StateSet)
        requires
            states@.len() > 0,
            strictly_increasing(states@),
        ensures
            r@ == states@,
    {
        StateSet { states }
    }

    /// The states, in increasing order.
    pub fn states(&self) -> (r: &Vec<State>)
        ensures
            r@ == self@,
            r@.len() > 0,
            strictly_increasing(r@),
    {
        proof {
            use_type_invariant(self);
        }
        &self.states
    }

    /// A copy of this set.
    pub fn copy(&self) -> (r: StateSet)
        ensures
            r@ == self@,
    {
        proof {
            use_type_invariant(self);
        }
        let mut v: Vec<State> = Vec::new();
        let mut i: usize = 0;
        while i < self.states.len()
            invariant
                i <= self.states@.len(),
                v@ == self.states@.subrange(0, i as int),
            decreases self.states@.len() - i,
        {
            v.push(self.states[i]);
            i += 1;
        }
        proof {
            assert(v@ == self.states@);
        }
        StateSet { states: v }
    }

    /// Is the list of states strictly increasing? Always true of a `StateSet`.
    pub fn is_sorted_unique(&self) -> (r: bool)
        ensures
            r,
    {
        proof {
            use_type_invariant(self);
        }
        let mut i: usize = 1;
        while i < self.states.len()
            invariant
                1 <= i,
                strictly_increasing(self.states@),
            decreases self.states@.len() - i,
        {
            if self.states[i - 1].0 >= self.states[i].0 {
                return false;
            }
            i += 1;
        }
        true
    }

    /// Do the two sets hold the same states?
    pub fn same(&self, other: &StateSet) -> (r: bool)
        ensures
            r == (self@ == other@),
    {
        if self.states.len() != other.states.len() {
            return false;
        }
        let mut i: usize = 0;
        while i < self.states.len()
            invariant
                self.states@.len() == other.states@.len(),
                i <= self.states@.len(),
                forall|k: int| 0 <= k < i ==> self.states@[k] == other.states@[k],
            decreases self.states@.len() - i,
        {
            if self.states[i].0 != other.states[i].0 {
                return false;
            }
            i += 1;
        }
        proof {
            assert(self.states@ =~= other.states@);
        }
        true
    }
}

} // verus!
