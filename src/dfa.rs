//! Deterministic finite automata: running them, and the max-munch scanner.

use vstd::prelude::*;
use crate::nfa::NFA;
use crate::states::{AcceptedStateLabel, State, Symbol};
use crate::tokenizer::{symbols, Position};
use crate::tokens::{Token, TokenError, TokenErrorType, TokenInfo, TokenOrComment};
use crate::token_types::Literal;
use crate::string_escapes::{resolve_escape_seqs, unescape};

verus! {

/// A DFA whose states are the ids `0..accepted.len()`.
///
/// `delta[q][a]` is where the symbol `a` leads from `q`; `None` is an implicit dead state that
/// accepts nothing.
#[derive(Debug)]
pub struct DFA {
    pub init: usize,
    /// The label of each state; `None` for a state that does not accept.
    pub accepted: Vec<Option<AcceptedStateLabel>>,
    /// One row of 128 entries per state, one entry per ASCII symbol.
    pub delta: Vec<Vec<Option<usize>>>,
}

impl DFA {
    /// The transition table has a row of 128 entries for each state, and every entry stays
    /// among the states.
    pub open spec fn wf(&self) -> bool {
        &&& self.init < self.accepted@.len()
        &&& self.delta@.len() == self.accepted@.len()
        &&& forall|q: int| 0 <= q < self.delta@.len() ==> (#[trigger] self.delta@[q])@.len() == 128
        &&& forall|q: int, a: int|
            0 <= q < self.delta@.len() && 0 <= a < 128 ==> match #[trigger] self.delta@[q]@[a] {
                Some(r) => r < self.accepted@.len(),
                None => true,
            }
    }

    /// Where the symbol `a` leads from `q`.
    pub open spec fn next(&self, q: nat, a: u8) -> Option<nat> {
        if q < self.delta@.len() && a < 128 && (a as int) < self.delta@[q as int]@.len() {
            match self.delta@[q as int]@[a as int] {
                Some(r) => Some(r as nat),
                None => None,
            }
        } else {
            None
        }
    }

    /// The state after reading `s` from `q`; `None` once the dead state is reached.
    pub open spec fn run_from(&self, q: nat, s: Seq<u8>) -> Option<nat>
        decreases s.len(),
    {
        if s.len() == 0 {
            Some(q)
        } else {
            match self.run_from(q, s.drop_last()) {
                Some(p) => self.next(p, s.last()),
                None => None,
            }
        }
    }

    /// The state after reading `s` from the initial state.
    pub open spec fn run(&self, s: Seq<u8>) -> Option<nat> {
        self.run_from(self.init as nat, s)
    }

    /// The label of a state.
    pub open spec fn label(&self, q: nat) -> Option<AcceptedStateLabel> {
        if q < self.accepted@.len() {
            self.accepted@[q as int]
        } else {
            None
        }
    }

    /// The label that reading `s` ends with.
    pub open spec fn label_of(&self, s: Seq<u8>) -> Option<AcceptedStateLabel> {
        match self.run(s) {
            Some(q) => self.label(q),
            None => None,
        }
    }

    /// Does the DFA accept `s`?
    pub open spec fn accepts_spec(&self, s: Seq<u8>) -> bool {
        self.label_of(s) is Some
    }

    /// `sets` gives, for each state of this DFA, the set of states of `nfa` that it stands for,
    /// as the subset construction makes them.
    pub open spec fn is_subset_construction(&self, nfa: &NFA, sets: Seq<Set<State>>) -> bool {
        &&& self.wf()
        &&& sets.len() == self.accepted@.len()
        &&& sets[self.init as int] == nfa.closure(set![nfa.init])
        &&& forall|q: int, a: int|
            0 <= q < sets.len() && 0 <= a < 128 ==> match #[trigger] self.delta@[q]@[a] {
                Some(r) => sets[r as int] == nfa.closure(nfa.step(sets[q], a as u8)),
                None => nfa.step(sets[q], a as u8) == Set::<State>::empty(),
            }
        &&& forall|q: int| 0 <= q < sets.len() ==> #[trigger] self.accepted@[q] == nfa.first_label(sets[q])
        &&& forall|q: int| 0 <= q < sets.len() ==> !(#[trigger] sets[q]).is_empty()
        &&& forall|i: int, j: int| 0 <= i < sets.len() && 0 <= j < sets.len() && i != j ==> #[trigger] sets[i] != #[trigger] sets[j]
        &&& forall|q: int| 0 <= q < sets.len() ==> exists|w: Seq<u8>| #[trigger] nfa.reach(w) == #[trigger] sets[q]
    }

    /// This DFA is a subset construction of `nfa`.
    pub open spec fn simulates(&self, nfa: &NFA) -> bool {
        exists|sets: Seq<Set<State>>| self.is_subset_construction(nfa, sets)
    }

    /// After any input, the DFA's state stands for exactly the states the NFA can be in.
    pub proof fn lemma_run_tracks_reach(&self, nfa: &NFA, sets: Seq<Set<State>>, s: Seq<u8>)
        requires
            nfa.wf(),
            self.is_subset_construction(nfa, sets),
        ensures
            match self.run(s) {
                Some(q) => q < sets.len() && sets[q as int] == nfa.reach(s),
                None => nfa.reach(s) == Set::<State>::empty(),
            },
        decreases s.len(),
    {
        if s.len() > 0 {
            let p = s.drop_last();
            let a = s.last();
            self.lemma_run_tracks_reach(nfa, sets, p);
            match self.run(p) {
                Some(q) => {
                    if a < 128 {
                        assert(self.delta@[q as int]@.len() == 128);
                        let e = self.delta@[q as int]@[a as int];
                        assert(match e {
                            Some(r) => sets[r as int] == nfa.closure(nfa.step(sets[q as int], a)),
                            None => nfa.step(sets[q as int], a) == Set::<State>::empty(),
                        });
                        if e is None {
                            nfa.lemma_closure_empty();
                        }
                    } else {
                        assert(nfa.step(nfa.reach(p), a) =~= Set::<State>::empty()) by {
                            assert forall|y: State| !nfa.step(nfa.reach(p), a).contains(y) by {
                                if nfa.step(nfa.reach(p), a).contains(y) {
                                    let x = choose|x: State| #[trigger] nfa.reach(p).contains(x) && nfa.delta_edge(x, a, y);
                                    let k = choose|k: int| 0 <= k < nfa.delta@[x.0 as int]@.len() && nfa.delta@[x.0 as int]@[k] == (crate::states::Symbol(a), y);
                                    assert(nfa.delta@[x.0 as int]@[k].0.0 < 128);
                                }
                            }
                        }
                        nfa.lemma_closure_empty();
                    }
                },
                None => {
                    assert(nfa.step(Set::<State>::empty(), a) =~= Set::<State>::empty());
                    nfa.lemma_closure_empty();
                },
            }
        }
    }

    /// Every state of a subset construction is reached by some input.
    pub proof fn lemma_every_state_reached(&self, nfa: &NFA, q: nat)
        requires
            nfa.wf(),
            self.simulates(nfa),
            q < self.accepted@.len(),
        ensures
            exists|w: Seq<u8>| #[trigger] self.run(w) == Some(q),
    {
        let sets = choose|sets: Seq<Set<State>>| self.is_subset_construction(nfa, sets);
        let w = choose|w: Seq<u8>| #[trigger] nfa.reach(w) == sets[q as int];
        self.lemma_run_tracks_reach(nfa, sets, w);
        assert(!sets[q as int].is_empty());
        match self.run(w) {
            Some(p) => {
                assert(sets[p as int] == sets[q as int]);
            },
            None => {},
        }
        assert(self.run(w) == Some(q));
    }

    /// The subset construction preserves the language: the DFA accepts exactly what the NFA
    /// accepts, and ends with the same label, the one of the NFA's first accepting state.
    pub proof fn lemma_subset_construction_equivalent(&self, nfa: &NFA, s: Seq<u8>)
        requires
            nfa.wf(),
            self.simulates(nfa),
        ensures
            self.label_of(s) == nfa.label_of(s),
            self.accepts_spec(s) == nfa.accepts(s),
    {
        let sets = choose|sets: Seq<Set<State>>| self.is_subset_construction(nfa, sets);
        self.lemma_run_tracks_reach(nfa, sets, s);
        nfa.lemma_accepts_iff_label(s);
        match self.run(s) {
            Some(q) => {},
            None => {
                assert(!(exists|m: State| nfa.is_first_accepting(nfa.reach(s), m)));
            },
        }
    }
}


/// What `max_munch` found.
pub enum LongestMatch {
    /// The longest match ends just before position `end`, with this label.
    Match { end: usize, label: AcceptedStateLabel },
    /// No prefix matches; the DFA died at `dead`: the prefix up to `dead` can begin no token.
    NoMatch { dead: usize },
}

impl DFA {
    /// The symbols `syms[i..j]` form a non-empty match.
    pub open spec fn is_match(&self, syms: Seq<u8>, i: int, j: int) -> bool {
        0 <= i < j <= syms.len() && self.accepts_spec(syms.subrange(i, j))
    }

    /// `syms[i..j]` is the longest match that starts at `i`.
    pub open spec fn is_longest_match(&self, syms: Seq<u8>, i: int, j: int) -> bool {
        &&& self.is_match(syms, i, j)
        &&& forall|k: int| j < k <= syms.len() ==> !#[trigger] self.is_match(syms, i, k)
    }

    /// The end of the longest match that starts at `i`, if any prefix matches.
    pub open spec fn longest_match(&self, syms: Seq<u8>, i: int) -> Option<int> {
        if exists|j: int| self.is_longest_match(syms, i, j) {
            Some(choose|j: int| self.is_longest_match(syms, i, j))
        } else {
            None
        }
    }

    /// Reading `syms[i..k]` leads to the dead state, and `k` is the first such end.
    pub open spec fn is_dead_point(&self, syms: Seq<u8>, i: int, k: int) -> bool {
        &&& i < k <= syms.len()
        &&& self.run(syms.subrange(i, k)) is None
        &&& forall|m: int| i < m < k ==> #[trigger] self.run(syms.subrange(i, m)) is Some
    }

    /// Where the DFA dies when it reads from `i`; the end of the input when it never does.
    pub open spec fn dead_point(&self, syms: Seq<u8>, i: int) -> int {
        if exists|k: int| self.is_dead_point(syms, i, k) {
            choose|k: int| self.is_dead_point(syms, i, k)
        } else {
            syms.len() as int
        }
    }

    /// Once dead, always dead.
    pub proof fn lemma_dead_stays_dead(&self, syms: Seq<u8>, i: int, k: int, m: int)
        requires
            0 <= i <= k <= m <= syms.len(),
            self.run(syms.subrange(i, k)) is None,
        ensures
            self.run(syms.subrange(i, m)) is None,
        decreases m - k,
    {
        if m > k {
            self.lemma_dead_stays_dead(syms, i, k, m - 1);
            assert(syms.subrange(i, m).drop_last() =~= syms.subrange(i, m - 1));
        }
    }

    /// Reading one more symbol takes one more step.
    pub proof fn lemma_run_step(&self, syms: Seq<u8>, i: int, k: int)
        requires
            0 <= i <= k < syms.len(),
        ensures
            self.run(syms.subrange(i, k + 1)) == match self.run(syms.subrange(i, k)) {
                Some(p) => self.next(p, syms[k]),
                None => None,
            },
    {
        assert(syms.subrange(i, k + 1).drop_last() =~= syms.subrange(i, k));
    }

    /// Does this DFA accept this string of symbols?
    pub fn accepts(&self, symbols: &Vec<Symbol>) -> (r: bool)
        requires
            self.wf(),
        ensures
            r == self.accepts_spec(symbols@.map_values(|s: Symbol| s.0)),
    {
        let ghost syms = symbols@.map_values(|s: Symbol| s.0);
        let mut state: usize = self.init;
        let mut i: usize = 0;
        while i < symbols.len()
            invariant
                self.wf(),
                syms == symbols@.map_values(|s: Symbol| s.0),
                i <= symbols@.len(),
                state < self.accepted@.len(),
                self.run(syms.subrange(0, i as int)) == Some(state as nat),
            decreases symbols@.len() - i,
        {
            let a = symbols[i].0;
            proof {
                self.lemma_run_step(syms, 0, i as int);
            }
            if a >= 128 {
                proof {
                    self.lemma_dead_stays_dead(syms, 0, i + 1, syms.len() as int);
                    assert(syms.subrange(0, syms.len() as int) =~= syms);
                }
                return false;
            }
            match self.delta[state][a as usize] {
                None => {
                    proof {
                        self.lemma_dead_stays_dead(syms, 0, i + 1, syms.len() as int);
                        assert(syms.subrange(0, syms.len() as int) =~= syms);
                    }
                    return false;
                },
                Some(next) => {
                    state = next;
                },
            }
            i += 1;
        }
        proof {
            assert(syms.subrange(0, i as int) =~= syms);
        }
        self.accepted[state].is_some()
    }

    /// The longest prefix of `positions[start..]` that the DFA accepts.
    ///
    /// Empty matches are not supported: the initial state must not accept.
    pub fn max_munch<'a>(&self, positions: &Vec<Position<'a>>, start: usize) -> (r: LongestMatch)
        requires
            self.wf(),
            self.label(self.init as nat) is None,
            start < positions@.len(),
            forall|i: int| 0 <= i < positions@.len() ==> (#[trigger] positions@[i]).valid(),
        ensures
            ({
                let syms = symbols(positions@);
                match r {
                    LongestMatch::Match { end, label } => {
                        &&& self.is_longest_match(syms, start as int, end as int)
                        &&& self.label_of(syms.subrange(start as int, end as int)) == Some(label)
                    },
                    LongestMatch::NoMatch { dead } => {
                        &&& forall|j: int| !#[trigger] self.is_match(syms, start as int, j)
                        &&& dead == self.dead_point(syms, start as int)
                    },
                }
            }),
    {
        let ghost syms = symbols(positions@);
        let n = positions.len();
        let mut state: usize = self.init;
        let mut last: Option<(usize, usize)> = None;
        let mut k: usize = start;
        let mut alive = true;
        proof {
            assert(syms.subrange(start as int, start as int) =~= Seq::<u8>::empty());
        }
        while alive && k < n
            invariant
                self.wf(),
                syms == symbols(positions@),
                n == positions@.len() == syms.len(),
                forall|i: int| 0 <= i < positions@.len() ==> (#[trigger] positions@[i]).valid(),
                start <= k <= n,
                state < self.accepted@.len(),
                alive ==> self.run(syms.subrange(start as int, k as int)) == Some(state as nat),
                !alive ==> k > start && self.is_dead_point(syms, start as int, k as int),
                alive ==> forall|m: int| start < m <= k ==> #[trigger] self.run(syms.subrange(start as int, m)) is Some,
                match last {
                    Some((e, q)) => {
                        &&& start < e <= k
                        &&& self.is_match(syms, start as int, e as int)
                        &&& q < self.accepted@.len()
                        &&& self.label_of(syms.subrange(start as int, e as int)) == self.accepted@[q as int]
                        &&& forall|m: int| e < m <= k ==> !#[trigger] self.is_match(syms, start as int, m)
                    },
                    None => forall|m: int| start < m <= k ==> !#[trigger] self.is_match(syms, start as int, m),
                },
            decreases n - k,
        {
            let sym = match positions[k].symbol() {
                Ok(s) => s,
                Err(_) => {
                    proof {
                        let p = positions@[k as int];
                        assert(p.valid());
                        if p.col < p.line@.len() {
                            assert('\0' <= p.line@[p.col as int] <= '\u{7f}');
                        }
                    }
                    Symbol(10)
                },
            };
            proof {
                assert(syms[k as int] == sym.0);
                self.lemma_run_step(syms, start as int, k as int);
                assert(self.delta@[state as int]@.len() == 128);
            }
            match self.delta[state][sym.0 as usize] {
                None => {
                    alive = false;
                    k += 1;
                    proof {
                        assert(!self.is_match(syms, start as int, k as int));
                    }
                },
                Some(next) => {
                    state = next;
                    k += 1;
                    if self.accepted[state].is_some() {
                        last = Some((k, state));
                    }
                },
            }
        }
        proof {
            // Past the point where the DFA died, nothing matches.
            if !alive {
                assert forall|m: int| k < m <= n implies !#[trigger] self.is_match(syms, start as int, m) by {
                    self.lemma_dead_stays_dead(syms, start as int, k as int, m);
                }
            }
        }
        match last {
            Some((e, q)) => {
                let label = match &self.accepted[q] {
                    Some(l) => l.copy(),
                    None => {
                        proof {
                            assert(false);
                        }
                        AcceptedStateLabel::Whitespace
                    },
                };
                LongestMatch::Match { end: e, label }
            },
            None => {
                proof {
                    assert forall|j: int| !#[trigger] self.is_match(syms, start as int, j) by {
                        if start < j <= k {
                        } else if j > k && j <= n {
                        } else if j == start as int {
                        }
                    }
                    if alive {
                        if exists|d: int| self.is_dead_point(syms, start as int, d) {
                            let d = choose|d: int| self.is_dead_point(syms, start as int, d);
                            assert(self.run(syms.subrange(start as int, d)) is Some);
                        }
                    } else {
                        let d = choose|d: int| self.is_dead_point(syms, start as int, d);
                        if d < k {
                        } else if d > k {
                            assert(self.run(syms.subrange(start as int, k as int)) is Some);
                        }
                    }
                }
                LongestMatch::NoMatch { dead: k }
            },
        }
    }
}


pub open spec fn is_digit(c: char) -> bool {
    '0' <= c && c <= '9'
}

/// The value of a string of decimal digits.
pub open spec fn decimal_value(s: Seq<char>) -> nat
    decreases s.len(),
{
    if s.len() == 0 {
        0
    } else {
        decimal_value(s.drop_last()) * 10 + (s.last() as nat - '0' as nat) as nat
    }
}

/// `s` is a decimal integer literal of at most `2^31`.
pub open spec fn is_int_literal(s: Seq<char>) -> bool {
    &&& s.len() > 0
    &&& forall|i: int| 0 <= i < s.len() ==> is_digit(#[trigger] s[i])
    &&& decimal_value(s) <= 0x8000_0000
}

/// The text between the quotes of a literal.
pub open spec fn strip_quotes(s: Seq<char>) -> Seq<char> {
    if s.len() >= 2 {
        s.subrange(1, s.len() - 1)
    } else {
        Seq::empty()
    }
}

/// `start` and `end` lie on one line, `end` not before `start` and not on the newline.
pub open spec fn on_one_line<'a>(start: Position<'a>, end: Position<'a>) -> bool {
    &&& end.line_num == start.line_num
    &&& start.col <= end.col
    &&& end.col < start.line@.len()
}

/// The text from `start` to `end`, both included.
pub open spec fn lexeme_of<'a>(start: Position<'a>, end: Position<'a>) -> Seq<char> {
    start.line@.subrange(start.col as int, end.col + 1)
}

/// Why a token of class `type_` from `start` to `end` (included) cannot be resolved, if it
/// cannot: it spans lines, its integer is out of range, its escapes are malformed, or its char
/// literal does not hold exactly one character.
pub open spec fn token_error<'a>(type_: Token<'static>, start: Position<'a>, end: Position<'a>) -> Option<
    TokenErrorType<'a>,
> {
    if !on_one_line(start, end) {
        Some(TokenErrorType::NotAToken { end })
    } else {
        let lex = lexeme_of(start, end);
        match type_ {
            Token::Literal(Literal::Int(_)) => if is_int_literal(lex) {
                None
            } else {
                Some(TokenErrorType::IntTooLarge)
            },
            Token::Literal(Literal::Char(_)) => match unescape(strip_quotes(lex)) {
                None => Some(TokenErrorType::InvalidEscape),
                Some(t) => if t.len() == 1 {
                    None
                } else {
                    Some(TokenErrorType::BadCharLit)
                },
            },
            Token::Literal(Literal::StringLit(_)) => match unescape(strip_quotes(lex)) {
                None => Some(TokenErrorType::InvalidEscape),
                Some(_) => None,
            },
            _ => None,
        }
    }
}

/// `t` is the token of class `type_` from `start` to `end` (included), its value taken from the
/// matched text: an identifier's name, an integer's value, a literal's text with escapes
/// resolved.
pub open spec fn token_resolves_to<'a>(
    type_: Token<'static>,
    start: Position<'a>,
    end: Position<'a>,
    t: TokenInfo<'a>,
) -> bool {
    let lex = lexeme_of(start, end);
    &&& t.start == start
    &&& t.lexeme@ == lex
    &&& match type_ {
        Token::Identifier(_) => match t.val {
            Token::Identifier(s) => s@ == lex,
            _ => false,
        },
        Token::Literal(Literal::Int(_)) => t.val == Token::Literal(Literal::Int(decimal_value(lex) as u32)),
        Token::Literal(Literal::Char(_)) => t.val == Token::Literal(Literal::Char(unescape(strip_quotes(lex))->0[0])),
        Token::Literal(Literal::StringLit(_)) => match t.val {
            Token::Literal(Literal::StringLit(s)) => Some(s@) == unescape(strip_quotes(lex)),
            _ => false,
        },
        _ => t.val == type_,
    }
}

proof fn lemma_decimal_value_grows(s: Seq<char>, k: int)
    requires
        0 <= k <= s.len(),
        forall|i: int| 0 <= i < s.len() ==> is_digit(#[trigger] s[i]),
    ensures
        decimal_value(s.subrange(0, k)) <= decimal_value(s),
    decreases s.len() - k,
{
    if k < s.len() {
        lemma_decimal_value_grows(s, k + 1);
        assert(s.subrange(0, k + 1).drop_last() =~= s.subrange(0, k));
    } else {
        assert(s.subrange(0, k) =~= s);
    }
}

/// The value of a decimal integer literal, if it is one of at most `2^31`.
fn parse_int(lexeme: &str) -> (r: Option<u32>)
    requires
        lexeme.is_ascii(),
    ensures
        match r {
            Some(v) => is_int_literal(lexeme@) && v == decimal_value(lexeme@),
            None => !is_int_literal(lexeme@),
        },
{
    let n = lexeme.unicode_len();
    if n == 0 {
        return None;
    }
    let mut value: u64 = 0;
    let mut i: usize = 0;
    while i < n
        invariant
            lexeme.is_ascii(),
            n == lexeme@.len(),
            i <= n,
            forall|j: int| 0 <= j < i ==> is_digit(#[trigger] lexeme@[j]),
            value == decimal_value(lexeme@.subrange(0, i as int)),
            value <= 0x8000_0000,
        decreases n - i,
    {
        let c = lexeme.get_ascii(i) as char;
        proof {
            assert(c == lexeme@[i as int]);
            assert(lexeme@.subrange(0, i + 1).drop_last() =~= lexeme@.subrange(0, i as int));
        }
        if !('0' <= c && c <= '9') {
            return None;
        }
        value = value * 10 + (c as u64 - '0' as u64);
        i += 1;
        if value > 0x8000_0000 {
            proof {
                if forall|j: int| 0 <= j < n ==> is_digit(#[trigger] lexeme@[j]) {
                    lemma_decimal_value_grows(lexeme@, i as int);
                }
            }
            return None;
        }
    }
    proof {
        assert(lexeme@.subrange(0, n as int) =~= lexeme@);
    }
    Some(value as u32)
}

/// The character of a char literal, quotes included in `lexeme`.
fn make_char_literal<'a>(lexeme: &str) -> (r: Result<Literal, TokenErrorType<'a>>)
    requires
        lexeme.is_ascii(),
    ensures
        match unescape(strip_quotes(lexeme@)) {
            None => r == Err::<Literal, TokenErrorType<'a>>(TokenErrorType::InvalidEscape),
            Some(t) => if t.len() == 1 {
                r == Ok::<Literal, TokenErrorType<'a>>(Literal::Char(t[0]))
            } else {
                r == Err::<Literal, TokenErrorType<'a>>(TokenErrorType::BadCharLit)
            },
        },
{
    let inner = strip_quotes_exec(lexeme);
    match resolve_escape_seqs(inner) {
        None => Err(TokenErrorType::InvalidEscape),
        Some(s) => {
            let s = s.as_str();
            if s.unicode_len() != 1 {
                Err(TokenErrorType::BadCharLit)
            } else {
                Ok(Literal::Char(s.get_char(0)))
            }
        },
    }
}

/// The text between the quotes of a literal.
fn strip_quotes_exec(lexeme: &str) -> (r: &str)
    requires
        lexeme.is_ascii(),
    ensures
        r@ == strip_quotes(lexeme@),
        r.is_ascii(),
{
    let n = lexeme.unicode_len();
    if n >= 2 {
        lexeme.substring_ascii(1, n - 1)
    } else {
        lexeme.substring_ascii(0, 0)
    }
}

/// Build the token of class `type_` that runs from `start` to `end` (both included), filling in
/// its value from the matched text.
fn token_info<'a>(type_: &Token<'static>, start: Position<'a>, end: Position<'a>) -> (r: Result<
    TokenInfo<'a>,
    TokenError<'a>,
>)
    requires
        start.valid(),
        end.valid(),
    ensures
        match token_error(*type_, start, end) {
            Some(e) => r == Err::<TokenInfo<'a>, TokenError<'a>>(TokenError { start, type_: e }),
            None => r is Ok && token_resolves_to(*type_, start, end, r->Ok_0),
        },
{
    if !(end.line_num == start.line_num && start.col <= end.col && end.col < start.line.unicode_len()) {
        return Err(TokenError { start, type_: TokenErrorType::NotAToken { end } });
    }
    let lexeme = start.line.substring_ascii(start.col, end.col + 1);
    let val = match type_ {
        Token::Identifier(_) => Token::Identifier(lexeme),
        Token::Literal(Literal::Int(_)) => match parse_int(lexeme) {
            Some(n) => Token::Literal(Literal::Int(n)),
            None => {
                return Err(TokenError { start, type_: TokenErrorType::IntTooLarge });
            },
        },
        Token::Literal(Literal::Char(_)) => match make_char_literal(lexeme) {
            Ok(c) => Token::Literal(c),
            Err(e) => {
                return Err(TokenError { start, type_: e });
            },
        },
        Token::Literal(Literal::StringLit(_)) => match resolve_escape_seqs(strip_quotes_exec(lexeme)) {
            Some(s) => Token::Literal(Literal::StringLit(s)),
            None => {
                return Err(TokenError { start, type_: TokenErrorType::InvalidEscape });
            },
        },
        t => t.copy(),
    };
    Ok(TokenInfo { val, start, lexeme })
}


/// `ps[i..]` begins with `/*`.
pub open spec fn starts_star_comment<'a>(ps: Seq<Position<'a>>, i: int) -> bool {
    &&& 0 <= i
    &&& i + 1 < ps.len()
    &&& ps[i].spec_symbol() == 47
    &&& ps[i + 1].spec_symbol() == 42
}

/// The error when no prefix of `ps[i..]` matches. A quote that nothing matches opens a literal
/// that the line does not close; `/*` opens a comment that the input does not close; anything
/// else is not a token, up to where the DFA died.
pub open spec fn no_match_error<'a>(ps: Seq<Position<'a>>, i: int, dead: int) -> TokenError<'a> {
    let sym = ps[i].spec_symbol();
    TokenError {
        start: ps[i],
        type_: if sym == 34 {
            TokenErrorType::UnclosedStringLit
        } else if sym == 39 {
            TokenErrorType::UnclosedCharLit
        } else if starts_star_comment(ps, i) {
            TokenErrorType::UnclosedComment
        } else {
            TokenErrorType::NotAToken { end: ps[if dead < ps.len() { dead } else { ps.len() - 1 }] }
        },
    }
}

/// `el` followed by what `r` holds.
pub open spec fn cons_result<'a>(el: TokenOrComment<'a>, r: Result<Seq<TokenOrComment<'a>>, TokenError<'a>>) -> Result<
    Seq<TokenOrComment<'a>>,
    TokenError<'a>,
> {
    match r {
        Ok(v) => Ok(seq![el] + v),
        Err(e) => Err(e),
    }
}

/// What `out` followed by what `r` holds.
pub open spec fn join_result<'a>(out: Seq<TokenOrComment<'a>>, r: Result<Seq<TokenOrComment<'a>>, TokenError<'a>>) -> Result<
    Seq<TokenOrComment<'a>>,
    TokenError<'a>,
> {
    match r {
        Ok(v) => Ok(out + v),
        Err(e) => Err(e),
    }
}

impl DFA {
    /// Max munch from position `i` on gives `r`: the longest match is taken again and again,
    /// whitespace is dropped, comments and tokens are kept, and the first failure ends the scan.
    /// A match that starts with `/*` but is no star comment means the comment is never closed.
    pub open spec fn scans_to<'a>(&self, ps: Seq<Position<'a>>, i: int, r: Result<Seq<TokenOrComment<'a>>, TokenError<'a>>) -> bool
        decreases ps.len() - i,
    {
        if i < 0 || i >= ps.len() {
            r == Ok::<Seq<TokenOrComment<'a>>, TokenError<'a>>(Seq::empty())
        } else {
            let syms = symbols(ps);
            match self.longest_match(syms, i) {
                None => r == Err::<Seq<TokenOrComment<'a>>, TokenError<'a>>(no_match_error(ps, i, self.dead_point(syms, i))),
                Some(j) => if j <= i {
                    false
                } else {
                    let label = self.label_of(syms.subrange(i, j))->0;
                    if starts_star_comment(ps, i) && !(label is StarComment || label is JavadocComment) {
                        r == Err::<Seq<TokenOrComment<'a>>, TokenError<'a>>(TokenError { start: ps[i], type_: TokenErrorType::UnclosedComment })
                    } else {
                        match label {
                            AcceptedStateLabel::Whitespace => self.scans_to(ps, j, r),
                            AcceptedStateLabel::LineComment => match r {
                                Ok(v) => v.len() > 0 && v[0] == TokenOrComment::LineComment { start: ps[i] }
                                    && self.scans_to(ps, j, Ok(v.drop_first())),
                                Err(e) => self.scans_to(ps, j, Err(e)),
                            },
                            AcceptedStateLabel::StarComment | AcceptedStateLabel::JavadocComment => match r {
                                Ok(v) => v.len() > 0 && v[0] == TokenOrComment::StarComment { start: ps[i], end_inclusive: ps[j - 1] }
                                    && self.scans_to(ps, j, Ok(v.drop_first())),
                                Err(e) => self.scans_to(ps, j, Err(e)),
                            },
                            AcceptedStateLabel::TokenType { type_ } => match token_error(type_, ps[i], ps[j - 1]) {
                                Some(e) => r == Err::<Seq<TokenOrComment<'a>>, TokenError<'a>>(TokenError { start: ps[i], type_: e }),
                                None => match r {
                                    Ok(v) => v.len() > 0 && v[0] is Token && token_resolves_to(type_, ps[i], ps[j - 1], v[0]->Token_0)
                                        && self.scans_to(ps, j, Ok(v.drop_first())),
                                    Err(e) => self.scans_to(ps, j, Err(e)),
                                },
                            },
                        }
                    }
                },
            }
        }
    }

    /// The longest match is unique.
    pub proof fn lemma_longest_match_is(&self, syms: Seq<u8>, i: int, j: int)
        requires
            self.is_longest_match(syms, i, j),
        ensures
            self.longest_match(syms, i) == Some(j),
    {
        let k = choose|k: int| self.is_longest_match(syms, i, k);
        if k < j {
            assert(!self.is_match(syms, i, j));
        } else if k > j {
            assert(!self.is_match(syms, i, k));
        }
    }

    /// Run max munch over all of `positions`: whitespace is dropped, comments and tokens kept.
    /// Scanning stops at the first error.
    pub fn tokenize<'a>(&self, positions: &Vec<Position<'a>>) -> (r: Result<Vec<TokenOrComment<'a>>, TokenError<'a>>)
        requires
            self.wf(),
            self.label(self.init as nat) is None,
            forall|i: int| 0 <= i < positions@.len() ==> (#[trigger] positions@[i]).valid(),
        ensures
            match r {
                Ok(v) => self.scans_to(positions@, 0, Ok(v@)),
                Err(e) => self.scans_to(positions@, 0, Err(e)),
            },
    {
        let ghost ps = positions@;
        let ghost syms = symbols(ps);
        let n = positions.len();
        let mut out: Vec<TokenOrComment<'a>> = Vec::new();
        let mut i: usize = 0;
        proof {
            assert forall|r| #[trigger] self.scans_to(ps, 0, r) implies self.scans_to(ps, 0, join_result(Seq::empty(), r)) by {
                match r {
                    Ok(v) => {
                        assert(Seq::<TokenOrComment<'a>>::empty() + v =~= v);
                    },
                    Err(_) => {},
                }
            }
        }
        while i < n
            invariant
                self.wf(),
                self.label(self.init as nat) is None,
                ps == positions@,
                syms == symbols(ps),
                n == ps.len(),
                forall|k: int| 0 <= k < positions@.len() ==> (#[trigger] positions@[k]).valid(),
                i <= n,
                forall|r| #[trigger] self.scans_to(ps, i as int, r) ==> self.scans_to(ps, 0, join_result(out@, r)),
            decreases n - i,
        {
            let m = self.max_munch(positions, i);
            match m {
                LongestMatch::NoMatch { dead } => {
                    let p = positions[i];
                    let sym = p.symbol();
                    let b: u8 = match sym {
                        Ok(s) => s.0,
                        Err(_) => 0,
                    };
                    let type_ = if b == 34 {
                        TokenErrorType::UnclosedStringLit
                    } else if b == 39 {
                        TokenErrorType::UnclosedCharLit
                    } else if self.starts_star_comment_at(positions, i) {
                        TokenErrorType::UnclosedComment
                    } else {
                        let e = if dead < n { dead } else { n - 1 };
                        TokenErrorType::NotAToken { end: positions[e] }
                    };
                    let err = TokenError { start: p, type_ };
                    proof {
                        assert(!(exists|j: int| self.is_longest_match(syms, i as int, j)));
                        assert(self.scans_to(ps, i as int, Err(err)));
                        assert(join_result(out@, Err::<Seq<TokenOrComment<'a>>, TokenError<'a>>(err)) == Err::<Seq<TokenOrComment<'a>>, TokenError<'a>>(err));
                    }
                    return Err(err);
                },
                LongestMatch::Match { end, label } => {
                    proof {
                        self.lemma_longest_match_is(syms, i as int, end as int);
                    }
                    let star = match &label {
                        AcceptedStateLabel::StarComment => true,
                        AcceptedStateLabel::JavadocComment => true,
                        _ => false,
                    };
                    if self.starts_star_comment_at(positions, i) && !star {
                        let err = TokenError { start: positions[i], type_: TokenErrorType::UnclosedComment };
                        proof {
                            assert(self.scans_to(ps, i as int, Err(err)));
                        }
                        return Err(err);
                    }
                    let ghost old_out = out@;
                    match label {
                        AcceptedStateLabel::Whitespace => {
                            proof {
                                assert forall|r| #[trigger] self.scans_to(ps, end as int, r) implies self.scans_to(ps, 0, join_result(out@, r)) by {
                                    assert(self.scans_to(ps, i as int, r));
                                }
                            }
                        },
                        AcceptedStateLabel::LineComment => {
                            let el = TokenOrComment::LineComment { start: positions[i] };
                            out.push(el);
                            proof {
                                assert(self.longest_match(syms, i as int) == Some(end as int));
                                assert(self.label_of(syms.subrange(i as int, end as int)) == Some(AcceptedStateLabel::LineComment));
                                assert(!starts_star_comment(ps, i as int));
                                assert forall|r| #[trigger] self.scans_to(ps, end as int, r) implies self.scans_to(ps, 0, join_result(out@, r)) by {
                                    lemma_cons_drop(el, r);
                                    assert(self.scans_to(ps, i as int, cons_result(el, r)));
                                    lemma_join_cons(old_out, el, r);
                                }
                            }
                        },
                        AcceptedStateLabel::StarComment | AcceptedStateLabel::JavadocComment => {
                            let el = TokenOrComment::StarComment { start: positions[i], end_inclusive: positions[end - 1] };
                            out.push(el);
                            proof {
                                assert forall|r| #[trigger] self.scans_to(ps, end as int, r) implies self.scans_to(ps, 0, join_result(out@, r)) by {
                                    lemma_cons_drop(el, r);
                                    assert(self.scans_to(ps, i as int, cons_result(el, r)));
                                    lemma_join_cons(old_out, el, r);
                                }
                            }
                        },
                        AcceptedStateLabel::TokenType { type_ } => {
                            match token_info(&type_, positions[i], positions[end - 1]) {
                                Err(e) => {
                                    proof {
                                        assert(self.scans_to(ps, i as int, Err(e)));
                                    }
                                    return Err(e);
                                },
                                Ok(t) => {
                                    let el = TokenOrComment::Token(t);
                                    out.push(el);
                                    proof {
                                        assert forall|r| #[trigger] self.scans_to(ps, end as int, r) implies self.scans_to(ps, 0, join_result(out@, r)) by {
                                            lemma_cons_drop(el, r);
                                            assert(self.scans_to(ps, i as int, cons_result(el, r)));
                                            lemma_join_cons(old_out, el, r);
                                        }
                                    }
                                },
                            }
                        },
                    }
                    i = end;
                },
            }
        }
        proof {
            assert(self.scans_to(ps, i as int, Ok(Seq::empty())));
            assert(out@ + Seq::<TokenOrComment<'a>>::empty() =~= out@);
        }
        Ok(out)
    }

    /// Do the positions at `i` and after begin with `/*`?
    fn starts_star_comment_at<'a>(&self, positions: &Vec<Position<'a>>, i: usize) -> (r: bool)
        requires
            i < positions@.len(),
            forall|k: int| 0 <= k < positions@.len() ==> (#[trigger] positions@[k]).valid(),
        ensures
            r == starts_star_comment(positions@, i as int),
    {
        if positions.len() - i < 2 {
            return false;
        }
        let a = positions[i].symbol();
        let b = positions[i + 1].symbol();
        match (a, b) {
            (Ok(x), Ok(y)) => x.0 == 47 && y.0 == 42,
            _ => false,
        }
    }
}

proof fn lemma_cons_drop<'a>(el: TokenOrComment<'a>, r: Result<Seq<TokenOrComment<'a>>, TokenError<'a>>)
    ensures
        match cons_result(el, r) {
            Ok(v) => v.len() > 0 && v[0] == el && r == Ok::<Seq<TokenOrComment<'a>>, TokenError<'a>>(v.drop_first()),
            Err(e) => r == Err::<Seq<TokenOrComment<'a>>, TokenError<'a>>(e),
        },
{
    match r {
        Ok(v) => {
            assert((seq![el] + v).drop_first() =~= v);
        },
        Err(_) => {},
    }
}

proof fn lemma_join_cons<'a>(out: Seq<TokenOrComment<'a>>, el: TokenOrComment<'a>, r: Result<Seq<TokenOrComment<'a>>, TokenError<'a>>)
    ensures
        join_result(out.push(el), r) == join_result(out, cons_result(el, r)),
{
    match r {
        Ok(v) => {
            assert(out.push(el) + v =~= out + (seq![el] + v));
        },
        Err(_) => {},
    }
}

} // verus!
