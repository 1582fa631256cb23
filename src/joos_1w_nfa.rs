//! The NFA for the lexical grammar of Joos 1W.
//!
//! Each token class gets a small hand-built automaton, linked from the initial state by an
//! epsilon edge. States are numbered in the order they are made, and ties between token
//! classes go to the smaller accepting state: the order of registration below is the priority.

use vstd::prelude::*;
use vstd::string::StringExecFns;
use crate::nfa::NFA;
use crate::states::{AcceptedStateLabel, State, Symbol};
use crate::token_types::{
    all_keywords, all_operators, all_separators, keyword_seq, operator_seq, separator_seq, Keyword, Literal, Operator,
    Separator,
};
use crate::tokens::Token;

verus! {

/// No grammar here needs this many states; it keeps state ids far from overflow.
pub const STATE_LIMIT: u32 = 0x10000;

/// A letter of a Java identifier: an ASCII letter, `_` or `$`.
pub open spec fn is_letter(b: u8) -> bool {
    (65 <= b <= 90) || (97 <= b <= 122) || b == 95 || b == 36
}

/// Whitespace as Java defines it: space, tab, form feed and newline.
pub open spec fn is_whitespace(b: u8) -> bool {
    b == 32 || b == 9 || b == 12 || b == 10
}

/// What is known of the inputs that lead to a state of the grammar's NFA.
pub enum Role {
    /// Only the empty input: the initial state, and where a comment or whitespace begins.
    Empty,
    /// The first `n` symbols of the word `w`: a state of the chain that spells `w`.
    Chain(Seq<u8>, nat),
    /// `/*` and then anything: inside a star comment.
    StarOpen,
    /// `/*`, anything, and a `*`: inside a star comment, just after a star.
    StarOpenStar,
    /// A whole star comment: `/*`, anything, and `*/`.
    StarEnd,
    /// Inputs that begin with the quote `q`: inside a string or char literal.
    Quoted(u8),
    /// A whole literal between two quotes `q`.
    QuotedEnd(u8),
    /// Just `/`.
    OneSlash,
    /// `//` and then anything but newlines: the body of a line comment.
    LineBody,
    /// A whole line comment: `//`, anything but newlines, and a newline.
    LineEnd,
    /// Non-empty runs of whitespace.
    WsRun,
    /// Just `0`.
    Zero,
    /// Decimal digits that do not start with `0`.
    NonZero,
    /// A letter, then letters and digits: an identifier.
    Ident,
    /// Nothing is known.
    Any,
}

/// `s` is `//` followed by anything but newlines.
pub open spec fn is_line_body(s: Seq<u8>) -> bool {
    &&& s.len() >= 2
    &&& s[0] == 47
    &&& s[1] == 47
    &&& forall|i: int| 0 <= i < s.len() ==> #[trigger] s[i] != 10
}

/// `s` is a whole star comment: `/*`, anything, and `*/`, the two not overlapping.
pub open spec fn is_star_text(s: Seq<u8>) -> bool {
    &&& s.len() >= 4
    &&& s[0] == 47
    &&& s[1] == 42
    &&& s[s.len() - 2] == 42
    &&& s[s.len() - 1] == 47
}

/// `s` begins and ends with the quote `q`, and holds more than that one quote.
pub open spec fn quoted_by(s: Seq<u8>, q: u8) -> bool {
    s.len() >= 2 && s[0] == q && s[s.len() - 1] == q
}

/// `s` is an identifier: a letter, then letters and digits.
pub open spec fn is_identifier_text(s: Seq<u8>) -> bool {
    &&& s.len() >= 1
    &&& is_letter(s[0])
    &&& forall|i: int| 0 <= i < s.len() ==> is_letter(#[trigger] s[i]) || 48 <= s[i] <= 57
}

/// `s` is decimal digits that do not start with `0`.
pub open spec fn is_canonical_nonzero(s: Seq<u8>) -> bool {
    &&& s.len() >= 1
    &&& 49 <= s[0] <= 57
    &&& forall|i: int| 0 <= i < s.len() ==> 48 <= #[trigger] s[i] <= 57
}

/// The inputs that `r` allows.
pub open spec fn role_lang(r: Role, s: Seq<u8>) -> bool {
    match r {
        Role::Empty => s.len() == 0,
        Role::Chain(w, n) => n <= w.len() && s == w.subrange(0, n as int),
        Role::StarOpen => s.len() >= 2 && s[0] == 47 && s[1] == 42,
        Role::StarOpenStar => s.len() >= 3 && s[0] == 47 && s[1] == 42 && s.last() == 42,
        Role::StarEnd => is_star_text(s),
        Role::Quoted(q) => s.len() >= 1 && s[0] == q,
        Role::QuotedEnd(q) => quoted_by(s, q),
        Role::OneSlash => s == seq![47u8],
        Role::LineBody => is_line_body(s),
        Role::LineEnd => s.len() >= 1 && s.last() == 10 && is_line_body(s.drop_last()),
        Role::WsRun => s.len() >= 1 && forall|i: int| 0 <= i < s.len() ==> is_whitespace(#[trigger] s[i]),
        Role::Zero => s == seq![48u8],
        Role::NonZero => is_canonical_nonzero(s),
        Role::Ident => is_identifier_text(s),
        Role::Any => true,
    }
}

/// `r` allows the empty input: an epsilon edge from the initial state may lead to it.
pub open spec fn starts_empty(r: Role) -> bool {
    match r {
        Role::Empty => true,
        Role::Chain(_, n) => n == 0,
        Role::Any => true,
        _ => false,
    }
}

/// An edge on `a` from a state with role `r1` to one with role `r2` keeps what the roles say.
pub open spec fn step_ok(r1: Role, a: u8, r2: Role) -> bool {
    match r2 {
        Role::Any => true,
        Role::Chain(w, n) => 1 <= n <= w.len() && r1 == Role::Chain(w, (n - 1) as nat) && a == w[n - 1],
        Role::StarOpen => (r1 == Role::OneSlash && a == 42) || r1 == Role::StarOpen || (r1 == Role::StarOpenStar && a != 42),
        Role::StarOpenStar => (r1 == Role::StarOpen || r1 == Role::StarOpenStar) && a == 42,
        Role::StarEnd => r1 == Role::StarOpenStar && a == 47,
        Role::Quoted(q) => (r1 == Role::Empty && a == q) || r1 == Role::Quoted(q),
        Role::QuotedEnd(q) => r1 == Role::Quoted(q) && a == q,
        Role::OneSlash => r1 == Role::Empty && a == 47,
        Role::LineBody => (r1 == Role::OneSlash && a == 47) || (r1 == Role::LineBody && a != 10),
        Role::LineEnd => r1 == Role::LineBody && a == 10,
        Role::WsRun => (r1 == Role::Empty || r1 == Role::WsRun) && is_whitespace(a),
        Role::Zero => r1 == Role::Empty && a == 48,
        Role::NonZero => (r1 == Role::Empty && 49 <= a <= 57) || (r1 == Role::NonZero && 48 <= a <= 57),
        Role::Ident => (r1 == Role::Empty && is_letter(a)) || (r1 == Role::Ident && (is_letter(a) || 48 <= a <= 57)),
        Role::Empty => false,
    }
}

/// The bytes of ASCII text.
pub open spec fn ascii_bytes(s: Seq<char>) -> Seq<u8> {
    s.map_values(|c: char| c as u8)
}

/// The one text that a token of class `t` always has, if there is one.
pub open spec fn word_of(t: Token<'static>) -> Option<Seq<u8>> {
    match t {
        Token::Keyword(k) => Some(ascii_bytes(k.spelling())),
        Token::Separator(x) => Some(ascii_bytes(x.spelling())),
        Token::Operator(x) => Some(ascii_bytes(x.spelling())),
        Token::Literal(Literal::Bool(true)) => Some(ascii_bytes("true"@)),
        Token::Literal(Literal::Bool(false)) => Some(ascii_bytes("false"@)),
        Token::Literal(Literal::Null) => Some(ascii_bytes("null"@)),
        _ => None,
    }
}

/// A state with role `r` may accept with `l`.
pub open spec fn accept_ok(r: Role, l: AcceptedStateLabel) -> bool {
    match r {
        Role::Empty => false,
        Role::Chain(w, n) => n == w.len() && match l {
            AcceptedStateLabel::TokenType { type_ } => word_of(type_) == Some(w),
            _ => false,
        },
        Role::StarEnd => l is StarComment || l is JavadocComment,
        Role::QuotedEnd(q) => match l {
            AcceptedStateLabel::TokenType { type_: Token::Literal(Literal::StringLit(_)) } => q == 34,
            AcceptedStateLabel::TokenType { type_: Token::Literal(Literal::Char(_)) } => q == 39,
            _ => false,
        },
        Role::LineEnd => l is LineComment,
        Role::OneSlash | Role::LineBody | Role::StarOpen | Role::StarOpenStar | Role::Quoted(_) => false,
        Role::WsRun => l is Whitespace,
        Role::Zero | Role::NonZero => match l {
            AcceptedStateLabel::TokenType { type_: Token::Literal(Literal::Int(_)) } => true,
            _ => false,
        },
        Role::Ident => match l {
            AcceptedStateLabel::TokenType { type_: Token::Identifier(_) } => true,
            _ => false,
        },
        Role::Any => false,
    }
}

/// An edge keeps what the roles say of the inputs.
pub proof fn lemma_step_ok(r1: Role, a: u8, r2: Role, s: Seq<u8>)
    requires
        step_ok(r1, a, r2),
        role_lang(r1, s),
    ensures
        role_lang(r2, s.push(a)),
{
    match r2 {
        Role::Chain(w, n) => {
            assert(s.push(a) =~= w.subrange(0, n as int));
        },
        Role::OneSlash => {
            assert(s.push(a) =~= seq![47u8]);
        },
        Role::StarOpen => {
            if r1 == Role::OneSlash {
                assert(s.push(a) =~= seq![47u8, 42u8]);
            }
        },
        Role::Zero => {
            assert(s.push(a) =~= seq![48u8]);
        },
        Role::Ident => {
            assert forall|i: int| 0 <= i < s.push(a).len() implies is_letter(#[trigger] s.push(a)[i]) || 48 <= s.push(a)[i] <= 57 by {
                if i < s.len() {
                    assert(s.push(a)[i] == s[i]);
                }
            }
        },
        Role::NonZero => {
            assert forall|i: int| 0 <= i < s.push(a).len() implies 48 <= #[trigger] s.push(a)[i] <= 57 by {
                if i < s.len() {
                    assert(s.push(a)[i] == s[i]);
                }
            }
        },
        Role::WsRun => {
            assert forall|i: int| 0 <= i < s.push(a).len() implies is_whitespace(#[trigger] s.push(a)[i]) by {
                if i < s.len() {
                    assert(s.push(a)[i] == s[i]);
                }
            }
        },
        Role::LineBody => {
            if r1 == Role::OneSlash {
                assert(s.push(a) =~= seq![47u8, 47u8]);
            } else {
                assert forall|i: int| 0 <= i < s.push(a).len() implies #[trigger] s.push(a)[i] != 10 by {
                    if i < s.len() {
                        assert(s.push(a)[i] == s[i]);
                    }
                }
            }
        },
        Role::LineEnd => {
            assert(s.push(a).drop_last() =~= s);
        },
        _ => {},
    }
}

/// The whitespace symbols.
pub fn whitespace() -> (r: Vec<Symbol>)
    ensures
        r@ == seq![Symbol(32), Symbol(9), Symbol(12), Symbol(10)],
        forall|b: u8| is_whitespace(b) <==> r@.contains(Symbol(b)),
{
    let r = vec![Symbol(32), Symbol(9), Symbol(12), Symbol(10)];
    proof {
        assert(r@ =~= seq![Symbol(32), Symbol(9), Symbol(12), Symbol(10)]);
        assert forall|b: u8| is_whitespace(b) <==> r@.contains(Symbol(b)) by {
            if is_whitespace(b) {
                if b == 32 {
                    assert(r@[0] == Symbol(b));
                } else if b == 9 {
                    assert(r@[1] == Symbol(b));
                } else if b == 12 {
                    assert(r@[2] == Symbol(b));
                } else {
                    assert(r@[3] == Symbol(b));
                }
            }
        }
    }
    r
}

/// The decimal digits, in increasing order.
pub fn digits() -> (r: Vec<Symbol>)
    ensures
        r@.len() == 10,
        forall|k: int| 0 <= k < 10 ==> (#[trigger] r@[k]).0 == 48 + k,
{
    let mut r: Vec<Symbol> = Vec::new();
    let mut b: u8 = 48;
    while b <= 57
        invariant
            48 <= b <= 58,
            r@.len() == b - 48,
            forall|k: int| 0 <= k < r@.len() ==> (#[trigger] r@[k]).0 == 48 + k,
        decreases 58 - b,
    {
        r.push(Symbol(b));
        b += 1;
    }
    r
}

/// The letters of identifiers: `A` to `Z`, `a` to `z`, `_` and `$`.
pub fn letters() -> (r: Vec<Symbol>)
    ensures
        forall|k: int| 0 <= k < r@.len() ==> is_letter(#[trigger] r@[k].0),
        forall|b: u8| is_letter(b) ==> r@.contains(Symbol(b)),
{
    let mut r: Vec<Symbol> = Vec::new();
    let mut b: u8 = 65;
    while b <= 90
        invariant
            65 <= b <= 91,
            r@.len() == b - 65,
            forall|k: int| 0 <= k < r@.len() ==> (#[trigger] r@[k]).0 == 65 + k,
        decreases 91 - b,
    {
        r.push(Symbol(b));
        b += 1;
    }
    let mut c: u8 = 97;
    while c <= 122
        invariant
            97 <= c <= 123,
            r@.len() == 26 + (c - 97),
            forall|k: int| 0 <= k < 26 ==> (#[trigger] r@[k]).0 == 65 + k,
            forall|k: int| 26 <= k < r@.len() ==> (#[trigger] r@[k]).0 == 97 + (k - 26),
        decreases 123 - c,
    {
        r.push(Symbol(c));
        c += 1;
    }
    r.push(Symbol(95));
    r.push(Symbol(36));
    proof {
        assert forall|b: u8| is_letter(b) implies r@.contains(Symbol(b)) by {
            if 65 <= b <= 90 {
                assert(r@[b - 65] == Symbol(b));
            } else if 97 <= b <= 122 {
                assert(r@[26 + b - 97] == Symbol(b));
            } else if b == 95 {
                assert(r@[52] == Symbol(b));
            } else {
                assert(r@[53] == Symbol(b));
            }
        }
    }
    r
}

/// Builds the Joos 1W NFA, one token class at a time.
struct NFABuilder {
    nfa: NFA,
    num_states: u32,
    /// The role of each state.
    roles: Ghost<Seq<Role>>,
}

impl NFABuilder {
    spec fn inv(&self) -> bool {
        &&& self.nfa.wf()
        &&& self.nfa.init == State(0)
        &&& self.num_states as nat == self.nfa.num_states()
        &&& 1 <= self.num_states <= STATE_LIMIT
        &&& self.nfa.eps_only_from_init_to_silent()
        &&& self.roles@.len() == self.num_states
        &&& self.roles@[0] == Role::Empty
        &&& forall|x: State, y: State| #[trigger] self.nfa.eps_edge(x, y) ==> starts_empty(self.roles@[y.0 as int])
        &&& forall|x: int, k: int|
            0 <= x < self.nfa.delta@.len() && 0 <= k < self.nfa.delta@[x]@.len() ==> step_ok(
                self.roles@[x],
                (#[trigger] self.nfa.delta@[x]@[k]).0.0,
                self.roles@[self.nfa.delta@[x]@[k].1.0 as int],
            )
        &&& forall|x: int|
            0 <= x < self.nfa.accepted@.len() && (#[trigger] self.nfa.accepted@[x]) is Some ==> accept_ok(
                self.roles@[x],
                self.nfa.accepted@[x]->0,
            )
    }

    /// The epsilon edges out of the initial state.
    spec fn eps0(&self) -> Seq<State> {
        self.nfa.epsilon@[0]@
    }

    /// `self` grew out of `old`: the roles of old states stay, their labels stay below `keep`,
    /// and every edge stays.
    spec fn keeps(&self, old: NFABuilder, keep: nat) -> bool {
        &&& old.num_states <= self.num_states
        &&& keep <= old.num_states
        &&& forall|x: int| 0 <= x < old.num_states ==> #[trigger] self.roles@[x] == old.roles@[x]
        &&& forall|x: int| 0 <= x < keep ==> #[trigger] self.nfa.accepted@[x] == old.nfa.accepted@[x]
        &&& forall|x: State, a: u8, y: State| #[trigger] old.nfa.delta_edge(x, a, y) ==> self.nfa.delta_edge(x, a, y)
        &&& forall|x: State, y: State| #[trigger] old.nfa.eps_edge(x, y) ==> self.nfa.eps_edge(x, y)
    }

    /// The states from `b` on have roles other than `Any`, and the tokens they accept are
    /// keywords, separators or operators.
    spec fn plain_from(&self, b: nat) -> bool {
        forall|x: int| b <= x < self.num_states ==> {
            &&& !(#[trigger] self.roles@[x] is Any)
            &&& match self.nfa.accepted@[x] {
                Some(AcceptedStateLabel::TokenType { type_ }) => type_ is Keyword || type_ is Separator || type_ is Operator,
                _ => true,
            }
        }
    }

    /// Every epsilon edge leads to a state numbered at most `b`.
    spec fn eps_at_most(&self, b: u32) -> bool {
        forall|k: int| 0 <= k < self.eps0().len() ==> (#[trigger] self.eps0()[k]).0 <= b
    }

    /// A new NFA with just an initial state.
    fn new() -> (r: Self)
        ensures
            r.inv(),
            r.num_states == 1,
            r.eps0() == Seq::<State>::empty(),
            r.nfa.accepted@ == seq![None::<AcceptedStateLabel>],
            forall|x: State, a: u8, y: State| !#[trigger] r.nfa.delta_edge(x, a, y),
    {
        let mut accepted: Vec<Option<AcceptedStateLabel>> = Vec::new();
        accepted.push(None);
        let mut delta: Vec<Vec<(Symbol, State)>> = Vec::new();
        delta.push(Vec::new());
        let mut epsilon: Vec<Vec<State>> = Vec::new();
        epsilon.push(Vec::new());
        let ghost first_roles = seq![Role::Empty];
        let r = NFABuilder {
            num_states: 1,
            nfa: NFA { init: State(0), accepted, delta, epsilon },
            roles: Ghost(first_roles),
        };
        proof {
            assert forall|x: State, y: State| #[trigger] r.nfa.eps_edge(x, y) implies x == r.nfa.init && r.nfa.label(y) is None by {
                assert(r.nfa.epsilon@[x.0 as int]@.len() == 0);
            }
            assert(r.eps0() =~= Seq::<State>::empty());
            assert(r.nfa.accepted@ =~= seq![None::<AcceptedStateLabel>]);
            assert forall|x: State, a: u8, y: State| !#[trigger] r.nfa.delta_edge(x, a, y) by {
                if r.nfa.delta_edge(x, a, y) {
                    assert(r.nfa.delta@[x.0 as int]@.len() == 0);
                }
            }
        }
        r
    }

    /// Add a new state, numbered after all the others.
    fn new_state(&mut self, role: Ghost<Role>) -> (r: State)
        requires
            old(self).inv(),
            old(self).num_states < STATE_LIMIT,
        ensures
            final(self).inv(),
            final(self).roles@ == old(self).roles@.push(role@),
            final(self).keeps(*old(self), old(self).num_states as nat),
            forall|x: State, a: u8, y: State| #[trigger] final(self).nfa.delta_edge(x, a, y) <==> old(self).nfa.delta_edge(x, a, y),
            r.0 == old(self).num_states,
            final(self).num_states == old(self).num_states + 1,
            final(self).eps0() == old(self).eps0(),
            final(self).nfa.accepted@ == old(self).nfa.accepted@.push(None),
    {
        let state = State(self.num_states);
        self.nfa.accepted.push(None);
        self.nfa.delta.push(Vec::new());
        self.nfa.epsilon.push(Vec::new());
        self.num_states = self.num_states + 1;
        self.roles = Ghost(self.roles@.push(role@));
        proof {
            assert(self.nfa.epsilon@[0] == old(self).nfa.epsilon@[0]);
            let nfa = self.nfa;
            assert forall|x: State, y: State| #[trigger] nfa.eps_edge(x, y) implies x == nfa.init && nfa.label(y) is None by {
                if x.0 == state.0 {
                    assert(nfa.epsilon@[x.0 as int]@.len() == 0);
                } else {
                    assert(old(self).nfa.eps_edge(x, y));
                }
            }
            assert forall|x: int, k: int|
                0 <= x < nfa.delta@.len() && 0 <= k < nfa.delta@[x]@.len() implies {
                    &&& (#[trigger] nfa.delta@[x]@[k]).1.0 < nfa.accepted@.len()
                    &&& nfa.delta@[x]@[k].0.0 < 128
                } by {
                if x < old(self).nfa.delta@.len() {
                    assert(nfa.delta@[x] == old(self).nfa.delta@[x]);
                }
            }
            assert forall|x: int, k: int|
                0 <= x < nfa.epsilon@.len() && 0 <= k < nfa.epsilon@[x]@.len() implies (
                #[trigger] nfa.epsilon@[x]@[k]).0 < nfa.accepted@.len() by {
                if x < old(self).nfa.epsilon@.len() {
                    assert(nfa.epsilon@[x] == old(self).nfa.epsilon@[x]);
                }
            }
            let o = old(self).nfa;
            assert forall|x: State, y: State| #[trigger] nfa.eps_edge(x, y) implies starts_empty(self.roles@[y.0 as int]) by {
                if x.0 == state.0 {
                    assert(nfa.epsilon@[x.0 as int]@.len() == 0);
                } else {
                    assert(o.eps_edge(x, y));
                    assert(o.epsilon@[0]@.contains(y));
                    let k = choose|k: int| 0 <= k < o.epsilon@[0]@.len() && o.epsilon@[0]@[k] == y;
                    assert(o.epsilon@[0]@[k].0 < o.accepted@.len());
                }
            }
            assert forall|x: int, k: int|
                0 <= x < nfa.delta@.len() && 0 <= k < nfa.delta@[x]@.len() implies step_ok(
                    self.roles@[x],
                    (#[trigger] nfa.delta@[x]@[k]).0.0,
                    self.roles@[nfa.delta@[x]@[k].1.0 as int],
                ) by {
                assert(x < o.delta@.len());
                assert(nfa.delta@[x] == o.delta@[x]);
                assert(o.delta@[x]@[k].1.0 < o.accepted@.len());
            }
            assert forall|x: int|
                0 <= x < nfa.accepted@.len() && (#[trigger] nfa.accepted@[x]) is Some implies accept_ok(
                    self.roles@[x],
                    nfa.accepted@[x]->0,
                ) by {
                assert(x < o.accepted@.len());
                assert(o.accepted@[x] is Some);
            }
            assert forall|x: State, a: u8, y: State| #[trigger] nfa.delta_edge(x, a, y) <==> o.delta_edge(x, a, y) by {
                if (x.0 as int) < o.delta@.len() {
                    assert(nfa.delta@[x.0 as int] == o.delta@[x.0 as int]);
                } else if nfa.delta_edge(x, a, y) {
                    assert(nfa.delta@[x.0 as int]@.len() == 0);
                }
            }
            assert forall|x: State, y: State| #[trigger] o.eps_edge(x, y) implies nfa.eps_edge(x, y) by {
                assert(nfa.epsilon@[x.0 as int] == o.epsilon@[x.0 as int]);
            }
        }
        state
    }

    /// Link from the initial state to `start` by an epsilon edge.
    fn eps(&mut self, start: State)
        requires
            old(self).inv(),
            (start.0 as int) < old(self).num_states,
            old(self).nfa.label(start) is None,
            starts_empty(old(self).roles@[start.0 as int]),
        ensures
            final(self).inv(),
            final(self).roles == old(self).roles,
            final(self).keeps(*old(self), old(self).num_states as nat),
            forall|x: State, a: u8, y: State| #[trigger] final(self).nfa.delta_edge(x, a, y) <==> old(self).nfa.delta_edge(x, a, y),
            final(self).num_states == old(self).num_states,
            final(self).eps0() == old(self).eps0().push(start),
            final(self).nfa.accepted@ == old(self).nfa.accepted@,
    {
        let mut targets: Vec<State> = Vec::new();
        std::mem::swap(&mut targets, &mut self.nfa.epsilon[0]);
        targets.push(start);
        std::mem::swap(&mut targets, &mut self.nfa.epsilon[0]);
        proof {
            let nfa = self.nfa;
            let o = old(self).nfa;
            assert forall|x: State, y: State| #[trigger] nfa.eps_edge(x, y) implies x == nfa.init && nfa.label(y) is None by {
                if x.0 != 0 {
                    assert(nfa.epsilon@[x.0 as int] == o.epsilon@[x.0 as int]);
                    assert(o.eps_edge(x, y));
                } else if y != start {
                    let k = choose|k: int| 0 <= k < nfa.epsilon@[0]@.len() && nfa.epsilon@[0]@[k] == y;
                    assert(o.epsilon@[0]@[k] == y);
                    assert(o.eps_edge(x, y));
                }
            }
            assert forall|x: int, k: int|
                0 <= x < nfa.epsilon@.len() && 0 <= k < nfa.epsilon@[x]@.len() implies (
                #[trigger] nfa.epsilon@[x]@[k]).0 < nfa.accepted@.len() by {
                if x != 0 {
                    assert(nfa.epsilon@[x] == o.epsilon@[x]);
                } else if k < o.epsilon@[0]@.len() {
                    assert(nfa.epsilon@[0]@[k] == o.epsilon@[0]@[k]);
                }
            }
            assert forall|x: State, y: State| #[trigger] nfa.eps_edge(x, y) implies starts_empty(self.roles@[y.0 as int]) by {
                if y != start {
                    if x.0 != 0 {
                        assert(nfa.epsilon@[x.0 as int] == o.epsilon@[x.0 as int]);
                    } else {
                        let k = choose|k: int| 0 <= k < nfa.epsilon@[0]@.len() && nfa.epsilon@[0]@[k] == y;
                        assert(o.epsilon@[0]@[k] == y);
                    }
                    assert(o.eps_edge(x, y));
                }
            }
            assert forall|x: State, y: State| #[trigger] o.eps_edge(x, y) implies nfa.eps_edge(x, y) by {
                if x.0 != 0 {
                    assert(nfa.epsilon@[x.0 as int] == o.epsilon@[x.0 as int]);
                } else {
                    let k = choose|k: int| 0 <= k < o.epsilon@[0]@.len() && o.epsilon@[0]@[k] == y;
                    assert(nfa.epsilon@[0]@[k] == y);
                }
            }
            assert forall|x: State, a: u8, y: State| #[trigger] o.delta_edge(x, a, y) implies nfa.delta_edge(x, a, y) by {
                assert(nfa.delta == o.delta);
            }
        }
    }

    /// Add an edge on `sym` from `src` to `dest`.
    fn delta(&mut self, src: State, sym: Symbol, dest: State)
        requires
            old(self).inv(),
            (src.0 as int) < old(self).num_states,
            (dest.0 as int) < old(self).num_states,
            sym.0 < 128,
            step_ok(old(self).roles@[src.0 as int], sym.0, old(self).roles@[dest.0 as int]),
        ensures
            final(self).inv(),
            final(self).roles == old(self).roles,
            final(self).keeps(*old(self), old(self).num_states as nat),
            forall|x: State, a: u8, y: State| #[trigger] final(self).nfa.delta_edge(x, a, y) <==> (old(self).nfa.delta_edge(x, a, y) || (x == src && a == sym.0 && y == dest)),
            final(self).nfa.delta_edge(src, sym.0, dest),
            final(self).num_states == old(self).num_states,
            final(self).eps0() == old(self).eps0(),
            final(self).nfa.accepted@ == old(self).nfa.accepted@,
    {
        let mut edges: Vec<(Symbol, State)> = Vec::new();
        std::mem::swap(&mut edges, &mut self.nfa.delta[src.0 as usize]);
        edges.push((sym, dest));
        std::mem::swap(&mut edges, &mut self.nfa.delta[src.0 as usize]);
        proof {
            let nfa = self.nfa;
            let o = old(self).nfa;
            assert forall|x: int, k: int|
                0 <= x < nfa.delta@.len() && 0 <= k < nfa.delta@[x]@.len() implies {
                    &&& (#[trigger] nfa.delta@[x]@[k]).1.0 < nfa.accepted@.len()
                    &&& nfa.delta@[x]@[k].0.0 < 128
                } by {
                if x != src.0 {
                    assert(nfa.delta@[x] == o.delta@[x]);
                } else if k < o.delta@[x]@.len() {
                    assert(nfa.delta@[x]@[k] == o.delta@[x]@[k]);
                }
            }
            assert forall|x: State, y: State| #[trigger] nfa.eps_edge(x, y) implies x == nfa.init && nfa.label(y) is None by {
                assert(o.eps_edge(x, y));
            }
            assert forall|x: int, k: int|
                0 <= x < nfa.delta@.len() && 0 <= k < nfa.delta@[x]@.len() implies step_ok(
                    self.roles@[x],
                    (#[trigger] nfa.delta@[x]@[k]).0.0,
                    self.roles@[nfa.delta@[x]@[k].1.0 as int],
                ) by {
                if x != src.0 {
                    assert(nfa.delta@[x] == o.delta@[x]);
                } else if k < o.delta@[x]@.len() {
                    assert(nfa.delta@[x]@[k] == o.delta@[x]@[k]);
                }
            }
            assert forall|x: State, y: State| #[trigger] nfa.eps_edge(x, y) implies starts_empty(self.roles@[y.0 as int]) by {
                assert(o.eps_edge(x, y));
            }
            assert forall|x: State, a: u8, y: State| #[trigger] o.delta_edge(x, a, y) implies nfa.delta_edge(x, a, y) by {
                if x != src {
                    assert(nfa.delta@[x.0 as int] == o.delta@[x.0 as int]);
                } else {
                    let k = choose|k: int| 0 <= k < o.delta@[x.0 as int]@.len() && o.delta@[x.0 as int]@[k] == (Symbol(a), y);
                    assert(nfa.delta@[x.0 as int]@[k] == (Symbol(a), y));
                }
            }
            assert(nfa.delta@[src.0 as int]@[nfa.delta@[src.0 as int]@.len() - 1] == (sym, dest));
            assert forall|x: State, a: u8, y: State| #[trigger] nfa.delta_edge(x, a, y) implies (o.delta_edge(x, a, y) || (x == src && a == sym.0 && y == dest)) by {
                if x != src {
                    assert(nfa.delta@[x.0 as int] == o.delta@[x.0 as int]);
                } else {
                    let k = choose|k: int| 0 <= k < nfa.delta@[x.0 as int]@.len() && nfa.delta@[x.0 as int]@[k] == (Symbol(a), y);
                    if k < o.delta@[x.0 as int]@.len() {
                        assert(o.delta@[x.0 as int]@[k] == (Symbol(a), y));
                    }
                }
            }
        }
    }

    /// Add an edge on the ASCII character `ch` from `src` to `dest`.
    fn delta_char(&mut self, src: State, ch: char, dest: State)
        requires
            old(self).inv(),
            (src.0 as int) < old(self).num_states,
            (dest.0 as int) < old(self).num_states,
            ch < '\u{80}',
            step_ok(old(self).roles@[src.0 as int], ch as u8, old(self).roles@[dest.0 as int]),
        ensures
            final(self).inv(),
            final(self).roles == old(self).roles,
            final(self).keeps(*old(self), old(self).num_states as nat),
            forall|x: State, a: u8, y: State| #[trigger] final(self).nfa.delta_edge(x, a, y) <==> (old(self).nfa.delta_edge(x, a, y) || (x == src && a == ch as u8 && y == dest)),
            final(self).nfa.delta_edge(src, ch as u8, dest),
            final(self).num_states == old(self).num_states,
            final(self).eps0() == old(self).eps0(),
            final(self).nfa.accepted@ == old(self).nfa.accepted@,
    {
        let b = ch as u8;
        proof {
            assert(b < 128) by {
                vstd::utf8::char_is_scalar(ch);
            }
        }
        self.delta(src, Symbol(b), dest);
    }

    /// Make `end` accept, with `label`.
    fn accept(&mut self, end: State, label: AcceptedStateLabel)
        requires
            old(self).inv(),
            0 < end.0 < old(self).num_states,
            !old(self).eps0().contains(end),
            accept_ok(old(self).roles@[end.0 as int], label),
        ensures
            final(self).inv(),
            final(self).roles == old(self).roles,
            final(self).keeps(*old(self), end.0 as nat),
            forall|x: State, a: u8, y: State| #[trigger] final(self).nfa.delta_edge(x, a, y) <==> old(self).nfa.delta_edge(x, a, y),
            final(self).num_states == old(self).num_states,
            final(self).eps0() == old(self).eps0(),
            final(self).nfa.accepted@ == old(self).nfa.accepted@.update(end.0 as int, Some(label)),
    {
        self.nfa.accepted.set(end.0 as usize, Some(label));
        proof {
            let nfa = self.nfa;
            let o = old(self).nfa;
            assert forall|x: State, y: State| #[trigger] nfa.eps_edge(x, y) implies x == nfa.init && nfa.label(y) is None by {
                assert(o.eps_edge(x, y));
                assert(y != end);
            }
            assert forall|x: int|
                0 <= x < nfa.accepted@.len() && (#[trigger] nfa.accepted@[x]) is Some implies accept_ok(
                    self.roles@[x],
                    nfa.accepted@[x]->0,
                ) by {
                if x != end.0 {
                    assert(o.accepted@[x] == nfa.accepted@[x]);
                }
            }
            assert forall|x: int, k: int|
                0 <= x < nfa.delta@.len() && 0 <= k < nfa.delta@[x]@.len() implies step_ok(
                    self.roles@[x],
                    (#[trigger] nfa.delta@[x]@[k]).0.0,
                    self.roles@[nfa.delta@[x]@[k].1.0 as int],
                ) by {
                assert(nfa.delta@[x]@[k] == o.delta@[x]@[k]);
            }
            assert forall|x: State, y: State| #[trigger] nfa.eps_edge(x, y) implies starts_empty(self.roles@[y.0 as int]) by {
                assert(o.eps_edge(x, y));
            }
        }
    }
}



/// A set of ASCII symbols, as the edges of a token class use them.
pub enum SymbolClass {
    /// The symbols from the first to the second, both included.
    Range(u8, u8),
    /// Every symbol but these three.
    AllBut(u8, u8, u8),
    /// The letters of identifiers.
    Letters,
    /// The whitespace symbols.
    Whitespace,
}

/// `a` is an ASCII symbol of the class `c`.
pub open spec fn in_class(c: SymbolClass, a: u8) -> bool {
    a < 128 && match c {
        SymbolClass::Range(lo, hi) => lo <= a <= hi,
        SymbolClass::AllBut(x, y, z) => a != x && a != y && a != z,
        SymbolClass::Letters => is_letter(a),
        SymbolClass::Whitespace => is_whitespace(a),
    }
}

impl SymbolClass {
    /// Is `b` in this class?
    pub fn has(&self, b: u8) -> (r: bool)
        requires
            b < 128,
        ensures
            r == in_class(*self, b),
    {
        match self {
            SymbolClass::Range(lo, hi) => *lo <= b && b <= *hi,
            SymbolClass::AllBut(x, y, z) => b != *x && b != *y && b != *z,
            SymbolClass::Letters => (65 <= b && b <= 90) || (97 <= b && b <= 122) || b == 95 || b == 36,
            SymbolClass::Whitespace => b == 32 || b == 9 || b == 12 || b == 10,
        }
    }
}

/// State `n + k`.
pub open spec fn st(n: u32, k: int) -> State {
    State((n + k) as u32)
}

/// The edges of the automaton for `0` that starts at state `n`: `n` to `n + 1` on `0`.
pub open spec fn zero_edge(n: u32, x: State, a: u8, y: State) -> bool {
    x == st(n, 0) && a == 48 && y == st(n, 1)
}

/// The edges of the automaton for integers without a leading zero that starts at `n` and ends
/// at `n + 1`.
pub open spec fn non_zero_edge(n: u32, x: State, a: u8, y: State) -> bool {
    ||| x == st(n, 0) && y == st(n, 1) && in_class(SymbolClass::Range(49, 57), a)
    ||| x == st(n, 1) && y == st(n, 1) && in_class(SymbolClass::Range(48, 57), a)
}

/// The edges of the automaton for literals between two `q`s: start `n`, inside `n + 1`, after a
/// backslash `n + 2`, end `n + 3`.
pub open spec fn quoted_edge(n: u32, q: u8, x: State, a: u8, y: State) -> bool {
    ||| x == st(n, 0) && a == q && y == st(n, 1)
    ||| x == st(n, 1) && a == q && y == st(n, 3)
    ||| x == st(n, 1) && a == 92 && y == st(n, 2)
    ||| x == st(n, 2) && y == st(n, 1) && in_class(SymbolClass::AllBut(10, 10, 10), a)
    ||| x == st(n, 1) && y == st(n, 1) && in_class(SymbolClass::AllBut(q, 92, 10), a)
}

/// The edges of the automaton for identifiers: start `n`, end `n + 1`.
pub open spec fn identifier_edge(n: u32, x: State, a: u8, y: State) -> bool {
    ||| (x == st(n, 0) || x == st(n, 1)) && y == st(n, 1) && in_class(SymbolClass::Letters, a)
    ||| x == st(n, 1) && y == st(n, 1) && in_class(SymbolClass::Range(48, 57), a)
}

/// The edges of the automaton for whitespace: start `n`, end `n + 1`.
pub open spec fn whitespace_edge(n: u32, x: State, a: u8, y: State) -> bool {
    (x == st(n, 0) || x == st(n, 1)) && y == st(n, 1) && in_class(SymbolClass::Whitespace, a)
}

/// The edges of the automaton for line comments: start `n`, `/` at `n + 1`, `//` and its body
/// at `n + 2`, end `n + 3`.
pub open spec fn line_comment_edge(n: u32, x: State, a: u8, y: State) -> bool {
    ||| x == st(n, 0) && a == 47 && y == st(n, 1)
    ||| x == st(n, 1) && a == 47 && y == st(n, 2)
    ||| x == st(n, 2) && y == st(n, 2) && in_class(SymbolClass::AllBut(10, 10, 10), a)
    ||| x == st(n, 2) && a == 10 && y == st(n, 3)
}

/// The edges of the automaton for star comments: start `n`, `/` at `n + 1`, inside `n + 2`,
/// after a star inside `n + 3`, end `n + 4`; a javadoc comment has its second star at `n + 5`.
pub open spec fn star_comment_edge(n: u32, javadoc: bool, x: State, a: u8, y: State) -> bool {
    ||| x == st(n, 0) && a == 47 && y == st(n, 1)
    ||| !javadoc && x == st(n, 1) && a == 42 && y == st(n, 2)
    ||| javadoc && x == st(n, 1) && a == 42 && y == st(n, 5)
    ||| javadoc && x == st(n, 5) && a == 42 && y == st(n, 2)
    ||| x == st(n, 2) && y == st(n, 2) && in_class(SymbolClass::AllBut(42, 42, 42), a)
    ||| x == st(n, 2) && a == 42 && y == st(n, 3)
    ||| x == st(n, 3) && a == 42 && y == st(n, 3)
    ||| x == st(n, 3) && y == st(n, 2) && in_class(SymbolClass::AllBut(42, 47, 47), a)
    ||| x == st(n, 3) && a == 47 && y == st(n, 4)
}

/// The edges of the chain that spells `w` from state `n`.
pub open spec fn chain_edge(n: u32, w: Seq<u8>, x: State, a: u8, y: State) -> bool {
    exists|i: int| 0 <= i < w.len() && x == st(n, i) && a == w[i] && y == #[trigger] st(n, i + 1)
}

/// The states `n..m` are new and only `end` of them accepts, with `label`.
pub open spec fn only_end_accepts(acc: Seq<Option<AcceptedStateLabel>>, n: u32, m: int, end: int, label: AcceptedStateLabel) -> bool {
    forall|x: int| n <= x < m ==> #[trigger] acc[x] == if x == end { Some(label) } else { None }
}

/// The states `n..n + 4` are new and only `n + 3` accepts, with a string literal.
pub open spec fn is_string_label_from(acc: Seq<Option<AcceptedStateLabel>>, n: u32) -> bool {
    &&& forall|x: int| n <= x < n + 3 ==> #[trigger] acc[x] is None
    &&& match acc[n + 3] {
        Some(AcceptedStateLabel::TokenType { type_: Token::Literal(Literal::StringLit(_)) }) => true,
        _ => false,
    }
}

impl NFABuilder {
    /// Add an edge from `src` to `dest` on every symbol of `class`.
    fn delta_class(&mut self, src: State, class: SymbolClass, dest: State)
        requires
            old(self).inv(),
            (src.0 as int) < old(self).num_states,
            (dest.0 as int) < old(self).num_states,
            forall|a: u8| in_class(class, a) ==> step_ok(old(self).roles@[src.0 as int], a, old(self).roles@[dest.0 as int]),
        ensures
            final(self).inv(),
            final(self).roles == old(self).roles,
            final(self).keeps(*old(self), old(self).num_states as nat),
            final(self).num_states == old(self).num_states,
            final(self).eps0() == old(self).eps0(),
            final(self).nfa.accepted@ == old(self).nfa.accepted@,
            forall|x: State, a: u8, y: State| #[trigger] final(self).nfa.delta_edge(x, a, y) <==> (old(self).nfa.delta_edge(x, a, y)
                || (x == src && y == dest && in_class(class, a))),
    {
        let ghost before = *self;
        let mut b: u8 = 0;
        while b < 128
            invariant
                self.inv(),
                b <= 128,
                self.roles == before.roles,
                self.keeps(before, before.num_states as nat),
                self.num_states == before.num_states,
                self.eps0() == before.eps0(),
                self.nfa.accepted@ == before.nfa.accepted@,
                (src.0 as int) < self.num_states,
                (dest.0 as int) < self.num_states,
                forall|a: u8| in_class(class, a) ==> step_ok(self.roles@[src.0 as int], a, self.roles@[dest.0 as int]),
                forall|x: State, a: u8, y: State| #[trigger] self.nfa.delta_edge(x, a, y) <==> (before.nfa.delta_edge(x, a, y)
                    || (x == src && y == dest && in_class(class, a) && a < b)),
            decreases 128 - b,
        {
            if class.has(b) {
                let ghost mid = *self;
                self.delta(src, Symbol(b), dest);
                proof {
                    lemma_keeps_trans(self, mid, before);
                }
            }
            b += 1;
        }
    }
}

/// How many states the chains for `ws` take, one after the other: one more than each word.
pub open spec fn block_size(ws: Seq<Seq<u8>>) -> nat
    decreases ws.len(),
{
    if ws.len() == 0 {
        0
    } else {
        block_size(ws.drop_last()) + ws.last().len() + 1
    }
}

/// Where the chain for word `i` of `ws` starts, when the chains start at `base`.
pub open spec fn word_start(base: int, ws: Seq<Seq<u8>>, i: int) -> int {
    base + block_size(ws.take(i))
}

/// The edges of the chains that spell the words `ws`, one after the other from `base`.
pub open spec fn block_edge(base: int, ws: Seq<Seq<u8>>, x: State, a: u8, y: State) -> bool {
    exists|i: int| 0 <= i < ws.len() && chain_edge(#[trigger] word_start(base, ws, i) as u32, ws[i], x, a, y)
}

/// `y` is where one of the chains for `ws` starts.
pub open spec fn block_start(base: int, ws: Seq<Seq<u8>>, y: State) -> bool {
    exists|i: int| 0 <= i < ws.len() && y == State(#[trigger] word_start(base, ws, i) as u32)
}

/// `x` is where one of the chains for `ws` ends.
pub open spec fn block_end(base: int, ws: Seq<Seq<u8>>, x: int) -> bool {
    exists|i: int| 0 <= i < ws.len() && x == #[trigger] word_start(base, ws, i) + ws[i].len()
}

/// The spellings of the keywords, separators and operators, as bytes.
pub open spec fn keyword_words() -> Seq<Seq<u8>> {
    keyword_seq().map_values(|k: Keyword| ascii_bytes(k.spelling()))
}

pub open spec fn separator_words() -> Seq<Seq<u8>> {
    separator_seq().map_values(|k: Separator| ascii_bytes(k.spelling()))
}

pub open spec fn operator_words() -> Seq<Seq<u8>> {
    operator_seq().map_values(|k: Operator| ascii_bytes(k.spelling()))
}

proof fn lemma_block_size_take(ws: Seq<Seq<u8>>, i: int)
    requires
        0 <= i < ws.len(),
    ensures
        block_size(ws.take(i + 1)) == block_size(ws.take(i)) + ws[i].len() + 1,
{
    assert(ws.take(i + 1).drop_last() =~= ws.take(i));
}

proof fn lemma_block_size_mono(ws: Seq<Seq<u8>>, j: int, i: int)
    requires
        0 <= j <= i <= ws.len(),
    ensures
        block_size(ws.take(j)) <= block_size(ws.take(i)),
        j < i ==> block_size(ws.take(j)) + ws[j].len() + 1 <= block_size(ws.take(i)),
    decreases i - j,
{
    if j < i {
        lemma_block_size_take(ws, j);
        lemma_block_size_mono(ws, j + 1, i);
    }
}

/// Adding the chain of word `i` extends the block by that chain.
proof fn lemma_block_step(base: int, ws: Seq<Seq<u8>>, i: int)
    requires
        0 <= i < ws.len(),
        0 <= base,
        base + block_size(ws.take(i + 1)) <= u32::MAX,
    ensures
        block_size(ws.take(i + 1)) == block_size(ws.take(i)) + ws[i].len() + 1,
        forall|x: State, a: u8, y: State| block_edge(base, ws.take(i + 1), x, a, y) <==> (block_edge(base, ws.take(i), x, a, y)
            || chain_edge(word_start(base, ws, i) as u32, ws[i], x, a, y)),
        forall|y: State| block_start(base, ws.take(i + 1), y) <==> (block_start(base, ws.take(i), y)
            || y == State(word_start(base, ws, i) as u32)),
        forall|x: int| block_end(base, ws.take(i + 1), x) <==> (block_end(base, ws.take(i), x)
            || x == word_start(base, ws, i) + ws[i].len()),
        forall|x: int| block_end(base, ws.take(i), x) ==> x < word_start(base, ws, i),
{
    lemma_block_size_take(ws, i);
    let w1 = ws.take(i + 1);
    let w0 = ws.take(i);
    assert forall|j: int| 0 <= j <= i implies #[trigger] word_start(base, w1, j) == word_start(base, ws, j) by {
        assert(w1.take(j) =~= ws.take(j));
    }
    assert forall|j: int| 0 <= j <= i implies #[trigger] word_start(base, w0, j) == word_start(base, ws, j) by {
        assert(w0.take(j) =~= ws.take(j));
    }
    assert(word_start(base, w1, i) == word_start(base, ws, i));
    assert forall|x: State, a: u8, y: State| block_edge(base, w1, x, a, y) <==> (block_edge(base, w0, x, a, y)
        || chain_edge(word_start(base, ws, i) as u32, ws[i], x, a, y)) by {
        if block_edge(base, w1, x, a, y) {
            let j = choose|j: int| 0 <= j < w1.len() && chain_edge(#[trigger] word_start(base, w1, j) as u32, w1[j], x, a, y);
            if j < i {
                assert(word_start(base, w0, j) == word_start(base, ws, j));
                assert(w0[j] == w1[j]);
            }
        }
        if block_edge(base, w0, x, a, y) {
            let j = choose|j: int| 0 <= j < w0.len() && chain_edge(#[trigger] word_start(base, w0, j) as u32, w0[j], x, a, y);
            assert(word_start(base, w1, j) == word_start(base, ws, j));
            assert(w0[j] == w1[j]);
        }
        if chain_edge(word_start(base, ws, i) as u32, ws[i], x, a, y) {
            assert(w1[i] == ws[i]);
        }
    }
    assert forall|y: State| block_start(base, w1, y) <==> (block_start(base, w0, y) || y == State(word_start(base, ws, i) as u32)) by {
        if block_start(base, w1, y) {
            let j = choose|j: int| 0 <= j < w1.len() && y == State(#[trigger] word_start(base, w1, j) as u32);
            if j < i {
                assert(word_start(base, w0, j) == word_start(base, ws, j));
            }
        }
        if block_start(base, w0, y) {
            let j = choose|j: int| 0 <= j < w0.len() && y == State(#[trigger] word_start(base, w0, j) as u32);
            assert(word_start(base, w1, j) == word_start(base, ws, j));
        }
    }
    assert forall|x: int| block_end(base, w1, x) <==> (block_end(base, w0, x) || x == word_start(base, ws, i) + ws[i].len()) by {
        if block_end(base, w1, x) {
            let j = choose|j: int| 0 <= j < w1.len() && x == #[trigger] word_start(base, w1, j) + w1[j].len();
            if j < i {
                assert(word_start(base, w0, j) == word_start(base, ws, j));
                assert(w0[j] == w1[j]);
            }
        }
        if block_end(base, w0, x) {
            let j = choose|j: int| 0 <= j < w0.len() && x == #[trigger] word_start(base, w0, j) + w0[j].len();
            assert(word_start(base, w1, j) == word_start(base, ws, j));
            assert(w0[j] == w1[j]);
        }
    }
    assert forall|x: int| block_end(base, w0, x) implies x < word_start(base, ws, i) by {
        let j = choose|j: int| 0 <= j < w0.len() && x == #[trigger] word_start(base, w0, j) + w0[j].len();
        assert(word_start(base, w0, j) == word_start(base, ws, j));
        lemma_block_size_mono(ws, j, i);
    }
}

/// Which kind of star comment `star_comments` adds.
enum StarCommentType {
    OneStar,
    Javadoc,
}

impl NFABuilder {
    /// A state numbered after every epsilon target is no epsilon target.
    proof fn lemma_fresh(&self, x: State, b: u32)
        requires
            self.eps_at_most(b),
            x.0 > b,
        ensures
            !self.eps0().contains(x),
    {
        if self.eps0().contains(x) {
            let k = choose|k: int| 0 <= k < self.eps0().len() && self.eps0()[k] == x;
            assert(self.eps0()[k].0 <= b);
        }
    }

    /// Every epsilon target is an existing state.
    proof fn lemma_eps_below(&self)
        requires
            self.inv(),
        ensures
            self.eps_at_most((self.num_states - 1) as u32),
    {
        assert forall|k: int| 0 <= k < self.eps0().len() implies (#[trigger] self.eps0()[k]).0 <= (self.num_states - 1) as u32 by {
            assert(self.nfa.epsilon@[0]@[k].0 < self.nfa.accepted@.len());
        }
    }

    /// A fresh state with role `role`, linked from the initial state by an epsilon edge: where
    /// a token class begins.
    fn new_start(&mut self, role: Ghost<Role>) -> (r: State)
        requires
            old(self).inv(),
            old(self).num_states < STATE_LIMIT,
            starts_empty(role@),
        ensures
            final(self).inv(),
            r.0 == old(self).num_states,
            final(self).num_states == old(self).num_states + 1,
            final(self).eps_at_most(r.0),
            final(self).nfa.accepted@ == old(self).nfa.accepted@.push(None),
            final(self).roles@ == old(self).roles@.push(role@),
            final(self).keeps(*old(self), old(self).num_states as nat),
            final(self).nfa.eps_edge(final(self).nfa.init, r),
            final(self).eps0() == old(self).eps0().push(r),
            forall|x: State, a: u8, y: State| #[trigger] final(self).nfa.delta_edge(x, a, y) <==> old(self).nfa.delta_edge(x, a, y),
    {
        proof {
            old(self).lemma_eps_below();
        }
        let start = self.new_state(role);
        self.eps(start);
        proof {
            assert forall|k: int| 0 <= k < self.eps0().len() implies (#[trigger] self.eps0()[k]).0 <= start.0 by {
                if k < self.eps0().len() - 1 {
                    assert(self.eps0()[k] == old(self).eps0()[k]);
                }
            }
            assert(self.eps0()[self.eps0().len() - 1] == start);
        }
        start
    }

    /// Add states that recognize exactly the text `s`, ending in a state labelled with `type_`:
    /// a chain with one edge per character.
    fn exact_match(&mut self, s: &str, type_: Token<'static>)
        requires
            old(self).inv(),
            1 <= s@.len(),
            vstd::utf8::is_ascii_chars(s@),
            old(self).num_states + s@.len() + 1 <= STATE_LIMIT,
            word_of(type_) == Some(ascii_bytes(s@)),
        ensures
            final(self).inv(),
            final(self).num_states == old(self).num_states + s@.len() + 1,
            final(self).keeps(*old(self), old(self).num_states as nat),
            final(self).nfa.has_chain(old(self).num_states, ascii_bytes(s@)),
            final(self).nfa.accepted@[old(self).num_states + s@.len()] == Some(AcceptedStateLabel::TokenType { type_ }),
            (type_ is Keyword || type_ is Separator || type_ is Operator) ==> final(self).plain_from(old(self).num_states as nat),
            final(self).eps0() == old(self).eps0().push(State(old(self).num_states)),
            forall|x: State, a: u8, y: State| #[trigger] final(self).nfa.delta_edge(x, a, y) <==> (old(self).nfa.delta_edge(x, a, y)
                || chain_edge(old(self).num_states, ascii_bytes(s@), x, a, y)),
            only_end_accepts(
                final(self).nfa.accepted@,
                old(self).num_states,
                old(self).num_states + s@.len() + 1,
                old(self).num_states + s@.len(),
                AcceptedStateLabel::TokenType { type_ },
            ),
    {
        let ghost w = ascii_bytes(s@);
        let n = s.unicode_len();
        let start = self.new_start(Ghost(Role::Chain(w, 0)));
        let ghost after_start = *self;
        let mut prev = start;
        let mut i: usize = 0;
        while i < n
            invariant
                self.inv(),
                n == s@.len(),
                w == ascii_bytes(s@),
                vstd::utf8::is_ascii_chars(s@),
                i <= n,
                self.num_states == start.0 + 1 + i,
                self.num_states + (n - i) + 1 <= STATE_LIMIT + 1,
                self.eps_at_most(start.0),
                prev.0 == start.0 + i,
                (prev.0 as int) < self.num_states,
                self.roles@[prev.0 as int] == Role::Chain(w, i as nat),
                forall|x: int| start.0 <= x < self.num_states ==> (#[trigger] self.roles@[x]) is Chain,
                forall|x: int| start.0 <= x < self.num_states ==> (#[trigger] self.nfa.accepted@[x]) is None,
                self.keeps(after_start, after_start.num_states as nat),
                self.nfa.eps_edge(self.nfa.init, start),
                forall|j: int| 0 <= j < i ==> #[trigger] self.nfa.delta_edge(State((start.0 + j) as u32), w[j], State((start.0 + j + 1) as u32)),
                self.eps0() == after_start.eps0(),
                forall|x: State, a: u8, y: State| #[trigger] self.nfa.delta_edge(x, a, y) <==> (after_start.nfa.delta_edge(x, a, y)
                    || chain_edge(start.0, w.subrange(0, i as int), x, a, y)),
            decreases n - i,
        {
            let c = s.get_char(i);
            let ghost s0 = *self;
            let curr = self.new_state(Ghost(Role::Chain(w, (i + 1) as nat)));
            let ghost s1 = *self;
            proof {
                assert(s@[i as int] <= '\u{7f}');
                assert(w[i as int] == c as u8);
            }
            self.delta_char(prev, c, curr);
            proof {
                assert(self.nfa.delta_edge(State((start.0 + i) as u32), w[i as int], State((start.0 + i + 1) as u32)));
                let w1 = w.subrange(0, i + 1);
                let w0 = w.subrange(0, i as int);
                assert forall|x: State, a: u8, y: State| #[trigger] chain_edge(start.0, w1, x, a, y) <==> (chain_edge(start.0, w0, x, a, y)
                    || (x == st(start.0, i as int) && a == w[i as int] && y == st(start.0, i + 1))) by {
                    if chain_edge(start.0, w1, x, a, y) {
                        let m = choose|m: int| 0 <= m < w1.len() && x == st(start.0, m) && a == w1[m] && y == #[trigger] st(start.0, m + 1);
                        if m < i {
                            assert(w0[m] == w1[m]);
                        }
                    }
                    if chain_edge(start.0, w0, x, a, y) {
                        let m = choose|m: int| 0 <= m < w0.len() && x == st(start.0, m) && a == w0[m] && y == #[trigger] st(start.0, m + 1);
                        assert(w1[m] == w0[m]);
                    }
                    if x == st(start.0, i as int) && a == w[i as int] && y == st(start.0, i + 1) {
                        assert(w1[i as int] == w[i as int]);
                    }
                }
                assert forall|j: int| 0 <= j < i implies #[trigger] self.nfa.delta_edge(
                    State((start.0 + j) as u32),
                    w[j],
                    State((start.0 + j + 1) as u32),
                ) by {
                    assert(s0.nfa.delta_edge(State((start.0 + j) as u32), w[j], State((start.0 + j + 1) as u32)));
                    assert(s1.nfa.delta_edge(State((start.0 + j) as u32), w[j], State((start.0 + j + 1) as u32)));
                }
            }
            prev = curr;
            i += 1;
        }
        proof {
            self.lemma_fresh(prev, start.0);
        }
        let ghost s2 = *self;
        self.accept(prev, AcceptedStateLabel::TokenType { type_ });
        proof {
            assert(w.subrange(0, n as int) =~= w);
            assert(w.len() == n);
            assert forall|j: int| 0 <= j < w.len() implies #[trigger] self.nfa.delta_edge(
                State((start.0 + j) as u32),
                w[j],
                State((start.0 + j + 1) as u32),
            ) by {
                assert(s2.nfa.delta_edge(State((start.0 + j) as u32), w[j], State((start.0 + j + 1) as u32)));
            }
            assert(s2.nfa.eps_edge(s2.nfa.init, start));
            assert(self.nfa.eps_edge(self.nfa.init, State(start.0)));
        }
    }

    /// Add a keyword.
    fn keyword(&mut self, k: Keyword)
        requires
            old(self).inv(),
            old(self).num_states + 13 <= STATE_LIMIT,
        ensures
            final(self).inv(),
            final(self).num_states == old(self).num_states + k.spelling().len() + 1,
            final(self).num_states <= old(self).num_states + 13,
            final(self).keeps(*old(self), old(self).num_states as nat),
            final(self).plain_from(old(self).num_states as nat),
            final(self).nfa.has_chain(old(self).num_states, ascii_bytes(k.spelling())),
            final(self).nfa.accepted@[old(self).num_states + k.spelling().len()] == Some(
                AcceptedStateLabel::TokenType { type_: Token::Keyword(k) },
            ),
            final(self).eps0() == old(self).eps0().push(State(old(self).num_states)),
            forall|x: State, a: u8, y: State| #[trigger] final(self).nfa.delta_edge(x, a, y) <==> (old(self).nfa.delta_edge(x, a, y)
                || chain_edge(old(self).num_states, ascii_bytes(k.spelling()), x, a, y)),
            only_end_accepts(
                final(self).nfa.accepted@,
                old(self).num_states,
                old(self).num_states + k.spelling().len() + 1,
                old(self).num_states + k.spelling().len(),
                AcceptedStateLabel::TokenType { type_: Token::Keyword(k) },
            ),
    {
        proof {
            k.lemma_spelling_ascii();
        }
        self.exact_match(k.as_str(), Token::Keyword(k));
    }

    /// Add a separator.
    fn separator(&mut self, sep: Separator)
        requires
            old(self).inv(),
            old(self).num_states + 13 <= STATE_LIMIT,
        ensures
            final(self).inv(),
            final(self).num_states == old(self).num_states + sep.spelling().len() + 1,
            final(self).num_states <= old(self).num_states + 13,
            final(self).keeps(*old(self), old(self).num_states as nat),
            final(self).plain_from(old(self).num_states as nat),
            final(self).nfa.has_chain(old(self).num_states, ascii_bytes(sep.spelling())),
            final(self).nfa.accepted@[old(self).num_states + sep.spelling().len()] == Some(
                AcceptedStateLabel::TokenType { type_: Token::Separator(sep) },
            ),
            final(self).eps0() == old(self).eps0().push(State(old(self).num_states)),
            forall|x: State, a: u8, y: State| #[trigger] final(self).nfa.delta_edge(x, a, y) <==> (old(self).nfa.delta_edge(x, a, y)
                || chain_edge(old(self).num_states, ascii_bytes(sep.spelling()), x, a, y)),
            only_end_accepts(
                final(self).nfa.accepted@,
                old(self).num_states,
                old(self).num_states + sep.spelling().len() + 1,
                old(self).num_states + sep.spelling().len(),
                AcceptedStateLabel::TokenType { type_: Token::Separator(sep) },
            ),
    {
        proof {
            sep.lemma_spelling_ascii();
        }
        self.exact_match(sep.as_str(), Token::Separator(sep));
    }

    /// Add a operator.
    fn operator(&mut self, op: Operator)
        requires
            old(self).inv(),
            old(self).num_states + 13 <= STATE_LIMIT,
        ensures
            final(self).inv(),
            final(self).num_states == old(self).num_states + op.spelling().len() + 1,
            final(self).num_states <= old(self).num_states + 13,
            final(self).keeps(*old(self), old(self).num_states as nat),
            final(self).plain_from(old(self).num_states as nat),
            final(self).nfa.has_chain(old(self).num_states, ascii_bytes(op.spelling())),
            final(self).nfa.accepted@[old(self).num_states + op.spelling().len()] == Some(
                AcceptedStateLabel::TokenType { type_: Token::Operator(op) },
            ),
            final(self).eps0() == old(self).eps0().push(State(old(self).num_states)),
            forall|x: State, a: u8, y: State| #[trigger] final(self).nfa.delta_edge(x, a, y) <==> (old(self).nfa.delta_edge(x, a, y)
                || chain_edge(old(self).num_states, ascii_bytes(op.spelling()), x, a, y)),
            only_end_accepts(
                final(self).nfa.accepted@,
                old(self).num_states,
                old(self).num_states + op.spelling().len() + 1,
                old(self).num_states + op.spelling().len(),
                AcceptedStateLabel::TokenType { type_: Token::Operator(op) },
            ),
    {
        proof {
            op.lemma_spelling_ascii();
        }
        self.exact_match(op.as_str(), Token::Operator(op));
    }

    /// Add every kind of literal.
    fn literals(&mut self)
        requires
            old(self).inv(),
            old(self).num_states + 100 <= STATE_LIMIT,
        ensures
            final(self).inv(),
            final(self).num_states == old(self).num_states + 28,
            final(self).keeps(*old(self), old(self).num_states as nat),
            final(self).eps0() == old(self).eps0().push(st(old(self).num_states, 0)).push(st(old(self).num_states, 2)).push(st(old(self).num_states, 4)).push(st(old(self).num_states, 10)).push(st(old(self).num_states, 15)).push(st(old(self).num_states, 19)).push(st(old(self).num_states, 23)),
            forall|x: State, a: u8, y: State| #[trigger] final(self).nfa.delta_edge(x, a, y) <==> (old(self).nfa.delta_edge(x, a, y)
                || zero_edge(old(self).num_states, x, a, y)
                || non_zero_edge((old(self).num_states + 2) as u32, x, a, y)
                || chain_edge((old(self).num_states + 4) as u32, ascii_bytes("false"@), x, a, y)
                || chain_edge((old(self).num_states + 10) as u32, ascii_bytes("true"@), x, a, y)
                || quoted_edge((old(self).num_states + 15) as u32, 39, x, a, y)
                || quoted_edge((old(self).num_states + 19) as u32, 34, x, a, y)
                || chain_edge((old(self).num_states + 23) as u32, ascii_bytes("null"@), x, a, y)
            ),
            only_end_accepts(final(self).nfa.accepted@, (old(self).num_states + 0) as u32, old(self).num_states + 2, old(self).num_states + 1, AcceptedStateLabel::TokenType { type_: Token::Literal(Literal::Int(0)) }),
            only_end_accepts(final(self).nfa.accepted@, (old(self).num_states + 2) as u32, old(self).num_states + 4, old(self).num_states + 3, AcceptedStateLabel::TokenType { type_: Token::Literal(Literal::Int(55555)) }),
            only_end_accepts(final(self).nfa.accepted@, (old(self).num_states + 4) as u32, old(self).num_states + 10, old(self).num_states + 9, AcceptedStateLabel::TokenType { type_: Token::Literal(Literal::Bool(false)) }),
            only_end_accepts(final(self).nfa.accepted@, (old(self).num_states + 10) as u32, old(self).num_states + 15, old(self).num_states + 14, AcceptedStateLabel::TokenType { type_: Token::Literal(Literal::Bool(true)) }),
            only_end_accepts(final(self).nfa.accepted@, (old(self).num_states + 15) as u32, old(self).num_states + 19, old(self).num_states + 18, AcceptedStateLabel::TokenType { type_: Token::Literal(Literal::Char('?')) }),
            only_end_accepts(final(self).nfa.accepted@, (old(self).num_states + 23) as u32, old(self).num_states + 28, old(self).num_states + 27, AcceptedStateLabel::TokenType { type_: Token::Literal(Literal::Null) }),
            is_string_label_from(final(self).nfa.accepted@, (old(self).num_states + 19) as u32),
    {
        self.ints();
        self.bools();
        self.chars();
        self.strings();
        self.null();
    }

    /// Add integer literals.
    fn ints(&mut self)
        requires
            old(self).inv(),
            old(self).num_states + 4 <= STATE_LIMIT,
        ensures
            final(self).inv(),
            final(self).num_states == old(self).num_states + 4,
            final(self).keeps(*old(self), old(self).num_states as nat),
            final(self).eps0() == old(self).eps0().push(st(old(self).num_states, 0)).push(st(old(self).num_states, 2)),
            forall|x: State, a: u8, y: State| #[trigger] final(self).nfa.delta_edge(x, a, y) <==> (old(self).nfa.delta_edge(x, a, y)
                || zero_edge(old(self).num_states, x, a, y)
                || non_zero_edge((old(self).num_states + 2) as u32, x, a, y)
            ),
            only_end_accepts(final(self).nfa.accepted@, (old(self).num_states + 0) as u32, old(self).num_states + 2, old(self).num_states + 1, AcceptedStateLabel::TokenType { type_: Token::Literal(Literal::Int(0)) }),
            only_end_accepts(final(self).nfa.accepted@, (old(self).num_states + 2) as u32, old(self).num_states + 4, old(self).num_states + 3, AcceptedStateLabel::TokenType { type_: Token::Literal(Literal::Int(55555)) }),
    {
        self.zero();
        self.non_zero();
    }

    /// Add the literal `0`.
    fn zero(&mut self)
        requires
            old(self).inv(),
            old(self).num_states + 2 <= STATE_LIMIT,
        ensures
            final(self).inv(),
            final(self).num_states == old(self).num_states + 2,
            final(self).keeps(*old(self), old(self).num_states as nat),
            final(self).eps0() == old(self).eps0().push(State(old(self).num_states)),
            forall|x: State, a: u8, y: State| #[trigger] final(self).nfa.delta_edge(x, a, y) <==> (old(self).nfa.delta_edge(x, a, y)
                || zero_edge(old(self).num_states, x, a, y)),
            only_end_accepts(final(self).nfa.accepted@, old(self).num_states, old(self).num_states + 2, old(self).num_states + 1, AcceptedStateLabel::TokenType { type_: Token::Literal(Literal::Int(0)) }),
    {
        let start = self.new_start(Ghost(Role::Empty));
        let end = self.new_state(Ghost(Role::Zero));
        proof {
            self.lemma_fresh(end, start.0);
        }
        self.accept(end, AcceptedStateLabel::TokenType { type_: Token::Literal(Literal::Int(0)) });
        self.delta_char(start, '0', end);
    }

    /// Add integer literals that do not start with `0`, such as `10234`. They are never
    /// negative: a minus sign is a token of its own.
    fn non_zero(&mut self)
        requires
            old(self).inv(),
            old(self).num_states + 2 <= STATE_LIMIT,
        ensures
            final(self).inv(),
            final(self).num_states == old(self).num_states + 2,
            final(self).keeps(*old(self), old(self).num_states as nat),
            final(self).eps0() == old(self).eps0().push(State(old(self).num_states)),
            forall|x: State, a: u8, y: State| #[trigger] final(self).nfa.delta_edge(x, a, y) <==> (old(self).nfa.delta_edge(x, a, y)
                || non_zero_edge(old(self).num_states, x, a, y)),
            only_end_accepts(final(self).nfa.accepted@, old(self).num_states, old(self).num_states + 2, old(self).num_states + 1, AcceptedStateLabel::TokenType { type_: Token::Literal(Literal::Int(55555)) }),
    {
        let start = self.new_start(Ghost(Role::Empty));
        let end = self.new_state(Ghost(Role::NonZero));
        proof {
            self.lemma_fresh(end, start.0);
        }
        let filler: u32 = 55555;
        self.accept(end, AcceptedStateLabel::TokenType { type_: Token::Literal(Literal::Int(filler)) });
        self.delta_class(start, SymbolClass::Range(49, 57), end);
        self.delta_class(end, SymbolClass::Range(48, 57), end);
    }

    /// The literals `true` and `false`.
    fn bools(&mut self)
        requires
            old(self).inv(),
            old(self).num_states + 20 <= STATE_LIMIT,
        ensures
            final(self).inv(),
            final(self).num_states == old(self).num_states + 11,
            final(self).keeps(*old(self), old(self).num_states as nat),
            final(self).eps0() == old(self).eps0().push(st(old(self).num_states, 0)).push(st(old(self).num_states, 6)),
            forall|x: State, a: u8, y: State| #[trigger] final(self).nfa.delta_edge(x, a, y) <==> (old(self).nfa.delta_edge(x, a, y)
                || chain_edge(old(self).num_states, ascii_bytes("false"@), x, a, y)
                || chain_edge((old(self).num_states + 6) as u32, ascii_bytes("true"@), x, a, y)
            ),
            only_end_accepts(final(self).nfa.accepted@, (old(self).num_states + 0) as u32, old(self).num_states + 6, old(self).num_states + 5, AcceptedStateLabel::TokenType { type_: Token::Literal(Literal::Bool(false)) }),
            only_end_accepts(final(self).nfa.accepted@, (old(self).num_states + 6) as u32, old(self).num_states + 11, old(self).num_states + 10, AcceptedStateLabel::TokenType { type_: Token::Literal(Literal::Bool(true)) }),
    {
        let f = "false";
        let t = "true";
        proof {
            reveal_strlit("false");
            reveal_strlit("true");
        }
        self.exact_match(f, Token::Literal(Literal::Bool(false)));
        self.exact_match(t, Token::Literal(Literal::Bool(true)));
    }

    /// String literals.
    fn strings(&mut self)
        requires
            old(self).inv(),
            old(self).num_states + 4 <= STATE_LIMIT,
        ensures
            final(self).inv(),
            final(self).num_states == old(self).num_states + 4,
            final(self).keeps(*old(self), old(self).num_states as nat),
            final(self).eps0() == old(self).eps0().push(st(old(self).num_states, 0)),
            forall|x: State, a: u8, y: State| #[trigger] final(self).nfa.delta_edge(x, a, y) <==> (old(self).nfa.delta_edge(x, a, y)
                || quoted_edge(old(self).num_states, 34, x, a, y)
            ),
            is_string_label_from(final(self).nfa.accepted@, old(self).num_states),
    {
        let filler = String::from_str("-*-java-string-literal-*-");
        self.strings_or_chars('"', AcceptedStateLabel::TokenType { type_: Token::Literal(Literal::StringLit(filler)) });
    }

    /// Char literals.
    fn chars(&mut self)
        requires
            old(self).inv(),
            old(self).num_states + 4 <= STATE_LIMIT,
        ensures
            final(self).inv(),
            final(self).num_states == old(self).num_states + 4,
            final(self).keeps(*old(self), old(self).num_states as nat),
            final(self).eps0() == old(self).eps0().push(st(old(self).num_states, 0)),
            forall|x: State, a: u8, y: State| #[trigger] final(self).nfa.delta_edge(x, a, y) <==> (old(self).nfa.delta_edge(x, a, y)
                || quoted_edge(old(self).num_states, 39, x, a, y)
            ),
            only_end_accepts(final(self).nfa.accepted@, (old(self).num_states + 0) as u32, old(self).num_states + 4, old(self).num_states + 3, AcceptedStateLabel::TokenType { type_: Token::Literal(Literal::Char('?')) }),
    {
        let filler = '?';
        self.strings_or_chars('\'', AcceptedStateLabel::TokenType { type_: Token::Literal(Literal::Char(filler)) });
    }

    /// String or char literals, between two `quote`s. A backslash always takes the character
    /// after it along, so an escaped quote does not end the literal; a newline ends it badly.
    fn strings_or_chars(&mut self, quote: char, label: AcceptedStateLabel)
        requires
            old(self).inv(),
            old(self).num_states + 4 <= STATE_LIMIT,
            quote == '"' || quote == '\'',
            accept_ok(Role::QuotedEnd(quote as u8), label),
        ensures
            final(self).inv(),
            final(self).num_states == old(self).num_states + 4,
            final(self).keeps(*old(self), old(self).num_states as nat),
            final(self).eps0() == old(self).eps0().push(State(old(self).num_states)),
            forall|x: State, a: u8, y: State| #[trigger] final(self).nfa.delta_edge(x, a, y) <==> (old(self).nfa.delta_edge(x, a, y)
                || quoted_edge(old(self).num_states, quote as u8, x, a, y)),
            only_end_accepts(final(self).nfa.accepted@, old(self).num_states, old(self).num_states + 4, old(self).num_states + 3, label),
    {
        let start = self.new_start(Ghost(Role::Empty));
        let inner = self.new_state(Ghost(Role::Quoted(quote as u8)));
        // "I've just seen an *odd* number of backslashes."
        let odd_backslash = self.new_state(Ghost(Role::Quoted(quote as u8)));
        let end = self.new_state(Ghost(Role::QuotedEnd(quote as u8)));
        proof {
            self.lemma_fresh(end, start.0);
        }
        self.accept(end, label);
        self.delta_char(start, quote, inner);
        self.delta_char(inner, quote, end);
        self.delta_char(inner, '\\', odd_backslash);
        // Anything but a newline after a backslash.
        self.delta_class(odd_backslash, SymbolClass::AllBut(10, 10, 10), inner);
        // Anything but the quote, a backslash or a newline inside.
        self.delta_class(inner, SymbolClass::AllBut(quote as u8, 92, 10), inner);
    }

    /// The literal `null`.
    fn null(&mut self)
        requires
            old(self).inv(),
            old(self).num_states + 5 <= STATE_LIMIT,
        ensures
            final(self).inv(),
            final(self).num_states == old(self).num_states + 5,
            final(self).keeps(*old(self), old(self).num_states as nat),
            final(self).eps0() == old(self).eps0().push(st(old(self).num_states, 0)),
            forall|x: State, a: u8, y: State| #[trigger] final(self).nfa.delta_edge(x, a, y) <==> (old(self).nfa.delta_edge(x, a, y)
                || chain_edge(old(self).num_states, ascii_bytes("null"@), x, a, y)
            ),
            only_end_accepts(final(self).nfa.accepted@, (old(self).num_states + 0) as u32, old(self).num_states + 5, old(self).num_states + 4, AcceptedStateLabel::TokenType { type_: Token::Literal(Literal::Null) }),
    {
        let s = "null";
        proof {
            reveal_strlit("null");
        }
        self.exact_match(s, Token::Literal(Literal::Null));
    }

    /// Identifiers: a letter, then letters and digits. Registered after keywords and literals,
    /// which win ties against them.
    fn identifiers(&mut self)
        requires
            old(self).inv(),
            old(self).num_states + 2 <= STATE_LIMIT,
        ensures
            final(self).inv(),
            final(self).num_states == old(self).num_states + 2,
            final(self).keeps(*old(self), old(self).num_states as nat),
            final(self).eps0() == old(self).eps0().push(State(old(self).num_states)),
            forall|x: State, a: u8, y: State| #[trigger] final(self).nfa.delta_edge(x, a, y) <==> (old(self).nfa.delta_edge(x, a, y)
                || identifier_edge(old(self).num_states, x, a, y)),
            only_end_accepts(final(self).nfa.accepted@, old(self).num_states, old(self).num_states + 2, old(self).num_states + 1, AcceptedStateLabel::TokenType { type_: Token::Identifier("-*-java-identifier-*-") }),
    {
        let start = self.new_start(Ghost(Role::Empty));
        let end = self.new_state(Ghost(Role::Ident));
        proof {
            self.lemma_fresh(end, start.0);
        }
        let filler = "-*-java-identifier-*-";
        self.accept(end, AcceptedStateLabel::TokenType { type_: Token::Identifier(filler) });
        self.delta_class(start, SymbolClass::Letters, end);
        self.delta_class(end, SymbolClass::Letters, end);
        self.delta_class(end, SymbolClass::Range(48, 57), end);
    }

    /// Comments. Javadoc comments come before plain star comments, to win the tie.
    fn comments(&mut self)
        requires
            old(self).inv(),
            old(self).num_states + 16 <= STATE_LIMIT,
        ensures
            final(self).inv(),
            final(self).num_states == old(self).num_states + 15,
            final(self).keeps(*old(self), old(self).num_states as nat),
            final(self).plain_from(old(self).num_states as nat),
            final(self).eps0() == old(self).eps0().push(st(old(self).num_states, 0)).push(st(old(self).num_states, 4)).push(st(old(self).num_states, 10)),
            forall|x: State, a: u8, y: State| #[trigger] final(self).nfa.delta_edge(x, a, y) <==> (old(self).nfa.delta_edge(x, a, y)
                || line_comment_edge(old(self).num_states, x, a, y)
                || star_comment_edge((old(self).num_states + 4) as u32, true, x, a, y)
                || star_comment_edge((old(self).num_states + 10) as u32, false, x, a, y)
            ),
            only_end_accepts(final(self).nfa.accepted@, (old(self).num_states + 0) as u32, old(self).num_states + 4, old(self).num_states + 3, AcceptedStateLabel::LineComment),
            only_end_accepts(final(self).nfa.accepted@, (old(self).num_states + 4) as u32, old(self).num_states + 10, old(self).num_states + 8, AcceptedStateLabel::JavadocComment),
            only_end_accepts(final(self).nfa.accepted@, (old(self).num_states + 10) as u32, old(self).num_states + 15, old(self).num_states + 14, AcceptedStateLabel::StarComment),
    {
        self.line_comments();
        self.star_comments(StarCommentType::Javadoc);
        self.star_comments(StarCommentType::OneStar);
    }

    /// Line comments: `//`, then anything up to and including the newline.
    fn line_comments(&mut self)
        requires
            old(self).inv(),
            old(self).num_states + 4 <= STATE_LIMIT,
        ensures
            final(self).inv(),
            final(self).num_states == old(self).num_states + 4,
            final(self).keeps(*old(self), old(self).num_states as nat),
            final(self).plain_from(old(self).num_states as nat),
            final(self).eps0() == old(self).eps0().push(State(old(self).num_states)),
            forall|x: State, a: u8, y: State| #[trigger] final(self).nfa.delta_edge(x, a, y) <==> (old(self).nfa.delta_edge(x, a, y)
                || line_comment_edge(old(self).num_states, x, a, y)),
            only_end_accepts(final(self).nfa.accepted@, old(self).num_states, old(self).num_states + 4, old(self).num_states + 3, AcceptedStateLabel::LineComment),
    {
        let start = self.new_start(Ghost(Role::Empty));
        let one_slash = self.new_state(Ghost(Role::OneSlash));
        let two_slash = self.new_state(Ghost(Role::LineBody));
        let end = self.new_state(Ghost(Role::LineEnd));
        proof {
            self.lemma_fresh(end, start.0);
        }
        self.accept(end, AcceptedStateLabel::LineComment);
        self.delta_char(start, '/', one_slash);
        self.delta_char(one_slash, '/', two_slash);
        self.delta_class(two_slash, SymbolClass::AllBut(10, 10, 10), two_slash);
        self.delta_char(two_slash, '\n', end);
    }

    /// Star comments, plain or javadoc: `/*` (or `/**`), then anything, up to `*/`.
    fn star_comments(&mut self, val: StarCommentType)
        requires
            old(self).inv(),
            old(self).num_states + 6 <= STATE_LIMIT,
        ensures
            final(self).inv(),
            final(self).num_states == old(self).num_states + match val {
                StarCommentType::OneStar => 5int,
                StarCommentType::Javadoc => 6int,
            },
            final(self).keeps(*old(self), old(self).num_states as nat),
            final(self).plain_from(old(self).num_states as nat),
            final(self).eps0() == old(self).eps0().push(State(old(self).num_states)),
            forall|x: State, a: u8, y: State| #[trigger] final(self).nfa.delta_edge(x, a, y) <==> (old(self).nfa.delta_edge(x, a, y)
                || star_comment_edge(old(self).num_states, val is Javadoc, x, a, y)),
            only_end_accepts(
                final(self).nfa.accepted@,
                old(self).num_states,
                final(self).num_states as int,
                old(self).num_states + 4,
                if val is Javadoc { AcceptedStateLabel::JavadocComment } else { AcceptedStateLabel::StarComment },
            ),
    {
        let start = self.new_start(Ghost(Role::Empty));
        let slash = self.new_state(Ghost(Role::OneSlash));
        let inner = self.new_state(Ghost(Role::StarOpen));
        let inner_star = self.new_state(Ghost(Role::StarOpenStar));
        let end = self.new_state(Ghost(Role::StarEnd));
        proof {
            self.lemma_fresh(end, start.0);
        }
        let label = match val {
            StarCommentType::OneStar => AcceptedStateLabel::StarComment,
            StarCommentType::Javadoc => AcceptedStateLabel::JavadocComment,
        };
        self.accept(end, label);
        self.delta_char(start, '/', slash);
        match val {
            StarCommentType::OneStar => {
                self.delta_char(slash, '*', inner);
            },
            StarCommentType::Javadoc => {
                // One more star before `inner`.
                let first_star = self.new_state(Ghost(Role::StarOpen));
                self.delta_char(slash, '*', first_star);
                self.delta_char(first_star, '*', inner);
            },
        }
        self.delta_class(inner, SymbolClass::AllBut(42, 42, 42), inner);
        self.delta_char(inner, '*', inner_star);
        self.delta_char(inner_star, '*', inner_star);
        self.delta_class(inner_star, SymbolClass::AllBut(42, 47, 47), inner);
        self.delta_char(inner_star, '/', end);
    }

    /// Whitespace: any non-empty run of space, tab, form feed and newline.
    fn whitespace(&mut self)
        requires
            old(self).inv(),
            old(self).num_states + 2 <= STATE_LIMIT,
        ensures
            final(self).inv(),
            final(self).num_states == old(self).num_states + 2,
            final(self).keeps(*old(self), old(self).num_states as nat),
            final(self).plain_from(old(self).num_states as nat),
            final(self).eps0() == old(self).eps0().push(State(old(self).num_states)),
            forall|x: State, a: u8, y: State| #[trigger] final(self).nfa.delta_edge(x, a, y) <==> (old(self).nfa.delta_edge(x, a, y)
                || whitespace_edge(old(self).num_states, x, a, y)),
            only_end_accepts(final(self).nfa.accepted@, old(self).num_states, old(self).num_states + 2, old(self).num_states + 1, AcceptedStateLabel::Whitespace),
    {
        let start = self.new_start(Ghost(Role::Empty));
        let end = self.new_state(Ghost(Role::WsRun));
        proof {
            self.lemma_fresh(end, start.0);
        }
        self.accept(end, AcceptedStateLabel::Whitespace);
        self.delta_class(start, SymbolClass::Whitespace, end);
        self.delta_class(end, SymbolClass::Whitespace, end);
    }
}

impl NFABuilder {
    /// The role of a state; nothing is known of states that do not exist.
    spec fn role_of(&self, x: State) -> Role {
        if (x.0 as int) < self.roles@.len() {
            self.roles@[x.0 as int]
        } else {
            Role::Any
        }
    }

    /// The roles hold of every input that leads to a state.
    proof fn lemma_roles_hold(&self, s: Seq<u8>)
        requires
            self.inv(),
        ensures
            forall|x: State| #[trigger] self.nfa.reach(s).contains(x) ==> role_lang(self.role_of(x), s),
    {
        let lang = |x: State, t: Seq<u8>| role_lang(self.role_of(x), t);
        let nfa = self.nfa;
        assert forall|x: State, y: State, t: Seq<u8>| #[trigger] nfa.eps_edge(x, y) && #[trigger] lang(x, t) implies lang(y, t) by {
            assert(starts_empty(self.roles@[y.0 as int]));
            let k = choose|k: int| 0 <= k < nfa.epsilon@[x.0 as int]@.len() && nfa.epsilon@[x.0 as int]@[k] == y;
            assert(nfa.epsilon@[x.0 as int]@[k].0 < nfa.accepted@.len());
            assert(x == nfa.init);
            assert(t.len() == 0);
            match self.roles@[y.0 as int] {
                Role::Chain(w, n) => {
                    assert(t =~= w.subrange(0, 0));
                },
                _ => {},
            }
        }
        assert forall|x: State, a: u8, y: State, t: Seq<u8>| #[trigger] nfa.delta_edge(x, a, y) && #[trigger] lang(x, t) implies lang(y, t.push(a)) by {
            let k = choose|k: int| 0 <= k < nfa.delta@[x.0 as int]@.len() && nfa.delta@[x.0 as int]@[k] == (Symbol(a), y);
            assert(nfa.delta@[x.0 as int]@[k].1.0 < nfa.accepted@.len());
            assert(step_ok(self.roles@[x.0 as int], a, self.roles@[y.0 as int]));
            lemma_step_ok(self.roles@[x.0 as int], a, self.roles@[y.0 as int], t);
        }
        assert(lang(nfa.init, Seq::empty()));
        assert(nfa.is_reach_invariant(lang));
        nfa.lemma_reach_invariant(lang, s);
    }

    /// A token that always has the same text is reached only by that text.
    proof fn lemma_words_sound(&self, s: Seq<u8>, x: State, t: Token<'static>)
        requires
            self.inv(),
            self.nfa.reach(s).contains(x),
            self.nfa.label(x) == Some(AcceptedStateLabel::TokenType { type_: t }),
            word_of(t) is Some,
        ensures
            s == word_of(t)->0,
    {
        self.lemma_roles_hold(s);
        assert(accept_ok(self.roles@[x.0 as int], self.nfa.accepted@[x.0 as int]->0));
        match self.roles@[x.0 as int] {
            Role::Chain(w, n) => {
                assert(w.subrange(0, n as int) =~= w);
            },
            _ => {},
        }
    }
}

impl NFABuilder {
    /// Only runs of whitespace lead to a state that accepts whitespace.
    proof fn lemma_whitespace_sound(&self, s: Seq<u8>, x: State)
        requires
            self.inv(),
            self.nfa.reach(s).contains(x),
            self.nfa.label(x) == Some(AcceptedStateLabel::Whitespace),
        ensures
            s.len() >= 1,
            forall|i: int| 0 <= i < s.len() ==> is_whitespace(#[trigger] s[i]),
    {
        self.lemma_roles_hold(s);
        assert(accept_ok(self.roles@[x.0 as int], self.nfa.accepted@[x.0 as int]->0));
    }
}

impl NFABuilder {
    /// Only a whole line comment leads to a state that accepts a line comment.
    proof fn lemma_line_comment_sound(&self, s: Seq<u8>, x: State)
        requires
            self.inv(),
            self.nfa.reach(s).contains(x),
            self.nfa.label(x) == Some(AcceptedStateLabel::LineComment),
        ensures
            s.len() >= 1,
            s.last() == 10,
            is_line_body(s.drop_last()),
    {
        self.lemma_roles_hold(s);
        assert(accept_ok(self.roles@[x.0 as int], self.nfa.accepted@[x.0 as int]->0));
    }
}

impl NFABuilder {
    /// Only `0` and decimal digits that do not start with `0` lead to a state that accepts an
    /// integer.
    proof fn lemma_int_sound(&self, s: Seq<u8>, x: State, n: u32)
        requires
            self.inv(),
            self.nfa.reach(s).contains(x),
            self.nfa.label(x) == Some(AcceptedStateLabel::TokenType { type_: Token::Literal(Literal::Int(n)) }),
        ensures
            s == seq![48u8] || is_canonical_nonzero(s),
    {
        self.lemma_roles_hold(s);
        assert(accept_ok(self.roles@[x.0 as int], self.nfa.accepted@[x.0 as int]->0));
    }
}

impl NFABuilder {
    /// What the role of an accepting state says holds of every input that leads to it, and its
    /// label is one that the role allows.
    proof fn lemma_label_role(&self, s: Seq<u8>, x: State)
        requires
            self.inv(),
            self.nfa.reach(s).contains(x),
            self.nfa.label(x) is Some,
        ensures
            role_lang(self.roles@[x.0 as int], s),
            accept_ok(self.roles@[x.0 as int], self.nfa.label(x)->0),
    {
        self.lemma_roles_hold(s);
        assert(accept_ok(self.roles@[x.0 as int], self.nfa.accepted@[x.0 as int]->0));
    }
}

/// A fixed word never ends with a newline.
proof fn lemma_word_not_newline(role: Role, l: AcceptedStateLabel, s: Seq<u8>)
    requires
        role_lang(role, s),
        accept_ok(role, l),
        s.len() >= 1,
        s[s.len() - 1] == 10,
    ensures
        !(is_letter(s[0])),
{
    match role {
        Role::Chain(w, n) => {
            assert(w.subrange(0, n as int) =~= w);
            match l {
                AcceptedStateLabel::TokenType { type_ } => {
                    match type_ {
                        Token::Keyword(k) => {
                            k.lemma_spelling_ascii();
                        },
                        Token::Separator(k) => {
                            k.lemma_spelling_ascii();
                        },
                        Token::Operator(k) => {
                            k.lemma_spelling_ascii();
                        },
                        _ => {
                            reveal_strlit("true");
                            reveal_strlit("false");
                            reveal_strlit("null");
                        },
                    }
                },
                _ => {},
            }
        },
        _ => {},
    }
}

/// What begins with `"` and is accepted is a string literal.
proof fn lemma_quote_start(role: Role, l: AcceptedStateLabel, s: Seq<u8>)
    requires
        role_lang(role, s),
        accept_ok(role, l),
        s.len() >= 1,
        s[0] == 34,
    ensures
        quoted_by(s, 34),
{
    match role {
        Role::Chain(w, n) => {
            assert(w.subrange(0, n as int) =~= w);
            match l {
                AcceptedStateLabel::TokenType { type_ } => {
                    match type_ {
                        Token::Keyword(k) => {
                            k.lemma_spelling_ascii();
                        },
                        Token::Separator(k) => {
                            k.lemma_spelling_ascii();
                        },
                        Token::Operator(k) => {
                            k.lemma_spelling_ascii();
                        },
                        _ => {
                            reveal_strlit("true");
                            reveal_strlit("false");
                            reveal_strlit("null");
                        },
                    }
                },
                _ => {},
            }
        },
        _ => {},
    }
}

/// What begins with whitespace and is accepted is whitespace.
proof fn lemma_whitespace_start(role: Role, l: AcceptedStateLabel, s: Seq<u8>)
    requires
        role_lang(role, s),
        accept_ok(role, l),
        s.len() >= 1,
        is_whitespace(s[0]),
    ensures
        l == AcceptedStateLabel::Whitespace,
{
    match role {
        Role::Chain(w, n) => {
            assert(w.subrange(0, n as int) =~= w);
            match l {
                AcceptedStateLabel::TokenType { type_ } => {
                    match type_ {
                        Token::Keyword(k) => {
                            k.lemma_spelling_ascii();
                        },
                        Token::Separator(k) => {
                            k.lemma_spelling_ascii();
                        },
                        Token::Operator(k) => {
                            k.lemma_spelling_ascii();
                        },
                        _ => {
                            reveal_strlit("true");
                            reveal_strlit("false");
                            reveal_strlit("null");
                        },
                    }
                },
                _ => {},
            }
        },
        _ => {},
    }
}

/// Every run of whitespace leads to the accepting state of whitespace.
proof fn lemma_whitespace_run_reached(r: &NFA, s: Seq<u8>)
    requires
        is_joos_grammar(r),
        is_whitespace_text(s),
    ensures
        r.reach(s).contains(State(17)),
        r.label(State(17)) == Some(AcceptedStateLabel::Whitespace),
    decreases s.len(),
{
    if s.len() == 1 {
        let w = seq![s[0]];
        assert(w =~= s);
        assert(grammar_start(State(16)));
        assert(r.eps_edge(r.init, State(16)));
        assert(whitespace_edge(16, st(16, 0), w[0], st(16, 1)));
        assert(grammar_edge(st(16, 0), w[0], st(16, 1)));
        assert(r.has_chain(16, w));
        r.lemma_chain_reached(16, w, 1);
        assert(w.subrange(0, 1) =~= w);
    } else {
        let p = s.drop_last();
        assert(is_whitespace_text(p)) by {
            assert forall|i: int| 0 <= i < p.len() implies is_whitespace(#[trigger] p[i]) by {
                assert(p[i] == s[i]);
            }
        }
        lemma_whitespace_run_reached(r, p);
        let a = s.last();
        assert(whitespace_edge(16, st(16, 1), a, st(16, 1)));
        assert(grammar_edge(State(17), a, State(17)));
        assert(r.delta_edge(State(17), a, State(17)));
        assert(r.step(r.reach(p), a).contains(State(17)));
        r.lemma_closure_contains_seed(r.step(r.reach(p), a));
    }
}

/// Every identifier leads to the accepting state of identifiers.
proof fn lemma_identifier_reached(r: &NFA, s: Seq<u8>)
    requires
        is_joos_grammar(r),
        is_identifier_text(s),
    ensures
        r.reach(s).contains(State((identifier_base() + 1) as u32)),
        r.label(State((identifier_base() + 1) as u32)) == Some(AcceptedStateLabel::TokenType { type_: Token::Identifier("-*-java-identifier-*-") }),
    decreases s.len(),
{
    let b = identifier_base() as u32;
    if s.len() == 1 {
        let w = seq![s[0]];
        assert(w =~= s);
        assert(grammar_start(State(b)));
        assert(r.eps_edge(r.init, State(b)));
        assert(identifier_edge(b, st(b, 0), w[0], st(b, 1)));
        assert(grammar_edge(st(b, 0), w[0], st(b, 1)));
        assert(r.has_chain(b, w));
        r.lemma_chain_reached(b, w, 1);
        assert(w.subrange(0, 1) =~= w);
    } else {
        let p = s.drop_last();
        assert(is_identifier_text(p)) by {
            assert forall|i: int| 0 <= i < p.len() implies is_letter(#[trigger] p[i]) || 48 <= p[i] <= 57 by {
                assert(p[i] == s[i]);
            }
        }
        lemma_identifier_reached(r, p);
        let a = s.last();
        assert(is_letter(s[s.len() - 1]) || 48 <= s[s.len() - 1] <= 57);
        assert(identifier_edge(b, st(b, 1), a, st(b, 1)));
        assert(grammar_edge(st(b, 1), a, st(b, 1)));
        assert(r.step(r.reach(p), a).contains(st(b, 1)));
        r.lemma_closure_contains_seed(r.step(r.reach(p), a));
    }
}

/// No state before the identifiers accepts identifiers.
proof fn lemma_no_identifier_below(g: &NFA, x: int)
    requires
        is_joos_grammar(g),
        0 <= x < identifier_base(),
        g.accepted@[x] is Some,
    ensures
        !(g.accepted@[x]->0 is TokenType && g.accepted@[x]->0->type_ is Identifier),
{
    assert(grammar_end(x));
    if block_end(18, keyword_words(), x) {
        let i = choose|i: int| 0 <= i < keyword_words().len() && x == #[trigger] word_start(18, keyword_words(), i) + keyword_words()[i].len();
    } else if block_end(separator_base(), separator_words(), x) {
        let i = choose|i: int| 0 <= i < separator_words().len() && x == #[trigger] word_start(separator_base(), separator_words(), i) + separator_words()[i].len();
    } else if block_end(operator_base(), operator_words(), x) {
        let i = choose|i: int| 0 <= i < operator_words().len() && x == #[trigger] word_start(operator_base(), operator_words(), i) + operator_words()[i].len();
    }
}

/// A lone newline is whitespace.
proof fn proof_whitespace_newline(b: &NFABuilder)
    requires
        b.inv(),
        is_joos_grammar(&b.nfa),
    ensures
        b.nfa.label_of(seq![10u8]) == Some(AcceptedStateLabel::Whitespace),
{
    let r = b.nfa;
    let w = seq![10u8];
    assert(grammar_start(State(16)));
    assert(r.eps_edge(r.init, State(16)));
    assert(whitespace_edge(16, st(16, 0), w[0], st(16, 1)));
    assert(grammar_edge(st(16, 0), w[0], st(16, 1)));
    assert(r.has_chain(16, w));
    r.lemma_chain_reached(16, w, 1);
    assert(w.subrange(0, 1) =~= w);
    assert(r.label(State(17)) == Some(AcceptedStateLabel::Whitespace));
    let c = r.reach(w);
    r.lemma_first_accepting_exists(c, State(17));
    let m = choose|m: State| r.is_first_accepting(c, m);
    r.lemma_first_label_is(c, m);
    b.lemma_label_role(w, m);
    match b.roles@[m.0 as int] {
        Role::Chain(w2, n) => {
            assert(w2.subrange(0, n as int) =~= w2);
            match r.label(m)->0 {
                AcceptedStateLabel::TokenType { type_ } => {
                    match type_ {
                        Token::Keyword(k) => {
                            k.lemma_spelling_ascii();
                        },
                        Token::Separator(k) => {
                            k.lemma_spelling_ascii();
                        },
                        Token::Operator(k) => {
                            k.lemma_spelling_ascii();
                        },
                        _ => {
                            reveal_strlit("true");
                            reveal_strlit("false");
                            reveal_strlit("null");
                        },
                    }
                },
                _ => {},
            }
        },
        _ => {},
    }
}

/// Keeping the edges keeps a chain.
proof fn lemma_chain_kept(new: &NFABuilder, old: NFABuilder, start: u32, w: Seq<u8>)
    requires
        new.keeps(old, 0),
        old.nfa.has_chain(start, w),
        new.nfa.init == old.nfa.init,
    ensures
        new.nfa.has_chain(start, w),
{
    assert forall|i: int| 0 <= i < w.len() implies #[trigger] new.nfa.delta_edge(State((start + i) as u32), w[i], State((start + i + 1) as u32)) by {
        assert(old.nfa.delta_edge(State((start + i) as u32), w[i], State((start + i + 1) as u32)));
    }
    assert(old.nfa.eps_edge(old.nfa.init, State(start)));
}

/// The keyword tokens that reading `w` ends with: a keyword spelled `w`.
pub open spec fn is_keyword_label(l: Option<AcceptedStateLabel>, w: Seq<u8>) -> bool {
    match l {
        Some(AcceptedStateLabel::TokenType { type_: Token::Keyword(k) }) => ascii_bytes(k.spelling()) == w,
        _ => false,
    }
}

/// Tokens that always have the same text (keywords, separators, operators, `true`, `false`,
/// `null`) end only inputs that are that text.
pub open spec fn fixed_words_sound(g: &NFA) -> bool {
    forall|s: Seq<u8>, t: Token<'static>|
        #[trigger] g.label_of(s) == Some(AcceptedStateLabel::TokenType { type_: t }) && #[trigger] word_of(t) is Some ==> s
            == word_of(t)->0
}

/// A line comment matches only `//`, anything but newlines, and a newline.
pub open spec fn line_comments_sound(g: &NFA) -> bool {
    forall|s: Seq<u8>| #[trigger] g.label_of(s) == Some(AcceptedStateLabel::LineComment) ==> {
        &&& s.len() >= 1
        &&& s.last() == 10
        &&& is_line_body(s.drop_last())
    }
}

/// A string literal matches only text between two `"`, a char literal only text between two
/// `'`.
pub open spec fn quoted_literals_sound(g: &NFA) -> bool {
    forall|s: Seq<u8>| match #[trigger] g.label_of(s) {
        Some(AcceptedStateLabel::TokenType { type_: Token::Literal(Literal::StringLit(_)) }) => quoted_by(s, 34),
        Some(AcceptedStateLabel::TokenType { type_: Token::Literal(Literal::Char(_)) }) => quoted_by(s, 39),
        _ => true,
    }
}

/// A star or javadoc comment matches only `/*`, anything, and `*/`.
pub open spec fn star_comments_sound(g: &NFA) -> bool {
    forall|s: Seq<u8>| match #[trigger] g.label_of(s) {
        Some(AcceptedStateLabel::StarComment) => is_star_text(s),
        Some(AcceptedStateLabel::JavadocComment) => is_star_text(s),
        _ => true,
    }
}

/// An integer literal matches only `0` or decimal digits that do not start with `0`.
pub open spec fn int_literals_sound(g: &NFA) -> bool {
    forall|s: Seq<u8>| is_int_label(#[trigger] g.label_of(s)) ==> s == seq![48u8] || is_canonical_nonzero(s)
}

/// `l` is the label of integer literals.
pub open spec fn is_int_label(l: Option<AcceptedStateLabel>) -> bool {
    match l {
        Some(AcceptedStateLabel::TokenType { type_: Token::Literal(Literal::Int(_)) }) => true,
        _ => false,
    }
}

/// No text that begins with a letter and ends with a newline is a token, comment or
/// whitespace.
pub open spec fn newline_ends_no_word(g: &NFA) -> bool {
    forall|s: Seq<u8>| s.len() >= 1 && is_letter(s[0]) && s[s.len() - 1] == 10 ==> #[trigger] g.label_of(s) is None
}

/// A text that begins with `"` is matched only as a whole string literal.
pub open spec fn quote_starts_only_strings(g: &NFA) -> bool {
    forall|s: Seq<u8>| s.len() >= 1 && s[0] == 34 && (#[trigger] g.label_of(s)) is Some ==> quoted_by(s, 34)
}

/// `s` is no keyword, separator, operator, `true`, `false` or `null`.
pub open spec fn is_no_word(s: Seq<u8>) -> bool {
    forall|t: Token<'static>| #[trigger] word_of(t) != Some(s)
}

/// An identifier that is no fixed word is matched as an identifier.
pub open spec fn identifiers_match(g: &NFA) -> bool {
    forall|s: Seq<u8>| is_identifier_text(s) && is_no_word(s) ==> #[trigger] g.label_of(s) == Some(
        AcceptedStateLabel::TokenType { type_: Token::Identifier("-*-java-identifier-*-") },
    )
}

/// Every non-empty run of whitespace is matched as whitespace.
pub open spec fn whitespace_runs_match(g: &NFA) -> bool {
    forall|s: Seq<u8>| is_whitespace_text(s) ==> #[trigger] g.label_of(s) == Some(AcceptedStateLabel::Whitespace)
}

/// `s` is a non-empty run of whitespace.
pub open spec fn is_whitespace_text(s: Seq<u8>) -> bool {
    s.len() >= 1 && forall|i: int| 0 <= i < s.len() ==> is_whitespace(#[trigger] s[i])
}

/// Whitespace matches only non-empty runs of whitespace.
pub open spec fn whitespace_sound(g: &NFA) -> bool {
    forall|s: Seq<u8>| #[trigger] g.label_of(s) == Some(AcceptedStateLabel::Whitespace) ==> {
        &&& s.len() >= 1
        &&& forall|i: int| 0 <= i < s.len() ==> is_whitespace(#[trigger] s[i])
    }
}

/// The spelling of every keyword ends with a keyword spelled the same way: keywords win over
/// identifiers.
pub open spec fn keywords_win(g: &NFA) -> bool {
    forall|k: Keyword| is_keyword_label(#[trigger] g.label_of(ascii_bytes(k.spelling())), ascii_bytes(k.spelling()))
}

/// Growing in two steps is growing.
proof fn lemma_keeps_trans(c: &NFABuilder, b: NFABuilder, a: NFABuilder)
    requires
        c.keeps(b, b.num_states as nat),
        b.keeps(a, a.num_states as nat),
    ensures
        c.keeps(a, a.num_states as nat),
{
    assert forall|x: State, p: u8, y: State| #[trigger] a.nfa.delta_edge(x, p, y) implies c.nfa.delta_edge(x, p, y) by {
        assert(b.nfa.delta_edge(x, p, y));
    }
    assert forall|x: State, y: State| #[trigger] a.nfa.eps_edge(x, y) implies c.nfa.eps_edge(x, y) by {
        assert(b.nfa.eps_edge(x, y));
    }
    assert forall|x: int| 0 <= x < a.num_states implies #[trigger] c.roles@[x] == a.roles@[x] by {
        assert(c.roles@[x] == b.roles@[x]);
    }
    assert forall|x: int| 0 <= x < a.num_states implies #[trigger] c.nfa.accepted@[x] == a.nfa.accepted@[x] by {
        assert(c.nfa.accepted@[x] == b.nfa.accepted@[x]);
    }
}

/// What holds of the states from `b` on still holds after growing plainly.
proof fn lemma_plain_kept(c: &NFABuilder, a: NFABuilder, b: nat)
    requires
        a.plain_from(b),
        c.keeps(a, a.num_states as nat),
        c.plain_from(a.num_states as nat),
    ensures
        c.plain_from(b),
{
    assert forall|x: int| b <= x < c.num_states implies {
        &&& !(#[trigger] c.roles@[x] is Any)
        &&& match c.nfa.accepted@[x] {
            Some(AcceptedStateLabel::TokenType { type_ }) => type_ is Keyword || type_ is Separator || type_ is Operator,
            _ => true,
        }
    } by {
        if x < a.num_states {
            assert(c.roles@[x] == a.roles@[x]);
            assert(c.nfa.accepted@[x] == a.nfa.accepted@[x]);
        }
    }
}

/// Where the chains of the separators begin: after those of the keywords.
pub open spec fn separator_base() -> int {
    18 + block_size(keyword_words()) as int
}

/// Where the chains of the operators begin.
pub open spec fn operator_base() -> int {
    separator_base() + block_size(separator_words()) as int
}

/// Where the literals begin.
pub open spec fn literal_base() -> int {
    operator_base() + block_size(operator_words()) as int
}

/// Where the identifiers begin.
pub open spec fn identifier_base() -> int {
    literal_base() + 28
}

/// The number of states of the grammar's NFA.
pub open spec fn grammar_size() -> int {
    identifier_base() + 2
}

/// Every edge of the grammar's NFA, in registration order: line comments from state 1, javadoc
/// comments from 5, star comments from 11, whitespace from 16, the keywords from 18, the
/// separators, the operators, the literals (`0`, other integers, `false`, `true`, char literals,
/// string literals, `null`), and last the identifiers.
pub open spec fn grammar_edge(x: State, a: u8, y: State) -> bool {
    let l = literal_base();
    ||| line_comment_edge(1, x, a, y)
    ||| star_comment_edge(5, true, x, a, y)
    ||| star_comment_edge(11, false, x, a, y)
    ||| whitespace_edge(16, x, a, y)
    ||| block_edge(18, keyword_words(), x, a, y)
    ||| block_edge(separator_base(), separator_words(), x, a, y)
    ||| block_edge(operator_base(), operator_words(), x, a, y)
    ||| zero_edge(l as u32, x, a, y)
    ||| non_zero_edge((l + 2) as u32, x, a, y)
    ||| chain_edge((l + 4) as u32, ascii_bytes("false"@), x, a, y)
    ||| chain_edge((l + 10) as u32, ascii_bytes("true"@), x, a, y)
    ||| quoted_edge((l + 15) as u32, 39, x, a, y)
    ||| quoted_edge((l + 19) as u32, 34, x, a, y)
    ||| chain_edge((l + 23) as u32, ascii_bytes("null"@), x, a, y)
    ||| identifier_edge(identifier_base() as u32, x, a, y)
}

/// The states where the token classes begin: the targets of the epsilon edges from state 0.
pub open spec fn grammar_start(y: State) -> bool {
    let l = literal_base();
    ||| y == State(1) ||| y == State(5) ||| y == State(11) ||| y == State(16)
    ||| block_start(18, keyword_words(), y)
    ||| block_start(separator_base(), separator_words(), y)
    ||| block_start(operator_base(), operator_words(), y)
    ||| y == st(l as u32, 0) ||| y == st(l as u32, 2) ||| y == st(l as u32, 4) ||| y == st(l as u32, 10)
    ||| y == st(l as u32, 15) ||| y == st(l as u32, 19) ||| y == st(l as u32, 23)
    ||| y == State(identifier_base() as u32)
}

/// The accepting states of the grammar's NFA: where each token class ends.
pub open spec fn grammar_end(x: int) -> bool {
    let l = literal_base();
    ||| x == 4 ||| x == 9 ||| x == 15 ||| x == 17
    ||| block_end(18, keyword_words(), x)
    ||| block_end(separator_base(), separator_words(), x)
    ||| block_end(operator_base(), operator_words(), x)
    ||| x == l + 1 ||| x == l + 3 ||| x == l + 9 ||| x == l + 14 ||| x == l + 18 ||| x == l + 22 ||| x == l + 27
    ||| x == identifier_base() + 1
}

/// `g` is exactly the NFA of the Joos 1W lexical grammar: its edges, its epsilon edges, its
/// accepting states and their labels. Smaller states win ties, so the order above is the
/// priority of the token classes.
pub open spec fn is_joos_grammar(g: &NFA) -> bool {
    let l = literal_base();
    &&& g.wf()
    &&& g.init == State(0)
    &&& g.num_states() == grammar_size()
    &&& forall|x: State, a: u8, y: State| #[trigger] g.delta_edge(x, a, y) <==> grammar_edge(x, a, y)
    &&& forall|x: State, y: State| #[trigger] g.eps_edge(x, y) <==> (x == g.init && grammar_start(y))
    &&& forall|x: int| 0 <= x < grammar_size() ==> ((#[trigger] g.accepted@[x]) is Some <==> grammar_end(x))
    &&& g.accepted@[4] == Some(AcceptedStateLabel::LineComment)
    &&& g.accepted@[9] == Some(AcceptedStateLabel::JavadocComment)
    &&& g.accepted@[15] == Some(AcceptedStateLabel::StarComment)
    &&& g.accepted@[17] == Some(AcceptedStateLabel::Whitespace)
    &&& forall|i: int| 0 <= i < keyword_words().len() ==> g.accepted@[#[trigger] word_start(18, keyword_words(), i)
        + keyword_words()[i].len()] == Some(AcceptedStateLabel::TokenType { type_: Token::Keyword(keyword_seq()[i]) })
    &&& forall|i: int| 0 <= i < separator_words().len() ==> g.accepted@[#[trigger] word_start(separator_base(), separator_words(), i)
        + separator_words()[i].len()] == Some(AcceptedStateLabel::TokenType { type_: Token::Separator(separator_seq()[i]) })
    &&& forall|i: int| 0 <= i < operator_words().len() ==> g.accepted@[#[trigger] word_start(operator_base(), operator_words(), i)
        + operator_words()[i].len()] == Some(AcceptedStateLabel::TokenType { type_: Token::Operator(operator_seq()[i]) })
    &&& g.accepted@[l + 1] == Some(AcceptedStateLabel::TokenType { type_: Token::Literal(Literal::Int(0)) })
    &&& g.accepted@[l + 3] == Some(AcceptedStateLabel::TokenType { type_: Token::Literal(Literal::Int(55555)) })
    &&& g.accepted@[l + 9] == Some(AcceptedStateLabel::TokenType { type_: Token::Literal(Literal::Bool(false)) })
    &&& g.accepted@[l + 14] == Some(AcceptedStateLabel::TokenType { type_: Token::Literal(Literal::Bool(true)) })
    &&& g.accepted@[l + 18] == Some(AcceptedStateLabel::TokenType { type_: Token::Literal(Literal::Char('?')) })
    &&& match g.accepted@[l + 22] {
        Some(AcceptedStateLabel::TokenType { type_: Token::Literal(Literal::StringLit(_)) }) => true,
        _ => false,
    }
    &&& g.accepted@[l + 27] == Some(AcceptedStateLabel::TokenType { type_: Token::Literal(Literal::Null) })
    &&& g.accepted@[identifier_base() + 1] == Some(AcceptedStateLabel::TokenType { type_: Token::Identifier("-*-java-identifier-*-") })
}

/// The chains for the first `i` words of `ws` were added to `pre`, from state `base` on.
spec fn block_built(b: &NFABuilder, pre: NFABuilder, base: int, ws: Seq<Seq<u8>>, i: int) -> bool {
    &&& pre.num_states == base
    &&& b.num_states == base + block_size(ws.take(i))
    &&& b.keeps(pre, pre.num_states as nat)
    &&& b.nfa.init == pre.nfa.init
    &&& forall|x: State, a: u8, y: State| #[trigger] b.nfa.delta_edge(x, a, y) <==> (pre.nfa.delta_edge(x, a, y)
        || block_edge(base, ws.take(i), x, a, y))
    &&& forall|y: State| #[trigger] b.eps0().contains(y) <==> (pre.eps0().contains(y) || block_start(base, ws.take(i), y))
    &&& forall|x: int| base <= x < b.num_states ==> ((#[trigger] b.nfa.accepted@[x]) is Some <==> block_end(base, ws.take(i), x))
}

proof fn lemma_block_built_start(b: &NFABuilder, base: int, ws: Seq<Seq<u8>>)
    requires
        b.num_states == base,
        b.inv(),
    ensures
        block_built(b, *b, base, ws, 0),
{
    assert(ws.take(0) =~= Seq::<Seq<u8>>::empty());
    assert(block_size(ws.take(0)) == 0);
}

/// One more chain extends the block.
proof fn lemma_block_iter(b: &NFABuilder, mid: NFABuilder, pre: NFABuilder, base: int, ws: Seq<Seq<u8>>, i: int)
    requires
        block_built(&mid, pre, base, ws, i),
        0 <= i < ws.len(),
        0 <= base,
        b.keeps(mid, mid.num_states as nat),
        b.nfa.init == mid.nfa.init,
        b.num_states == mid.num_states + ws[i].len() + 1,
        b.eps0() == mid.eps0().push(State(mid.num_states)),
        forall|x: State, a: u8, y: State| #[trigger] b.nfa.delta_edge(x, a, y) <==> (mid.nfa.delta_edge(x, a, y)
            || chain_edge(mid.num_states, ws[i], x, a, y)),
        forall|x: int| mid.num_states <= x < b.num_states ==> ((#[trigger] b.nfa.accepted@[x]) is Some <==> x == mid.num_states + ws[i].len()),
    ensures
        block_built(b, pre, base, ws, i + 1),
{
    lemma_block_size_take(ws, i);
    lemma_block_step(base, ws, i);
    lemma_keeps_trans(b, mid, pre);
    assert(word_start(base, ws, i) == mid.num_states);
    assert forall|y: State| #[trigger] b.eps0().contains(y) <==> (pre.eps0().contains(y) || block_start(base, ws.take(i + 1), y)) by {
        if b.eps0().contains(y) && y != State(mid.num_states) {
            let k = choose|k: int| 0 <= k < b.eps0().len() && b.eps0()[k] == y;
            assert(k < mid.eps0().len());
            assert(mid.eps0()[k] == y);
        }
        if mid.eps0().contains(y) {
            let k = choose|k: int| 0 <= k < mid.eps0().len() && mid.eps0()[k] == y;
            assert(b.eps0()[k] == y);
        }
        if y == State(mid.num_states) {
            assert(b.eps0()[b.eps0().len() - 1] == y);
        }
    }
    assert forall|x: int| base <= x < b.num_states implies ((#[trigger] b.nfa.accepted@[x]) is Some <==> block_end(base, ws.take(i + 1), x)) by {
        assert(block_end(base, ws.take(i + 1), x) <==> (block_end(base, ws.take(i), x) || x == word_start(base, ws, i) + ws[i].len()));
        if x < mid.num_states {
            assert(b.nfa.accepted@[x] == mid.nfa.accepted@[x]);
            assert(mid.nfa.accepted@[x] is Some <==> block_end(base, ws.take(i), x));
        } else {
            assert(block_end(base, ws.take(i), x) ==> x < word_start(base, ws, i));
        }
    }
}

proof fn lemma_push_contains<A>(s: Seq<A>, a: A)
    ensures
        forall|y: A| #[trigger] s.push(a).contains(y) <==> (s.contains(y) || y == a),
{
    assert forall|y: A| #[trigger] s.push(a).contains(y) <==> (s.contains(y) || y == a) by {
        if s.push(a).contains(y) && y != a {
            let k = choose|k: int| 0 <= k < s.push(a).len() && s.push(a)[k] == y;
            assert(k < s.len());
            assert(s[k] == y);
        }
        if s.contains(y) {
            let k = choose|k: int| 0 <= k < s.len() && s[k] == y;
            assert(s.push(a)[k] == y);
        }
        if y == a {
            assert(s.push(a)[s.len() as int] == y);
        }
    }
}

/// The builder's steps, one after the other, make exactly the grammar's NFA.
proof fn lemma_grammar_built(
    r: &NFABuilder,
    s0: NFABuilder,
    s1: NFABuilder,
    s2: NFABuilder,
    s3: NFABuilder,
    s4: NFABuilder,
    s5: NFABuilder,
    s6: NFABuilder,
)
    requires
        r.inv(),
        s0.inv(),
        s0.num_states == 1,
        s0.eps0() == Seq::<State>::empty(),
        s0.nfa.accepted@ == seq![None::<AcceptedStateLabel>],
        forall|x: State, a: u8, y: State| !#[trigger] s0.nfa.delta_edge(x, a, y),
        s1.num_states == 16,
        s1.keeps(s0, 1),
        s1.eps0() == s0.eps0().push(st(1, 0)).push(st(1, 4)).push(st(1, 10)),
        forall|x: State, a: u8, y: State| #[trigger] s1.nfa.delta_edge(x, a, y) <==> (s0.nfa.delta_edge(x, a, y)
            || line_comment_edge(1, x, a, y) || star_comment_edge(5, true, x, a, y) || star_comment_edge(11, false, x, a, y)),
        only_end_accepts(s1.nfa.accepted@, 1, 5, 4, AcceptedStateLabel::LineComment),
        only_end_accepts(s1.nfa.accepted@, 5, 11, 9, AcceptedStateLabel::JavadocComment),
        only_end_accepts(s1.nfa.accepted@, 11, 16, 15, AcceptedStateLabel::StarComment),
        s2.num_states == 18,
        s2.keeps(s1, 16),
        s2.eps0() == s1.eps0().push(State(16)),
        forall|x: State, a: u8, y: State| #[trigger] s2.nfa.delta_edge(x, a, y) <==> (s1.nfa.delta_edge(x, a, y)
            || whitespace_edge(16, x, a, y)),
        only_end_accepts(s2.nfa.accepted@, 16, 18, 17, AcceptedStateLabel::Whitespace),
        block_built(&s3, s2, 18, keyword_words(), 48),
        block_built(&s4, s3, separator_base(), separator_words(), 9),
        block_built(&s5, s4, operator_base(), operator_words(), 37),
        keyword_words().take(48) == keyword_words(),
        separator_words().take(9) == separator_words(),
        operator_words().take(37) == operator_words(),
        forall|j: int| 0 <= j < 48 ==> s3.nfa.accepted@[#[trigger] word_start(18, keyword_words(), j) + keyword_words()[j].len()]
            == Some(AcceptedStateLabel::TokenType { type_: Token::Keyword(keyword_seq()[j]) }),
        forall|j: int| 0 <= j < 9 ==> s4.nfa.accepted@[#[trigger] word_start(separator_base(), separator_words(), j) + separator_words()[j].len()]
            == Some(AcceptedStateLabel::TokenType { type_: Token::Separator(separator_seq()[j]) }),
        forall|j: int| 0 <= j < 37 ==> s5.nfa.accepted@[#[trigger] word_start(operator_base(), operator_words(), j) + operator_words()[j].len()]
            == Some(AcceptedStateLabel::TokenType { type_: Token::Operator(operator_seq()[j]) }),
        s6.num_states == s5.num_states + 28,
        s6.keeps(s5, s5.num_states as nat),
        s6.eps0() == s5.eps0().push(st(s5.num_states, 0)).push(st(s5.num_states, 2)).push(st(s5.num_states, 4)).push(
            st(s5.num_states, 10),
        ).push(st(s5.num_states, 15)).push(st(s5.num_states, 19)).push(st(s5.num_states, 23)),
        forall|x: State, a: u8, y: State| #[trigger] s6.nfa.delta_edge(x, a, y) <==> (s5.nfa.delta_edge(x, a, y)
            || zero_edge(s5.num_states, x, a, y) || non_zero_edge((s5.num_states + 2) as u32, x, a, y)
            || chain_edge((s5.num_states + 4) as u32, ascii_bytes("false"@), x, a, y)
            || chain_edge((s5.num_states + 10) as u32, ascii_bytes("true"@), x, a, y)
            || quoted_edge((s5.num_states + 15) as u32, 39, x, a, y) || quoted_edge((s5.num_states + 19) as u32, 34, x, a, y)
            || chain_edge((s5.num_states + 23) as u32, ascii_bytes("null"@), x, a, y)),
        only_end_accepts(s6.nfa.accepted@, s5.num_states, s5.num_states + 2, s5.num_states + 1, AcceptedStateLabel::TokenType { type_: Token::Literal(Literal::Int(0)) }),
        only_end_accepts(s6.nfa.accepted@, (s5.num_states + 2) as u32, s5.num_states + 4, s5.num_states + 3, AcceptedStateLabel::TokenType { type_: Token::Literal(Literal::Int(55555)) }),
        only_end_accepts(s6.nfa.accepted@, (s5.num_states + 4) as u32, s5.num_states + 10, s5.num_states + 9, AcceptedStateLabel::TokenType { type_: Token::Literal(Literal::Bool(false)) }),
        only_end_accepts(s6.nfa.accepted@, (s5.num_states + 10) as u32, s5.num_states + 15, s5.num_states + 14, AcceptedStateLabel::TokenType { type_: Token::Literal(Literal::Bool(true)) }),
        only_end_accepts(s6.nfa.accepted@, (s5.num_states + 15) as u32, s5.num_states + 19, s5.num_states + 18, AcceptedStateLabel::TokenType { type_: Token::Literal(Literal::Char('?')) }),
        only_end_accepts(s6.nfa.accepted@, (s5.num_states + 23) as u32, s5.num_states + 28, s5.num_states + 27, AcceptedStateLabel::TokenType { type_: Token::Literal(Literal::Null) }),
        is_string_label_from(s6.nfa.accepted@, (s5.num_states + 19) as u32),
        r.num_states == s6.num_states + 2,
        r.keeps(s6, s6.num_states as nat),
        r.eps0() == s6.eps0().push(State(s6.num_states)),
        forall|x: State, a: u8, y: State| #[trigger] r.nfa.delta_edge(x, a, y) <==> (s6.nfa.delta_edge(x, a, y)
            || identifier_edge(s6.num_states, x, a, y)),
        only_end_accepts(r.nfa.accepted@, s6.num_states, s6.num_states + 2, s6.num_states + 1, AcceptedStateLabel::TokenType { type_: Token::Identifier("-*-java-identifier-*-") }),
    ensures
        is_joos_grammar(&r.nfa),
{
    let g = r.nfa;
    let l = literal_base();
    assert(s3.num_states == separator_base());
    assert(s4.num_states == operator_base());
    assert(s5.num_states == l);
    assert(s6.num_states == identifier_base());
    // Every state's label, range by range.
    lemma_keeps_trans(r, s6, s5);
    lemma_keeps_trans(r, s5, s4);
    lemma_keeps_trans(r, s4, s3);
    lemma_keeps_trans(r, s3, s2);
    lemma_keeps_trans(r, s2, s1);
    assert forall|x: int| 0 <= x < grammar_size() implies ((#[trigger] g.accepted@[x]) is Some <==> grammar_end(x)) by {
        if x < 1 {
            assert(g.accepted@[x] == s1.nfa.accepted@[x]);
            assert(s1.nfa.accepted@[x] == s0.nfa.accepted@[x]);
        } else if x < 16 {
            assert(g.accepted@[x] == s1.nfa.accepted@[x]);
        } else if x < 18 {
            assert(g.accepted@[x] == s2.nfa.accepted@[x]);
        } else if x < separator_base() {
            assert(g.accepted@[x] == s3.nfa.accepted@[x]);
            assert(block_end(separator_base(), separator_words(), x) ==> x >= separator_base()) by {
                if block_end(separator_base(), separator_words(), x) {
                    let i = choose|i: int| 0 <= i < separator_words().len() && x == #[trigger] word_start(separator_base(), separator_words(), i) + separator_words()[i].len();
                }
            }
            assert(block_end(operator_base(), operator_words(), x) ==> x >= operator_base()) by {
                if block_end(operator_base(), operator_words(), x) {
                    let i = choose|i: int| 0 <= i < operator_words().len() && x == #[trigger] word_start(operator_base(), operator_words(), i) + operator_words()[i].len();
                }
            }
        } else if x < operator_base() {
            assert(g.accepted@[x] == s4.nfa.accepted@[x]);
            lemma_block_below(18, keyword_words(), x);
            assert(block_end(operator_base(), operator_words(), x) ==> x >= operator_base()) by {
                if block_end(operator_base(), operator_words(), x) {
                    let i = choose|i: int| 0 <= i < operator_words().len() && x == #[trigger] word_start(operator_base(), operator_words(), i) + operator_words()[i].len();
                }
            }
        } else if x < l {
            assert(g.accepted@[x] == s5.nfa.accepted@[x]);
            lemma_block_below(18, keyword_words(), x);
            lemma_block_below(separator_base(), separator_words(), x);
        } else {
            lemma_block_below(18, keyword_words(), x);
            lemma_block_below(separator_base(), separator_words(), x);
            lemma_block_below(operator_base(), operator_words(), x);
            if x < identifier_base() {
                assert(g.accepted@[x] == s6.nfa.accepted@[x]);
            }
        }
    }
    assert forall|i: int| 0 <= i < keyword_words().len() implies g.accepted@[#[trigger] word_start(18, keyword_words(), i)
        + keyword_words()[i].len()] == Some(AcceptedStateLabel::TokenType { type_: Token::Keyword(keyword_seq()[i]) }) by {
        lemma_block_end_below(18, keyword_words(), i);
        assert(g.accepted@[word_start(18, keyword_words(), i) + keyword_words()[i].len()] == s3.nfa.accepted@[word_start(18, keyword_words(), i) + keyword_words()[i].len()]);
    }
    assert forall|i: int| 0 <= i < separator_words().len() implies g.accepted@[#[trigger] word_start(separator_base(), separator_words(), i)
        + separator_words()[i].len()] == Some(AcceptedStateLabel::TokenType { type_: Token::Separator(separator_seq()[i]) }) by {
        lemma_block_end_below(separator_base(), separator_words(), i);
        assert(g.accepted@[word_start(separator_base(), separator_words(), i) + separator_words()[i].len()] == s4.nfa.accepted@[word_start(separator_base(), separator_words(), i) + separator_words()[i].len()]);
    }
    assert forall|i: int| 0 <= i < operator_words().len() implies g.accepted@[#[trigger] word_start(operator_base(), operator_words(), i)
        + operator_words()[i].len()] == Some(AcceptedStateLabel::TokenType { type_: Token::Operator(operator_seq()[i]) }) by {
        lemma_block_end_below(operator_base(), operator_words(), i);
        assert(g.accepted@[word_start(operator_base(), operator_words(), i) + operator_words()[i].len()] == s5.nfa.accepted@[word_start(operator_base(), operator_words(), i) + operator_words()[i].len()]);
    }
    assert(g.accepted@[4] == s1.nfa.accepted@[4]);
    assert(g.accepted@[9] == s1.nfa.accepted@[9]);
    assert(g.accepted@[15] == s1.nfa.accepted@[15]);
    assert(g.accepted@[17] == s2.nfa.accepted@[17]);
    assert(g.accepted@[l + 1] == s6.nfa.accepted@[l + 1]);
    assert(g.accepted@[l + 3] == s6.nfa.accepted@[l + 3]);
    assert(g.accepted@[l + 9] == s6.nfa.accepted@[l + 9]);
    assert(g.accepted@[l + 14] == s6.nfa.accepted@[l + 14]);
    assert(g.accepted@[l + 18] == s6.nfa.accepted@[l + 18]);
    assert(g.accepted@[l + 22] == s6.nfa.accepted@[l + 22]);
    assert(g.accepted@[l + 27] == s6.nfa.accepted@[l + 27]);
    // Edges.
    assert forall|x: State, a: u8, y: State| #[trigger] g.delta_edge(x, a, y) <==> grammar_edge(x, a, y) by {
        assert(r.nfa.delta_edge(x, a, y) <==> (s6.nfa.delta_edge(x, a, y) || identifier_edge(s6.num_states, x, a, y)));
        assert(s6.nfa.delta_edge(x, a, y) <==> (s5.nfa.delta_edge(x, a, y)
            || zero_edge(s5.num_states, x, a, y) || non_zero_edge((s5.num_states + 2) as u32, x, a, y)
            || chain_edge((s5.num_states + 4) as u32, ascii_bytes("false"@), x, a, y)
            || chain_edge((s5.num_states + 10) as u32, ascii_bytes("true"@), x, a, y)
            || quoted_edge((s5.num_states + 15) as u32, 39, x, a, y) || quoted_edge((s5.num_states + 19) as u32, 34, x, a, y)
            || chain_edge((s5.num_states + 23) as u32, ascii_bytes("null"@), x, a, y)));
        assert(s5.nfa.delta_edge(x, a, y) <==> (s4.nfa.delta_edge(x, a, y) || block_edge(operator_base(), operator_words().take(37), x, a, y)));
        assert(s4.nfa.delta_edge(x, a, y) <==> (s3.nfa.delta_edge(x, a, y) || block_edge(separator_base(), separator_words().take(9), x, a, y)));
        assert(s3.nfa.delta_edge(x, a, y) <==> (s2.nfa.delta_edge(x, a, y) || block_edge(18, keyword_words().take(48), x, a, y)));
        assert(s2.nfa.delta_edge(x, a, y) <==> (s1.nfa.delta_edge(x, a, y) || whitespace_edge(16, x, a, y)));
        assert(s1.nfa.delta_edge(x, a, y) <==> (s0.nfa.delta_edge(x, a, y)
            || line_comment_edge(1, x, a, y) || star_comment_edge(5, true, x, a, y) || star_comment_edge(11, false, x, a, y)));
        assert(!s0.nfa.delta_edge(x, a, y));
    }
    // Epsilon edges.
    lemma_push_contains(s0.eps0(), st(1, 0));
    lemma_push_contains(s0.eps0().push(st(1, 0)), st(1, 4));
    lemma_push_contains(s0.eps0().push(st(1, 0)).push(st(1, 4)), st(1, 10));
    lemma_push_contains(s1.eps0(), State(16));
    let e5 = s5.eps0();
    let n5 = s5.num_states;
    lemma_push_contains(e5, st(n5, 0));
    lemma_push_contains(e5.push(st(n5, 0)), st(n5, 2));
    lemma_push_contains(e5.push(st(n5, 0)).push(st(n5, 2)), st(n5, 4));
    lemma_push_contains(e5.push(st(n5, 0)).push(st(n5, 2)).push(st(n5, 4)), st(n5, 10));
    lemma_push_contains(e5.push(st(n5, 0)).push(st(n5, 2)).push(st(n5, 4)).push(st(n5, 10)), st(n5, 15));
    lemma_push_contains(e5.push(st(n5, 0)).push(st(n5, 2)).push(st(n5, 4)).push(st(n5, 10)).push(st(n5, 15)), st(n5, 19));
    lemma_push_contains(e5.push(st(n5, 0)).push(st(n5, 2)).push(st(n5, 4)).push(st(n5, 10)).push(st(n5, 15)).push(st(n5, 19)), st(n5, 23));
    lemma_push_contains(s6.eps0(), State(s6.num_states));
    assert forall|x: State, y: State| #[trigger] g.eps_edge(x, y) <==> (x == g.init && grammar_start(y)) by {
        assert(s0.eps0().contains(y) == false);
        assert(s5.eps0().contains(y) <==> (s4.eps0().contains(y) || block_start(operator_base(), operator_words().take(37), y)));
        assert(s4.eps0().contains(y) <==> (s3.eps0().contains(y) || block_start(separator_base(), separator_words().take(9), y)));
        assert(s3.eps0().contains(y) <==> (s2.eps0().contains(y) || block_start(18, keyword_words().take(48), y)));
        if g.eps_edge(x, y) {
            assert(x == g.init);
        }
        assert(g.eps_edge(g.init, y) <==> r.eps0().contains(y));
    }
}

/// The ends of a block's chains lie in the block.
proof fn lemma_block_below(base: int, ws: Seq<Seq<u8>>, x: int)
    ensures
        block_end(base, ws, x) ==> base <= x < base + block_size(ws),
{
    if block_end(base, ws, x) {
        let i = choose|i: int| 0 <= i < ws.len() && x == #[trigger] word_start(base, ws, i) + ws[i].len();
        lemma_block_end_below(base, ws, i);
    }
}

proof fn lemma_block_end_below(base: int, ws: Seq<Seq<u8>>, i: int)
    requires
        0 <= i < ws.len(),
    ensures
        base <= word_start(base, ws, i) + ws[i].len() < base + block_size(ws),
{
    lemma_block_size_mono(ws, i, ws.len() as int);
    if i + 1 < ws.len() {
        lemma_block_size_mono(ws, i + 1, ws.len() as int);
    }
    lemma_block_size_take(ws, i);
    assert(ws.take(ws.len() as int) =~= ws);
}

/// The NFA for the lexical grammar of Joos 1W.
///
/// Some operators that Joos 1W lacks (such as `>>=`) are tokenized too; a later stage rejects
/// them. Only the initial state has epsilon edges, and neither it nor their targets accept.
/// The spelling of a keyword ends with that keyword, not an identifier; and a token that always
/// has the same text ends no other input.
pub fn nfa() -> (r: NFA)
    ensures
        r.wf(),
        r.init == State(0),
        r.eps_only_from_init_to_silent(),
        keywords_win(&r),
        fixed_words_sound(&r),
        whitespace_sound(&r),
        line_comments_sound(&r),
        int_literals_sound(&r),
        quoted_literals_sound(&r),
        star_comments_sound(&r),
        newline_ends_no_word(&r),
        quote_starts_only_strings(&r),
        whitespace_runs_match(&r),
        identifiers_match(&r),
        r.label_of(seq![10u8]) == Some(AcceptedStateLabel::Whitespace),
        is_joos_grammar(&r),
{
    let mut builder = NFABuilder::new();
    let ghost s0 = builder;
    builder.comments();
    let ghost after_comments = builder;
    builder.whitespace();
    let ghost s2 = builder;
    proof {
        lemma_plain_kept(&builder, after_comments, 1);
        lemma_block_built_start(&builder, 18, keyword_words());
    }
    let ghost mut starts: Seq<u32> = Seq::empty();
    let keywords = all_keywords();
    let mut i: usize = 0;
    while i < keywords.len()
        invariant
            builder.inv(),
            keywords@.len() == 48,
            keywords@ == keyword_seq(),
            i <= 48,
            builder.num_states <= 18 + 13 * i,
            builder.plain_from(1),
            forall|k: Keyword| keywords@.contains(k),
            starts.len() == i,
            forall|j: int| 0 <= j < i ==> #[trigger] keyword_chain_ok(&builder, starts[j], keywords@[j]),
            block_built(&builder, s2, 18, keyword_words(), i as int),
            forall|j: int| 0 <= j < i ==> builder.nfa.accepted@[#[trigger] word_start(18, keyword_words(), j) + keyword_words()[j].len()]
                == Some(AcceptedStateLabel::TokenType { type_: Token::Keyword(keyword_seq()[j]) }),
        decreases keywords@.len() - i,
    {
        let ghost before = builder;
        builder.keyword(keywords[i]);
        proof {
            lemma_plain_kept(&builder, before, 1);
            assert(keyword_words()[i as int] == ascii_bytes(keywords@[i as int].spelling()));
            lemma_block_iter(&builder, before, s2, 18, keyword_words(), i as int);
            assert forall|j: int| 0 <= j < i + 1 implies builder.nfa.accepted@[#[trigger] word_start(18, keyword_words(), j) + keyword_words()[j].len()]
                == Some(AcceptedStateLabel::TokenType { type_: Token::Keyword(keyword_seq()[j]) }) by {
                if j < i {
                    lemma_block_size_mono(keyword_words(), j, i as int);
                    assert(builder.nfa.accepted@[word_start(18, keyword_words(), j) + keyword_words()[j].len()]
                        == before.nfa.accepted@[word_start(18, keyword_words(), j) + keyword_words()[j].len()]);
                }
            }
            starts = starts.push(before.num_states);
            assert forall|j: int| 0 <= j < i + 1 implies #[trigger] keyword_chain_ok(&builder, starts[j], keywords@[j]) by {
                if j < i {
                    assert(keyword_chain_ok(&before, starts[j], keywords@[j]));
                    lemma_keyword_chain_kept(&builder, before, starts[j], keywords@[j]);
                } else {
                    keywords@[j].lemma_spelling_ascii();
                }
            }
        }
        i += 1;
    }
    let ghost s3 = builder;
    proof {
        assert(keyword_words().take(48) =~= keyword_words());
        lemma_block_built_start(&builder, separator_base(), separator_words());
    }
    let separators = all_separators();
    let mut i: usize = 0;
    while i < separators.len()
        invariant
            builder.inv(),
            separators@.len() == 9,
            separators@ == separator_seq(),
            i <= 9,
            builder.num_states <= 18 + 13 * 48 + 13 * i,
            builder.plain_from(1),
            keywords@.len() == 48,
            forall|k: Keyword| keywords@.contains(k),
            starts.len() == 48,
            forall|j: int| 0 <= j < 48 ==> #[trigger] keyword_chain_ok(&builder, starts[j], keywords@[j]),
            block_built(&s3, s2, 18, keyword_words(), 48),
            block_built(&builder, s3, separator_base(), separator_words(), i as int),
            forall|j: int| 0 <= j < i ==> builder.nfa.accepted@[#[trigger] word_start(separator_base(), separator_words(), j) + separator_words()[j].len()]
                == Some(AcceptedStateLabel::TokenType { type_: Token::Separator(separator_seq()[j]) }),
        decreases separators@.len() - i,
    {
        let ghost before = builder;
        builder.separator(separators[i]);
        proof {
            lemma_plain_kept(&builder, before, 1);
            assert(separator_words()[i as int] == ascii_bytes(separators@[i as int].spelling()));
            lemma_block_iter(&builder, before, s3, separator_base(), separator_words(), i as int);
            assert forall|j: int| 0 <= j < i + 1 implies builder.nfa.accepted@[#[trigger] word_start(separator_base(), separator_words(), j) + separator_words()[j].len()]
                == Some(AcceptedStateLabel::TokenType { type_: Token::Separator(separator_seq()[j]) }) by {
                if j < i {
                    lemma_block_size_mono(separator_words(), j, i as int);
                    assert(builder.nfa.accepted@[word_start(separator_base(), separator_words(), j) + separator_words()[j].len()]
                        == before.nfa.accepted@[word_start(separator_base(), separator_words(), j) + separator_words()[j].len()]);
                }
            }
            assert forall|j: int| 0 <= j < 48 implies #[trigger] keyword_chain_ok(&builder, starts[j], keywords@[j]) by {
                assert(keyword_chain_ok(&before, starts[j], keywords@[j]));
                lemma_keyword_chain_kept(&builder, before, starts[j], keywords@[j]);
            }
        }
        i += 1;
    }
    let ghost s4 = builder;
    proof {
        assert(separator_words().take(9) =~= separator_words());
        lemma_block_built_start(&builder, operator_base(), operator_words());
    }
    let operators = all_operators();
    let mut i: usize = 0;
    while i < operators.len()
        invariant
            builder.inv(),
            operators@.len() == 37,
            operators@ == operator_seq(),
            i <= 37,
            builder.num_states <= 18 + 13 * 57 + 13 * i,
            builder.plain_from(1),
            keywords@.len() == 48,
            forall|k: Keyword| keywords@.contains(k),
            starts.len() == 48,
            forall|j: int| 0 <= j < 48 ==> #[trigger] keyword_chain_ok(&builder, starts[j], keywords@[j]),
            block_built(&s3, s2, 18, keyword_words(), 48),
            block_built(&s4, s3, separator_base(), separator_words(), 9),
            block_built(&builder, s4, operator_base(), operator_words(), i as int),
            forall|j: int| 0 <= j < i ==> builder.nfa.accepted@[#[trigger] word_start(operator_base(), operator_words(), j) + operator_words()[j].len()]
                == Some(AcceptedStateLabel::TokenType { type_: Token::Operator(operator_seq()[j]) }),
        decreases operators@.len() - i,
    {
        let ghost before = builder;
        builder.operator(operators[i]);
        proof {
            lemma_plain_kept(&builder, before, 1);
            assert(operator_words()[i as int] == ascii_bytes(operators@[i as int].spelling()));
            lemma_block_iter(&builder, before, s4, operator_base(), operator_words(), i as int);
            assert forall|j: int| 0 <= j < i + 1 implies builder.nfa.accepted@[#[trigger] word_start(operator_base(), operator_words(), j) + operator_words()[j].len()]
                == Some(AcceptedStateLabel::TokenType { type_: Token::Operator(operator_seq()[j]) }) by {
                if j < i {
                    lemma_block_size_mono(operator_words(), j, i as int);
                    assert(builder.nfa.accepted@[word_start(operator_base(), operator_words(), j) + operator_words()[j].len()]
                        == before.nfa.accepted@[word_start(operator_base(), operator_words(), j) + operator_words()[j].len()]);
                }
            }
            assert forall|j: int| 0 <= j < 48 implies #[trigger] keyword_chain_ok(&builder, starts[j], keywords@[j]) by {
                assert(keyword_chain_ok(&before, starts[j], keywords@[j]));
                lemma_keyword_chain_kept(&builder, before, starts[j], keywords@[j]);
            }
        }
        i += 1;
    }
    proof {
        assert(operator_words().take(37) =~= operator_words());
    }
    let ghost plain = builder;
    builder.literals();
    let ghost after_literals = builder;
    // After keywords and literals, which win ties against identifiers.
    builder.identifiers();
    proof {
        lemma_keeps_trans(&builder, after_literals, plain);
        lemma_grammar_built(&builder, s0, after_comments, s2, s3, s4, plain, after_literals);
        let r = builder.nfa;
        assert forall|k: Keyword| is_keyword_label(#[trigger] r.label_of(ascii_bytes(k.spelling())), ascii_bytes(k.spelling())) by {
            assert(keywords@.contains(k));
            let j = choose|j: int| 0 <= j < keywords@.len() && keywords@[j] == k;
            assert(keyword_chain_ok(&plain, starts[j], keywords@[j]));
            lemma_keyword_chain_kept(&builder, plain, starts[j], k);
            lemma_keyword_wins(&builder, plain, starts[j], k);
        }
        assert forall|s: Seq<u8>, t: Token<'static>|
            #[trigger] r.label_of(s) == Some(AcceptedStateLabel::TokenType { type_: t }) && #[trigger] word_of(t) is Some implies s
                == word_of(t)->0 by {
            let c = r.reach(s);
            let m = choose|m: State| r.is_first_accepting(c, m);
            r.lemma_first_label_is(c, m);
            builder.lemma_words_sound(s, m, t);
        }
        assert forall|s: Seq<u8>| #[trigger] r.label_of(s) == Some(AcceptedStateLabel::Whitespace) implies {
            &&& s.len() >= 1
            &&& forall|i: int| 0 <= i < s.len() ==> is_whitespace(#[trigger] s[i])
        } by {
            let c = r.reach(s);
            let m = choose|m: State| r.is_first_accepting(c, m);
            r.lemma_first_label_is(c, m);
            builder.lemma_whitespace_sound(s, m);
        }
        assert forall|s: Seq<u8>| #[trigger] r.label_of(s) == Some(AcceptedStateLabel::LineComment) implies {
            &&& s.len() >= 1
            &&& s.last() == 10
            &&& is_line_body(s.drop_last())
        } by {
            let c = r.reach(s);
            let m = choose|m: State| r.is_first_accepting(c, m);
            r.lemma_first_label_is(c, m);
            builder.lemma_line_comment_sound(s, m);
        }
        assert forall|s: Seq<u8>| match #[trigger] r.label_of(s) {
            Some(AcceptedStateLabel::TokenType { type_: Token::Literal(Literal::StringLit(_)) }) => quoted_by(s, 34),
            Some(AcceptedStateLabel::TokenType { type_: Token::Literal(Literal::Char(_)) }) => quoted_by(s, 39),
            _ => true,
        } by {
            if r.label_of(s) is Some {
                let c = r.reach(s);
                assert(exists|m: State| r.is_first_accepting(c, m));
                let m = choose|m: State| r.is_first_accepting(c, m);
                r.lemma_first_label_is(c, m);
                builder.lemma_label_role(s, m);
            }
        }
        assert forall|s: Seq<u8>| match #[trigger] r.label_of(s) {
            Some(AcceptedStateLabel::StarComment) => is_star_text(s),
            Some(AcceptedStateLabel::JavadocComment) => is_star_text(s),
            _ => true,
        } by {
            if r.label_of(s) is Some {
                let c = r.reach(s);
                assert(exists|m: State| r.is_first_accepting(c, m));
                let m = choose|m: State| r.is_first_accepting(c, m);
                r.lemma_first_label_is(c, m);
                builder.lemma_label_role(s, m);
            }
        }
        assert forall|s: Seq<u8>| s.len() >= 1 && is_letter(s[0]) && s[s.len() - 1] == 10 implies #[trigger] r.label_of(s) is None by {
            if r.label_of(s) is Some {
                let c = r.reach(s);
                let m = choose|m: State| r.is_first_accepting(c, m);
                r.lemma_first_label_is(c, m);
                builder.lemma_label_role(s, m);
                lemma_word_not_newline(builder.roles@[m.0 as int], r.label(m)->0, s);
            }
        }
        proof_whitespace_newline(&builder);
        assert forall|s: Seq<u8>| is_identifier_text(s) && is_no_word(s) implies #[trigger] r.label_of(s) == Some(
            AcceptedStateLabel::TokenType { type_: Token::Identifier("-*-java-identifier-*-") },
        ) by {
            let e = State((identifier_base() + 1) as u32);
            lemma_identifier_reached(&r, s);
            let c = r.reach(s);
            r.lemma_first_accepting_exists(c, e);
            let m = choose|m: State| r.is_first_accepting(c, m);
            r.lemma_first_label_is(c, m);
            builder.lemma_label_role(s, m);
            let role = builder.roles@[m.0 as int];
            match role {
                Role::Chain(w, n) => {
                    assert(w.subrange(0, n as int) =~= w);
                    match r.label(m)->0 {
                        AcceptedStateLabel::TokenType { type_ } => {
                            assert(word_of(type_) != Some(s));
                        },
                        _ => {},
                    }
                },
                _ => {},
            }
            assert(role is Ident);
            assert(m.0 <= e.0);
            assert(m.0 >= identifier_base()) by {
                if m.0 < identifier_base() {
                    lemma_no_identifier_below(&r, m.0 as int);
                }
            }
            if m.0 == identifier_base() {
                assert(!grammar_end(identifier_base())) by {
                    lemma_block_below(18, keyword_words(), identifier_base());
                    lemma_block_below(separator_base(), separator_words(), identifier_base());
                    lemma_block_below(operator_base(), operator_words(), identifier_base());
                }
            }
            assert(m == e);
        }
        assert forall|s: Seq<u8>| is_whitespace_text(s) implies #[trigger] r.label_of(s) == Some(AcceptedStateLabel::Whitespace) by {
            lemma_whitespace_run_reached(&r, s);
            let c = r.reach(s);
            r.lemma_first_accepting_exists(c, State(17));
            let m = choose|m: State| r.is_first_accepting(c, m);
            r.lemma_first_label_is(c, m);
            builder.lemma_label_role(s, m);
            lemma_whitespace_start(builder.roles@[m.0 as int], r.label(m)->0, s);
        }
        assert forall|s: Seq<u8>| s.len() >= 1 && s[0] == 34 && (#[trigger] r.label_of(s)) is Some implies quoted_by(s, 34) by {
            let c = r.reach(s);
            let m = choose|m: State| r.is_first_accepting(c, m);
            r.lemma_first_label_is(c, m);
            builder.lemma_label_role(s, m);
            lemma_quote_start(builder.roles@[m.0 as int], r.label(m)->0, s);
        }
        assert forall|s: Seq<u8>| is_int_label(#[trigger] r.label_of(s)) implies s == seq![48u8] || is_canonical_nonzero(s) by {
            let c = r.reach(s);
            let m = choose|m: State| r.is_first_accepting(c, m);
            r.lemma_first_label_is(c, m);
            let n = r.label_of(s)->0->type_->Literal_0->Int_0;
            builder.lemma_int_sound(s, m, n);
        }
    }
    builder.nfa
}

/// The chain that `keyword` added for `k` from state `start` is there, and ends accepting `k`.
spec fn keyword_chain_ok(b: &NFABuilder, start: u32, k: Keyword) -> bool {
    &&& b.nfa.has_chain(start, ascii_bytes(k.spelling()))
    &&& start + k.spelling().len() < b.num_states
    &&& b.nfa.accepted@[start + k.spelling().len()] == Some(AcceptedStateLabel::TokenType { type_: Token::Keyword(k) })
}

proof fn lemma_keyword_chain_kept(new: &NFABuilder, old: NFABuilder, start: u32, k: Keyword)
    requires
        keyword_chain_ok(&old, start, k),
        new.keeps(old, old.num_states as nat),
        new.nfa.init == old.nfa.init,
    ensures
        keyword_chain_ok(new, start, k),
{
    lemma_chain_kept(new, old, start, ascii_bytes(k.spelling()));
    assert(new.nfa.accepted@[start + k.spelling().len()] == old.nfa.accepted@[start + k.spelling().len()]);
}

/// Reading the spelling of `k` ends with a keyword of that spelling.
proof fn lemma_keyword_wins(b: &NFABuilder, plain: NFABuilder, start: u32, k: Keyword)
    requires
        b.inv(),
        plain.plain_from(1),
        b.keeps(plain, plain.num_states as nat),
        keyword_chain_ok(b, start, k),
        start + k.spelling().len() < plain.num_states,
    ensures
        is_keyword_label(b.nfa.label_of(ascii_bytes(k.spelling())), ascii_bytes(k.spelling())),
{
    let r = b.nfa;
    let w = ascii_bytes(k.spelling());
    let n = w.len() as int;
    k.lemma_spelling_ascii();
    r.lemma_chain_reached(start, w, n);
    assert(w.subrange(0, n) =~= w);
    let e = State((start + n) as u32);
    let c = r.reach(w);
    assert(r.label(e) == Some(AcceptedStateLabel::TokenType { type_: Token::Keyword(k) }));
    r.lemma_first_accepting_exists(c, e);
    let m = choose|m: State| r.is_first_accepting(c, m);
    r.lemma_first_label_is(c, m);
    b.lemma_roles_hold(w);
    assert(role_lang(b.role_of(m), w));
    assert(m.0 <= e.0);
    assert(m.0 != 0) by {
        if m.0 == 0 {
            assert(m == r.init);
        }
    }
    let x = m.0 as int;
    assert(b.roles@[x] == plain.roles@[x]);
    assert(b.nfa.accepted@[x] == plain.nfa.accepted@[x]);
    assert(!(plain.roles@[x] is Any));
    assert(accept_ok(b.roles@[x], b.nfa.accepted@[x]->0));
    assert(w[0] == k.spelling()[0] as u8);
    match b.roles@[x] {
        Role::Chain(w2, n2) => {
            assert(w2.subrange(0, n2 as int) =~= w2);
            assert(w == w2);
            match b.nfa.accepted@[x] {
                Some(AcceptedStateLabel::TokenType { type_: Token::Separator(sep) }) => {
                    sep.lemma_spelling_ascii();
                    assert(ascii_bytes(sep.spelling())[0] == sep.spelling()[0] as u8);
                },
                Some(AcceptedStateLabel::TokenType { type_: Token::Operator(op) }) => {
                    op.lemma_spelling_ascii();
                    assert(ascii_bytes(op.spelling())[0] == op.spelling()[0] as u8);
                },
                _ => {},
            }
        },
        _ => {},
    }
}

} // verus!
