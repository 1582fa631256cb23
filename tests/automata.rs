use joos_lexer::{AcceptedStateLabel, LongestMatch, State, Symbol, DFA, NFA};
use joos_lexer::tokens::TokenOrComment;
use joos_lexer::token_types::Keyword::If;
use joos_lexer::tokenizer::all_positions;
use joos_lexer::tokens::Token::Keyword;

/// A DFA with `n` states, the given edges and accepting states.
fn build_dfa(n: usize, init: usize, edges: &[(usize, char, usize)], accepting: &[usize]) -> DFA {
    let mut delta = vec![vec![None; 128]; n];
    for &(from, c, to) in edges {
        delta[from][c as usize] = Some(to);
    }
    let mut accepted = vec![None; n];
    for &q in accepting {
        accepted[q] = Some(AcceptedStateLabel::TokenType { type_: Keyword(If) });
    }
    DFA { init, accepted, delta }
}

/// This DFA recognizes the language {"a", "ba"}. States: init = 0, b = 1, accept = 2.
fn ab_dfa() -> DFA {
    build_dfa(3, 0, &[(0, 'a', 2), (0, 'b', 1), (1, 'a', 2)], &[2])
}

fn symbols(s: &str) -> Vec<Symbol> {
    s.bytes().map(Symbol::new).collect()
}

fn check(dfa: &DFA, accepted: &[&str], rejected: &[&str]) {
    for s in accepted {
        assert!(dfa.accepts(&symbols(s)), "{}", s);
    }
    for s in rejected {
        assert!(!dfa.accepts(&symbols(s)), "{}", s);
    }
}

#[test]
fn simple_dfa() {
    let dfa = ab_dfa();
    let accepted = vec!["a", "ba"];
    let rejected = vec!["", "b", "aa", "ab", "bb", "bba", "aaaaaba"];
    check(&dfa, &accepted, &rejected);
}

#[test]
fn dfa_simple_dfa_accepts() {
    let dfa = ab_dfa();
    let accepted = vec!["a", "ba"];
    let rejected = vec!["", "b", "aa", "ab", "bb", "bba", "aaaaaba"];
    check(&dfa, &accepted, &rejected);
}

/// The lexemes that the DFA cuts one line into, without the newline after it.
fn tokenize_one_line(dfa: &DFA, line: &str) -> Vec<String> {
    let lines = vec![line];
    let mut positions = all_positions(&lines);
    positions.truncate(line.len());
    let mut out = vec![];
    for elem in dfa.tokenize(&positions).unwrap() {
        match elem {
            TokenOrComment::Token(t) => out.push(t.lexeme.to_string()),
            _ => panic!(),
        }
    }
    out
}

fn munch(dfa: &DFA, line: &str) -> Option<String> {
    let lines = vec![line];
    let mut positions = all_positions(&lines);
    positions.truncate(line.len());
    match dfa.max_munch(&positions, 0) {
        LongestMatch::Match { end, .. } => Some(line[..end].to_string()),
        LongestMatch::NoMatch { .. } => None,
    }
}

#[test]
fn simple_tokenize() {
    let dfa = ab_dfa();
    assert_eq!(Some("a".to_string()), munch(&dfa, "abaaababa"));
    assert_eq!(Some("ba".to_string()), munch(&dfa, "baaababa"));
    let expected = vec!["a", "ba", "a", "a", "ba", "ba"];
    assert_eq!(expected, tokenize_one_line(&dfa, "abaaababa"));
}

#[test]
#[allow(non_snake_case)]
fn tokenize_As_and_Bs() {
    let dfa = ab_dfa();
    let input = "abaaababa";
    let expected = vec!["a", "ba", "a", "a", "ba", "ba"];
    assert_eq!(expected, tokenize_one_line(&dfa, input));
}

#[test]
fn simple_tokenize_fails_on_trailing_b() {
    let dfa = ab_dfa();
    let lines = vec!["abaaababab"];
    let mut positions = all_positions(&lines);
    positions.truncate(10);
    let err = dfa.tokenize(&positions).unwrap_err();
    assert_eq!(9, err.start.col);
}

/// An NFA over named states, numbered in the order given.
fn build_nfa(
    names: &[&str],
    accepted: &[&str],
    delta: &[(&str, char, &[&str])],
    epsilon: &[(&str, &[&str])],
) -> NFA {
    let id = |s: &str| State(names.iter().position(|n| *n == s).unwrap() as u32);
    let n = names.len();
    let mut nfa = NFA {
        init: id(names[0]),
        accepted: vec![None; n],
        delta: vec![vec![]; n],
        epsilon: vec![vec![]; n],
    };
    for a in accepted {
        nfa.accepted[id(a).0 as usize] = Some(AcceptedStateLabel::TokenType { type_: Keyword(If) });
    }
    for &(from, c, tos) in delta {
        for to in tos {
            nfa.delta[id(from).0 as usize].push((Symbol::new(c as u8), id(to)));
        }
    }
    for &(from, tos) in epsilon {
        for to in tos {
            nfa.epsilon[id(from).0 as usize].push(id(to));
        }
    }
    nfa
}

/// This NFA recognizes the language {"a", "ab", "aba"}.
fn simple_nfa() -> NFA {
    build_nfa(
        &["init", "a1", "a2", "ab", "aba"],
        &["a1", "aba"],
        &[("init", 'a', &["a1", "a2"]), ("a2", 'b', &["ab"]), ("ab", 'a', &["aba"])],
        &[("ab", &["a1"])],
    )
}

#[test]
fn nfa_nfa_to_dfa() {
    let nfa = simple_nfa();
    let dfa = nfa.to_dfa();
    let accepted = vec!["a", "ab", "aba"];
    let rejected = vec!["", "b", "aa", "ba", "bb", "bba", "aaaaaba"];
    check(&dfa, &accepted, &rejected);
}

#[test]
fn subset_construction_keeps_language_with_epsilon_cycle() {
    // init -e-> p -e-> q -e-> p; p -x-> acc; q -y-> acc.
    let nfa = build_nfa(
        &["init", "p", "q", "acc"],
        &["acc"],
        &[("p", 'x', &["acc"]), ("q", 'y', &["acc"])],
        &[("init", &["p"]), ("p", &["q"]), ("q", &["p"])],
    );
    let dfa = nfa.to_dfa();
    check(&dfa, &["x", "y"], &["", "xy", "yx", "z", "xx"]);
    assert_eq!(0, dfa.init);
    assert!(dfa.accepted[dfa.init].is_none());
}

#[test]
fn subset_construction_gives_first_label() {
    let mut nfa = build_nfa(
        &["init", "a", "b"],
        &["a", "b"],
        &[("init", 'x', &["a", "b"])],
        &[],
    );
    nfa.accepted[2] = Some(AcceptedStateLabel::Whitespace);
    let dfa = nfa.to_dfa();
    let q = dfa.delta[dfa.init]['x' as usize].unwrap();
    assert_eq!(Some(AcceptedStateLabel::TokenType { type_: Keyword(If) }), dfa.accepted[q]);
}

#[test]
fn grammar_dfa_has_no_empty_match() {
    let nfa = joos_lexer::joos_1w_nfa::nfa();
    let dfa = nfa.to_dfa();
    assert!(dfa.accepted[dfa.init].is_none());
    assert!(!dfa.accepts(&symbols("")));
    assert!(dfa.accepts(&symbols("while")));
    assert!(dfa.accepts(&symbols("/** doc */")));
    assert!(!dfa.accepts(&symbols("\"open")));
}
