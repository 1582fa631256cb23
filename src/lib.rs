//! Lexical analysis for the Joos 1W language: a hand-built NFA for the lexical grammar, the
//! subset construction that turns it into a DFA, and a max-munch scanner driven by that DFA.

pub mod dfa;
pub mod joos_1w_nfa;
pub mod nfa;
pub mod nfa_to_dfa;
pub mod states;
pub mod string_escapes;
pub mod token_types;
pub mod tokenizer;
pub mod tokens;

pub use dfa::{LongestMatch, DFA};
pub use nfa::NFA;
pub use nfa_to_dfa::NfaConverter;
pub use states::{AcceptedStateLabel, State, StateSet, Symbol};
pub use tokenizer::{all_positions, Position, Tokenizer};
