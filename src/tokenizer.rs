//! The tokenizer: compiles the grammar once, then scans lines of source text.

use vstd::prelude::*;
use crate::dfa::{no_match_error, starts_star_comment, decimal_value, is_int_literal, lexeme_of, on_one_line, strip_quotes, token_error, token_resolves_to, DFA};
use crate::string_escapes::unescape;
use crate::joos_1w_nfa::{
    self, ascii_bytes, fixed_words_sound, is_joos_grammar, is_star_text, quoted_by, quoted_literals_sound,
    star_comments_sound, newline_ends_no_word, is_letter, quote_starts_only_strings, whitespace_runs_match,
    is_whitespace_text, identifiers_match, is_identifier_text, is_no_word, int_literals_sound, is_canonical_nonzero, is_int_label,
    is_keyword_label, is_line_body, is_whitespace, keywords_win, line_comments_sound, whitespace_sound,
    word_of,
};
use crate::nfa::NFA;
use crate::states::{AcceptedStateLabel, Symbol};
use crate::token_types::{Keyword, Literal};
use crate::tokens::{Token, TokenError, TokenErrorType, TokenInfo, TokenOrComment};

verus! {

/// A position in the input: a line, its number and a column in it.
#[derive(Debug, Clone, Copy, PartialEq, Eq)]
pub struct Position<'a> {
    /// Does not contain a newline character.
    pub line: &'a str,
    /// Zero-indexed.
    pub line_num: usize,
    /// `0 <= col <= line.len()`; `col == line.len()` stands for the newline that ends the line.
    pub col: usize,
}


impl<'a> Position<'a> {
    /// The line is ASCII and the column lies within it, or just past its end.
    pub open spec fn valid(self) -> bool {
        self.line.is_ascii() && self.col <= self.line@.len()
    }

    /// The symbol at this position: the newline when the column is past the end of the line.
    pub open spec fn spec_symbol(self) -> u8 {
        if self.col >= self.line@.len() {
            10
        } else {
            self.line@[self.col as int] as u8
        }
    }

    /// The symbol at this position. One past the end of the line stands the newline that the
    /// line itself does not hold. A non-ASCII character gives an error that names the first
    /// non-ASCII character of the line.
    pub fn symbol(self) -> (r: Result<Symbol, TokenError<'a>>)
        requires
            self.col <= self.line@.len(),
        ensures
            self.col == self.line@.len() ==> r == Ok::<Symbol, TokenError<'a>>(Symbol(10)),
            self.col < self.line@.len() && is_ascii_char(self.line@[self.col as int]) ==> r == Ok::<
                Symbol,
                TokenError<'a>,
            >(Symbol(self.line@[self.col as int] as u8)),
            self.col < self.line@.len() && !is_ascii_char(self.line@[self.col as int]) ==> r == Err::<
                Symbol,
                TokenError<'a>,
            >(first_non_ascii_error(self.line, self.line_num)),
    {
        if self.col == self.line.unicode_len() {
            return Ok(Symbol::new(10));
        }
        let c = self.line.get_char(self.col);
        if is_ascii_char_exec(c) {
            proof {
                lemma_ascii_byte(c);
            }
            Ok(Symbol::new(c as u8))
        } else {
            proof {
                assert(!vstd::utf8::is_ascii_chars(self.line@)) by {
                    assert(!('\0' <= self.line@[self.col as int] <= '\u{7f}'));
                }
            }
            Err(non_ascii_error(self.line, self.line_num))
        }
    }
}

/// `c` is an ASCII character.
pub open spec fn is_ascii_char(c: char) -> bool {
    '\0' <= c && c <= '\u{7f}'
}

/// `k` is the column of the first non-ASCII character of `line`.
pub open spec fn is_first_non_ascii(line: Seq<char>, k: int) -> bool {
    &&& 0 <= k < line.len()
    &&& !is_ascii_char(line[k])
    &&& forall|j: int| 0 <= j < k ==> is_ascii_char(#[trigger] line[j])
}

/// The error for a line that is not ASCII: it names the first non-ASCII character.
pub open spec fn first_non_ascii_error<'a>(line: &'a str, line_num: usize) -> TokenError<'a> {
    let k = choose|k: int| is_first_non_ascii(line@, k);
    TokenError {
        start: Position { line, line_num, col: k as usize },
        type_: TokenErrorType::NonAsciiChar { c: line@[k] },
    }
}

/// The error for a line that is not ASCII.
fn non_ascii_error<'a>(line: &'a str, line_num: usize) -> (r: TokenError<'a>)
    requires
        !line.is_ascii(),
    ensures
        r == first_non_ascii_error(line, line_num),
{
    let n = line.unicode_len();
    let mut k: usize = 0;
    while k < n && is_ascii_char_exec(line.get_char(k))
        invariant
            n == line@.len(),
            k <= n,
            forall|j: int| 0 <= j < k ==> is_ascii_char(#[trigger] line@[j]),
        decreases n - k,
    {
        k += 1;
    }
    proof {
        if k >= n {
            assert forall|j: int| 0 <= j < line@.len() implies '\0' <= #[trigger] line@[j] <= '\u{7f}' by {
                assert(is_ascii_char(line@[j]));
            }
        }
        assert(is_first_non_ascii(line@, k as int));
        let m = choose|m: int| is_first_non_ascii(line@, m);
        if m < k {
            assert(is_ascii_char(line@[m]));
        } else if m > k {
            assert(is_ascii_char(line@[k as int]));
        }
    }
    TokenError { start: Position { line, line_num, col: k }, type_: TokenErrorType::NonAsciiChar { c: line.get_char(k) } }
}

/// Is `c` an ASCII character?
fn is_ascii_char_exec(c: char) -> (r: bool)
    ensures
        r == is_ascii_char(c),
{
    '\0' <= c && c <= '\u{7f}'
}

/// The symbols at a sequence of positions.
pub open spec fn symbols<'a>(ps: Seq<Position<'a>>) -> Seq<u8> {
    ps.map_values(|p: Position<'a>| p.spec_symbol())
}

/// The positions of one line: every column, and one more for the newline after it.
pub open spec fn spec_line_positions<'a>(line_num: usize, line: &'a str) -> Seq<Position<'a>> {
    Seq::new((line@.len() + 1) as nat, |c: int| Position { line, line_num, col: c as usize })
}

/// The positions of all the lines, one line after the other.
pub open spec fn spec_all_positions<'a>(lines: Seq<&'a str>) -> Seq<Position<'a>>
    decreases lines.len(),
{
    if lines.len() == 0 {
        Seq::empty()
    } else {
        spec_all_positions(lines.drop_last()) + spec_line_positions(
            (lines.len() - 1) as usize,
            lines.last(),
        )
    }
}

/// The positions of one line: every column, and one more for the newline after it.
fn line_positions<'a>(line_num: usize, line: &'a str) -> (r: Vec<Position<'a>>)
    ensures
        r@ == spec_line_positions(line_num, line),
{
    let n = line.unicode_len();
    let mut r: Vec<Position<'a>> = Vec::new();
    let mut col: usize = 0;
    while col < n
        invariant
            n == line@.len(),
            col <= n,
            r@ == spec_line_positions(line_num, line).subrange(0, col as int),
        decreases n - col,
    {
        r.push(Position { line, line_num, col });
        col += 1;
        proof {
            assert(r@ =~= spec_line_positions(line_num, line).subrange(0, col as int));
        }
    }
    r.push(Position { line, line_num, col: n });
    proof {
        assert(r@ =~= spec_line_positions(line_num, line));
    }
    r
}

/// The positions of all the lines, one line after the other, each with its newline.
pub fn all_positions<'a>(lines: &Vec<&'a str>) -> (r: Vec<Position<'a>>)
    ensures
        r@ == spec_all_positions(lines@),
{
    let mut r: Vec<Position<'a>> = Vec::new();
    let mut i: usize = 0;
    while i < lines.len()
        invariant
            i <= lines@.len(),
            r@ == spec_all_positions(lines@.subrange(0, i as int)),
        decreases lines@.len() - i,
    {
        let mut more = line_positions(i, lines[i]);
        r.append(&mut more);
        i += 1;
        proof {
            let pre = lines@.subrange(0, i as int);
            assert(pre.drop_last() =~= lines@.subrange(0, i - 1));
        }
    }
    proof {
        assert(lines@.subrange(0, i as int) =~= lines@);
    }
    r
}

/// `l` is the first of `lines` that is not ASCII.
pub open spec fn is_first_non_ascii_line(lines: Seq<&str>, l: int) -> bool {
    &&& 0 <= l < lines.len()
    &&& !lines[l].is_ascii()
    &&& forall|k: int| 0 <= k < l ==> (#[trigger] lines[k]).is_ascii()
}

/// The tokens of a stream that keeps comments.
pub open spec fn tokens_of<'a>(v: Seq<TokenOrComment<'a>>) -> Seq<TokenInfo<'a>>
    decreases v.len(),
{
    if v.len() == 0 {
        Seq::empty()
    } else {
        let rest = tokens_of(v.drop_last());
        match v.last() {
            TokenOrComment::Token(t) => rest.push(t),
            _ => rest,
        }
    }
}

/// Tokenizer for the Joos 1W language.
#[derive(Debug)]
pub struct Tokenizer {
    dfa: DFA,
}

impl Tokenizer {
    #[verifier::type_invariant]
    spec fn inv(self) -> bool {
        self.wf()
    }

    /// The DFA is well formed, accepts nothing empty, and is the subset construction of the NFA
    /// of the Joos 1W grammar.
    pub closed spec fn wf(&self) -> bool {
        &&& self.dfa.wf()
        &&& self.dfa.label(self.dfa.init as nat) is None
        &&& exists|g: NFA| is_grammar_of(&self.dfa, g)
    }

    /// The compiled DFA.
    pub closed spec fn spec_dfa(&self) -> DFA {
        self.dfa
    }

    /// Compile the NFA for the lexical grammar of Joos 1W into a DFA.
    ///
    /// This is expensive: build one tokenizer and use it for many inputs.
    pub fn new() -> (r: Self)
        ensures
            r.wf(),
            exists|g: NFA| is_grammar_of(&r.spec_dfa(), g),
            r.spec_dfa().wf(),
            r.spec_dfa().label(r.spec_dfa().init as nat) is None,
    {
        let grammar = joos_1w_nfa::nfa();
        let dfa = grammar.to_dfa();
        proof {
            grammar.lemma_no_empty_match();
            let sets = choose|sets: Seq<Set<crate::states::State>>| dfa.is_subset_construction(&grammar, sets);
            assert(dfa.accepted@[0] == grammar.first_label(sets[0]));
            assert(is_grammar_of(&dfa, grammar));
        }
        Tokenizer { dfa }
    }

    /// The compiled DFA accepts nothing empty: its initial state does not accept.
    pub proof fn lemma_no_empty_match(&self)
        requires
            self.wf(),
        ensures
            self.spec_dfa().label(self.spec_dfa().init as nat) is None,
            !self.spec_dfa().accepts_spec(Seq::empty()),
    {
        assert(self.spec_dfa().run(Seq::empty()) == Some(self.spec_dfa().init as nat));
    }

    /// Keywords win over identifiers: the spelling of a keyword ends with a keyword of that
    /// spelling.
    pub proof fn lemma_keyword_priority(&self, k: Keyword)
        requires
            self.wf(),
        ensures
            is_keyword_label(self.spec_dfa().label_of(ascii_bytes(k.spelling())), ascii_bytes(k.spelling())),
    {
        let g = choose|g: NFA| is_grammar_of(&self.dfa, g);
        self.dfa.lemma_subset_construction_equivalent(&g, ascii_bytes(k.spelling()));
    }

    /// A token that always has the same text (a keyword, separator, operator, `true`, `false`
    /// or `null`) is matched only on that text.
    pub proof fn lemma_fixed_words(&self, s: Seq<u8>, t: Token<'static>)
        requires
            self.wf(),
            self.spec_dfa().label_of(s) == Some(AcceptedStateLabel::TokenType { type_: t }),
            word_of(t) is Some,
        ensures
            s == word_of(t)->0,
    {
        let g = choose|g: NFA| is_grammar_of(&self.dfa, g);
        self.dfa.lemma_subset_construction_equivalent(&g, s);
    }

    /// What the scanner drops as whitespace is nothing but whitespace: between the tokens and
    /// comments it keeps, the input holds only spaces, tabs, form feeds and newlines.
    pub proof fn lemma_whitespace_matches(&self, s: Seq<u8>)
        requires
            self.wf(),
            self.spec_dfa().label_of(s) == Some(AcceptedStateLabel::Whitespace),
        ensures
            s.len() >= 1,
            forall|i: int| 0 <= i < s.len() ==> is_whitespace(#[trigger] s[i]),
    {
        let g = choose|g: NFA| is_grammar_of(&self.dfa, g);
        self.dfa.lemma_subset_construction_equivalent(&g, s);
    }

    /// An empty input tokenizes to nothing, without error.
    pub proof fn lemma_empty_input<'a>(&self, r: Result<Seq<TokenOrComment<'a>>, TokenError<'a>>)
        requires
            self.spec_dfa().scans_to(spec_all_positions(Seq::<&'a str>::empty()), 0, r),
        ensures
            r == Ok::<Seq<TokenOrComment<'a>>, TokenError<'a>>(Seq::empty()),
    {
    }

    /// Tokenize the lines, keeping comments and dropping whitespace. A line that is not ASCII
    /// is an error at its first non-ASCII character, found before any scanning.
    pub fn tokenize_keep_comments<'a>(&self, lines: &Vec<&'a str>) -> (r: Result<Vec<TokenOrComment<'a>>, TokenError<'a>>)
        ensures
            (exists|l: int| is_first_non_ascii_line(lines@, l)) ==> {
                let l = choose|l: int| is_first_non_ascii_line(lines@, l);
                r == Err::<Vec<TokenOrComment<'a>>, TokenError<'a>>(first_non_ascii_error(lines@[l], l as usize))
            },
            !(exists|l: int| is_first_non_ascii_line(lines@, l)) ==> match r {
                Ok(v) => self.spec_dfa().scans_to(spec_all_positions(lines@), 0, Ok(v@)),
                Err(e) => self.spec_dfa().scans_to(spec_all_positions(lines@), 0, Err(e)),
            },
            r is Ok ==> tiles(spec_all_positions(lines@), 0, r->Ok_0@),
            r is Ok ==> forall|k: int| 0 <= k < r->Ok_0@.len() && (#[trigger] r->Ok_0@[k]) is Token ==> renders_to_lexeme(
                r->Ok_0@[k]->Token_0,
            ),
    {
        proof {
            use_type_invariant(self);
        }
        let mut i: usize = 0;
        while i < lines.len()
            invariant
                i <= lines@.len(),
                forall|k: int| 0 <= k < i ==> (#[trigger] lines@[k]).is_ascii(),
                forall|k: int| 0 <= k < i ==> (#[trigger] lines@[k])@.len() <= usize::MAX,
            decreases lines@.len() - i,
        {
            let _len = lines[i].unicode_len();
            if !lines[i].is_ascii() {
                proof {
                    assert(is_first_non_ascii_line(lines@, i as int));
                    let l = choose|l: int| is_first_non_ascii_line(lines@, l);
                    if l < i {
                    } else if l > i {
                        assert(lines@[i as int].is_ascii());
                    }
                }
                return Err(non_ascii_error(lines[i], i));
            }
            i += 1;
        }
        let positions = all_positions(lines);
        proof {
            lemma_all_positions_valid(lines@);
            if exists|l: int| is_first_non_ascii_line(lines@, l) {
                let l = choose|l: int| is_first_non_ascii_line(lines@, l);
                assert(lines@[l].is_ascii());
            }
        }
        let r = self.dfa.tokenize(&positions);
        proof {
            if r is Ok {
                assert(plain_lines(lines@));
                self.lemma_transparency(lines@, 0, r->Ok_0@);
                self.lemma_tokens_render_to_lexemes(lines@, 0, r->Ok_0@);
            }
        }
        r
    }

    /// Tokenize the lines, dropping whitespace and comments.
    pub fn tokenize<'a>(&self, lines: &Vec<&'a str>) -> (r: Result<Vec<TokenInfo<'a>>, TokenError<'a>>)
        ensures
            (exists|l: int| is_first_non_ascii_line(lines@, l)) ==> {
                let l = choose|l: int| is_first_non_ascii_line(lines@, l);
                r == Err::<Vec<TokenInfo<'a>>, TokenError<'a>>(first_non_ascii_error(lines@[l], l as usize))
            },
            !(exists|l: int| is_first_non_ascii_line(lines@, l)) ==> match r {
                Ok(t) => exists|v: Seq<TokenOrComment<'a>>| #[trigger] self.spec_dfa().scans_to(spec_all_positions(lines@), 0, Ok(v)) && t@ == tokens_of(v),
                Err(e) => self.spec_dfa().scans_to(spec_all_positions(lines@), 0, Err(e)),
            },
            r is Ok ==> forall|k: int| 0 <= k < r->Ok_0@.len() ==> renders_to_lexeme(#[trigger] r->Ok_0@[k]),
    {
        match self.tokenize_keep_comments(lines) {
            Err(e) => Err(e),
            Ok(elems) => {
                let mut out: Vec<TokenInfo<'a>> = Vec::new();
                let mut i: usize = 0;
                while i < elems.len()
                    invariant
                        i <= elems@.len(),
                        out@ == tokens_of(elems@.subrange(0, i as int)),
                    decreases elems@.len() - i,
                {
                    match &elems[i] {
                        TokenOrComment::Token(t) => {
                            out.push(t.clone_info());
                        },
                        _ => {},
                    }
                    i += 1;
                    proof {
                        assert(elems@.subrange(0, i as int).drop_last() =~= elems@.subrange(0, i - 1));
                    }
                }
                proof {
                    assert(elems@.subrange(0, i as int) =~= elems@);
                    lemma_tokens_of_members(elems@);
                    assert forall|k: int| 0 <= k < out@.len() implies renders_to_lexeme(#[trigger] out@[k]) by {
                        let m = choose|m: int| 0 <= m < elems@.len() && elems@[m] == TokenOrComment::Token(out@[k]);
                        assert(elems@[m] is Token);
                    }
                }
                Ok(out)
            },
        }
    }
}

/// Every position of ASCII lines is valid.
proof fn lemma_all_positions_valid<'a>(lines: Seq<&'a str>)
    requires
        forall|k: int| 0 <= k < lines.len() ==> (#[trigger] lines[k]).is_ascii(),
    ensures
        forall|i: int| 0 <= i < spec_all_positions(lines).len() ==> (#[trigger] spec_all_positions(lines)[i]).valid(),
    decreases lines.len(),
{
    if lines.len() > 0 {
        let pre = lines.drop_last();
        lemma_all_positions_valid(pre);
        let a = spec_all_positions(pre);
        let b = spec_line_positions((lines.len() - 1) as usize, lines.last());
        assert forall|i: int| 0 <= i < spec_all_positions(lines).len() implies (#[trigger] spec_all_positions(lines)[i]).valid() by {
            if i < a.len() {
                assert(spec_all_positions(lines)[i] == a[i]);
            } else {
                assert(spec_all_positions(lines)[i] == b[i - a.len()]);
                assert(lines[lines.len() - 1].is_ascii());
            }
        }
    }
}

/// `dfa` is the subset construction of `g`, and `g` is exactly the NFA of the Joos 1W lexical
/// grammar (`is_joos_grammar`: every edge, epsilon edge, accepting state and label). So the
/// labels that the DFA gives to every input are those of the grammar. Some consequences are
/// stated as well: a keyword's spelling ends with a keyword, and keywords, separators,
/// operators, `true`, `false`, `null`, whitespace, line comments and integer literals are
/// matched only on their own text.
pub open spec fn is_grammar_of(dfa: &DFA, g: NFA) -> bool {
    &&& g.wf()
    &&& is_joos_grammar(&g)
    &&& quoted_literals_sound(&g)
    &&& newline_ends_no_word(&g)
    &&& quote_starts_only_strings(&g)
    &&& whitespace_runs_match(&g)
    &&& identifiers_match(&g)
    &&& g.label_of(seq![10u8]) == Some(AcceptedStateLabel::Whitespace)
    &&& star_comments_sound(&g)
    &&& keywords_win(&g)
    &&& fixed_words_sound(&g)
    &&& whitespace_sound(&g)
    &&& line_comments_sound(&g)
    &&& int_literals_sound(&g)
    &&& dfa.simulates(&g)
}

/// Where the positions of line `l` begin among all positions.
pub open spec fn line_offset<'a>(lines: Seq<&'a str>, l: int) -> int
    decreases l,
{
    if l <= 0 {
        0
    } else {
        line_offset(lines, l - 1) + lines[l - 1]@.len() + 1
    }
}

/// Position `k` of all the positions is column `k - line_offset(l)` of some line `l`.
proof fn lemma_position_at<'a>(lines: Seq<&'a str>, k: int) -> (l: int)
    requires
        0 <= k < spec_all_positions(lines).len(),
        lines.len() <= usize::MAX,
    ensures
        0 <= l < lines.len(),
        line_offset(lines, l) <= k <= line_offset(lines, l) + lines[l]@.len(),
        spec_all_positions(lines)[k] == (Position {
            line: lines[l],
            line_num: l as usize,
            col: (k - line_offset(lines, l)) as usize,
        }),
        spec_all_positions(lines).len() == line_offset(lines, lines.len() as int),
    decreases lines.len(),
{
    lemma_positions_len(lines);
    assert(lines.len() > 0);
    let pre = lines.drop_last();
    let a = spec_all_positions(pre);
    lemma_positions_len(pre);
    lemma_line_offset_prefix(lines, pre, lines.len() - 1);
    if k < a.len() {
        let l = lemma_position_at(pre, k);
        lemma_line_offset_prefix(lines, pre, l);
        l
    } else {
        let l = lines.len() - 1;
        l
    }
}

proof fn lemma_positions_len<'a>(lines: Seq<&'a str>)
    ensures
        spec_all_positions(lines).len() == line_offset(lines, lines.len() as int),
    decreases lines.len(),
{
    if lines.len() > 0 {
        let pre = lines.drop_last();
        lemma_positions_len(pre);
        lemma_line_offset_prefix(lines, pre, lines.len() - 1);
    }
}

proof fn lemma_line_offset_prefix<'a>(lines: Seq<&'a str>, pre: Seq<&'a str>, l: int)
    requires
        lines.len() > 0,
        pre == lines.drop_last(),
        0 <= l <= pre.len(),
    ensures
        line_offset(lines, l) == line_offset(pre, l),
    decreases l,
{
    if l > 0 {
        lemma_line_offset_prefix(lines, pre, l - 1);
        assert(lines[l - 1] == pre[l - 1]);
    }
}

/// Offsets grow with the line.
proof fn lemma_line_offset_mono<'a>(lines: Seq<&'a str>, l1: int, l2: int)
    requires
        0 <= l1 <= l2,
    ensures
        line_offset(lines, l1) + (l2 - l1) <= line_offset(lines, l2),
    decreases l2,
{
    if l2 > l1 {
        lemma_line_offset_mono(lines, l1, l2 - 1);
    }
}

/// Between two positions of one line, the positions are the columns in between.
proof fn lemma_same_line<'a>(lines: Seq<&'a str>, a: int, b: int, k: int)
    requires
        0 <= a <= k <= b < spec_all_positions(lines).len(),
        lines.len() <= usize::MAX,
        forall|l: int| 0 <= l < lines.len() ==> (#[trigger] lines[l])@.len() <= usize::MAX,
        spec_all_positions(lines)[a].line_num == spec_all_positions(lines)[b].line_num,
    ensures
        spec_all_positions(lines)[k].line == spec_all_positions(lines)[a].line,
        spec_all_positions(lines)[k].line_num == spec_all_positions(lines)[a].line_num,
        spec_all_positions(lines)[k].col == spec_all_positions(lines)[a].col + (k - a),
{
    let la = lemma_position_at(lines, a);
    let lb = lemma_position_at(lines, b);
    let lk = lemma_position_at(lines, k);
    assert(la == lb);
    if lk < la {
        lemma_line_offset_mono(lines, lk + 1, la);
        assert(line_offset(lines, lk + 1) == line_offset(lines, lk) + lines[lk]@.len() + 1);
    } else if lk > la {
        lemma_line_offset_mono(lines, la + 1, lk);
        assert(line_offset(lines, la + 1) == line_offset(lines, la) + lines[la]@.len() + 1);
    } else {
        assert(lines[la]@.len() <= usize::MAX);
    }
}

/// Rendering the token gives back its lexeme: the spelling of a keyword, separator, operator,
/// boolean or `null` is its text, an identifier's name is its text, an integer's decimal digits
/// are its text, and a string or char literal is its value between two quotes: its text starts
/// and ends with its quote, and what the text between stands for is the value.
pub open spec fn renders_to_lexeme<'a>(t: TokenInfo<'a>) -> bool {
    let text = ascii_bytes(t.lexeme@);
    match t.val {
        Token::Keyword(k) => text == ascii_bytes(k.spelling()),
        Token::Separator(x) => text == ascii_bytes(x.spelling()),
        Token::Operator(x) => text == ascii_bytes(x.spelling()),
        Token::Literal(Literal::Bool(true)) => text == ascii_bytes("true"@),
        Token::Literal(Literal::Bool(false)) => text == ascii_bytes("false"@),
        Token::Literal(Literal::Null) => text == ascii_bytes("null"@),
        Token::Identifier(name) => name@ == t.lexeme@,
        Token::Literal(Literal::Int(n)) => text == decimal_string(n as nat),
        Token::Literal(Literal::StringLit(v)) => quoted_by(text, 34) && unescape(strip_quotes(t.lexeme@)) == Some(v@),
        Token::Literal(Literal::Char(c)) => quoted_by(text, 39) && unescape(strip_quotes(t.lexeme@)) == Some(seq![c]),
    }
}

/// The decimal digits of `n`, without leading zeros.
pub open spec fn decimal_string(n: nat) -> Seq<u8>
    decreases n,
{
    if n < 10 {
        seq![(48 + n) as u8]
    } else {
        decimal_string(n / 10).push((48 + n % 10) as u8)
    }
}

/// The byte of an ASCII character is its code.
proof fn lemma_ascii_byte(c: char)
    requires
        '\0' <= c <= '\u{7f}',
    ensures
        (c as u8) as nat == c as nat,
{
    vstd::utf8::is_ascii_chars_nat_bound(seq![c]);
    assert(seq![c][0] == c);
}

/// Digits that do not start with `0` have a value of at least 1.
proof fn lemma_canonical_positive(c: Seq<char>)
    requires
        forall|i: int| 0 <= i < c.len() ==> '\0' <= #[trigger] c[i] <= '\u{7f}',
        is_canonical_nonzero(ascii_bytes(c)),
    ensures
        decimal_value(c) >= 1,
    decreases c.len(),
{
    assert(ascii_bytes(c).len() == c.len());
    let p = c.drop_last();
    assert('\0' <= c[c.len() - 1] <= '\u{7f}');
    lemma_ascii_byte(c.last());
    assert(ascii_bytes(c)[c.len() - 1] == c.last() as u8);
    if c.len() > 1 {
        assert(ascii_bytes(p) =~= ascii_bytes(c).drop_last());
        lemma_canonical_positive(p);
    } else {
        assert(ascii_bytes(c)[0] == c[0] as u8);
        assert(49 <= ascii_bytes(c)[0]);
    }
}

/// Rendering the value of a decimal literal without leading zeros gives back its text.
proof fn lemma_decimal_round_trip(c: Seq<char>)
    requires
        forall|i: int| 0 <= i < c.len() ==> '\0' <= #[trigger] c[i] <= '\u{7f}',
        ascii_bytes(c) == seq![48u8] || is_canonical_nonzero(ascii_bytes(c)),
    ensures
        decimal_string(decimal_value(c)) == ascii_bytes(c),
    decreases c.len(),
{
    let b = ascii_bytes(c);
    assert(b.len() == c.len());
    assert(b.len() >= 1);
    let p = c.drop_last();
    let last = c.last();
    assert('\0' <= c[c.len() - 1] <= '\u{7f}');
    lemma_ascii_byte(last);
    assert(b[c.len() - 1] == last as u8);
    assert(48 <= b[c.len() - 1] <= 57);
    let d = (last as nat - '0' as nat) as nat;
    assert(48 <= last as nat <= 57);
    assert(d < 10);
    if c.len() == 1 {
        assert(p.len() == 0);
        assert(decimal_value(p) == 0);
        assert(decimal_value(c) == decimal_value(p) * 10 + d);
        assert(decimal_value(c) == d);
        assert(decimal_string(d) =~= b);
    } else {
        assert(ascii_bytes(p) =~= b.drop_last());
        assert(is_canonical_nonzero(b));
        assert(is_canonical_nonzero(ascii_bytes(p)));
        lemma_decimal_round_trip(p);
        lemma_canonical_positive(p);
        let q = decimal_value(p);
        let v = decimal_value(c);
        assert(v == q * 10 + d);
        assert(v / 10 == q && v % 10 == d) by (nonlinear_arith)
            requires
                v == q * 10 + d,
                d < 10,
        ;
        assert(v >= 10) by (nonlinear_arith)
            requires
                v == q * 10 + d,
                q >= 1,
        ;
        assert(decimal_string(v) =~= b);
    }
}

impl Tokenizer {
    /// Every token that the tokenizer produces renders back to its lexeme: keywords,
    /// separators, operators, booleans and `null` are spelled as in the source, and an
    /// identifier's name is its text.
    #[verifier::rlimit(80)]
    pub proof fn lemma_tokens_render_to_lexemes<'a>(&self, lines: Seq<&'a str>, i: int, v: Seq<TokenOrComment<'a>>)
        requires
            self.wf(),
            plain_lines(lines),
            self.spec_dfa().scans_to(spec_all_positions(lines), i, Ok(v)),
        ensures
            forall|k: int| 0 <= k < v.len() && (#[trigger] v[k]) is Token ==> renders_to_lexeme(v[k]->Token_0),
        decreases spec_all_positions(lines).len() - i,
    {
        let ps = spec_all_positions(lines);
        let dfa = self.spec_dfa();
        let syms = symbols(ps);
        if 0 <= i < ps.len() {
            let j = dfa.longest_match(syms, i)->0;
            let label = dfa.label_of(syms.subrange(i, j))->0;
            match label {
                AcceptedStateLabel::Whitespace => {
                    self.lemma_tokens_render_to_lexemes(lines, j, v);
                },
                AcceptedStateLabel::TokenType { type_ } => {
                    let rest = v.drop_first();
                    self.lemma_tokens_render_to_lexemes(lines, j, rest);
                    let t = v[0]->Token_0;
                    assert(token_resolves_to(type_, ps[i], ps[j - 1], t));
                    assert(token_error(type_, ps[i], ps[j - 1]) is None);
                    assert(on_one_line(ps[i], ps[j - 1]));
                    if type_ is Literal && type_->Literal_0 is Char {
                        let u = unescape(strip_quotes(lexeme_of(ps[i], ps[j - 1])))->0;
                        assert(u =~= seq![u[0]]);
                    }
                    if word_of(type_) is Some || type_ is Literal {
                        lemma_same_line(lines, i, j - 1, j - 1);
                        let lex = lexeme_of(ps[i], ps[j - 1]);
                        assert(ps[j - 1].col == ps[i].col + (j - 1 - i));
                        assert(lex.len() == j - i);
                        assert forall|m: int| 0 <= m < j - i implies syms.subrange(i, j)[m] == ascii_bytes(lex)[m] by {
                            lemma_same_line(lines, i, j - 1, i + m);
                            let p = ps[i + m];
                            assert(p.col == ps[i].col + m);
                            assert(p.line == ps[i].line);
                            assert(p.col < p.line@.len());
                            assert(syms[i + m] == p.spec_symbol());
                            assert(lex[m] == ps[i].line@[ps[i].col + m]);
                        }
                        assert(syms.subrange(i, j) =~= ascii_bytes(lex));
                        if word_of(type_) is Some {
                            self.lemma_fixed_words(syms.subrange(i, j), type_);
                        } else if type_->Literal_0 is StringLit || type_->Literal_0 is Char {
                            self.lemma_quoted_matches(syms.subrange(i, j));
                        } else {
                            self.lemma_int_matches(syms.subrange(i, j));
                            let l = lemma_position_at(lines, i);
                            assert(ps[i].line == lines[l]);
                            assert forall|m: int| 0 <= m < lex.len() implies '\0' <= #[trigger] lex[m] <= '\u{7f}' by {
                                assert(lex[m] == lines[l]@[ps[i].col + m]);
                            }
                            lemma_decimal_round_trip(lex);
                            assert(is_int_literal(lex));
                        }
                    }
                    assert forall|k: int| 0 <= k < v.len() && (#[trigger] v[k]) is Token implies renders_to_lexeme(v[k]->Token_0) by {
                        if k > 0 {
                            assert(v[k] == rest[k - 1]);
                        }
                    }
                },
                _ => {
                    let rest = v.drop_first();
                    self.lemma_tokens_render_to_lexemes(lines, j, rest);
                    assert forall|k: int| 0 <= k < v.len() && (#[trigger] v[k]) is Token implies renders_to_lexeme(v[k]->Token_0) by {
                        if k > 0 {
                            assert(v[k] == rest[k - 1]);
                        }
                    }
                },
            }
        }
    }
}

/// The symbols of `ps[i..j]`.
pub open spec fn piece<'a>(ps: Seq<Position<'a>>, i: int, j: int) -> Seq<u8> {
    symbols(ps).subrange(i, j)
}

/// `ps[i..j]` is the text of `el`: a token's lexeme, a line comment (`//`, anything but
/// newlines, and the newline that ends it), or a star comment (`/*`, anything, `*/`) from its
/// start to its last position.
pub open spec fn is_span_of<'a>(ps: Seq<Position<'a>>, i: int, j: int, el: TokenOrComment<'a>) -> bool {
    match el {
        TokenOrComment::Token(t) => t.start == ps[i] && ascii_bytes(t.lexeme@) == piece(ps, i, j),
        TokenOrComment::LineComment { start } => {
            &&& start == ps[i]
            &&& piece(ps, i, j).len() >= 1
            &&& piece(ps, i, j).last() == 10
            &&& is_line_body(piece(ps, i, j).drop_last())
        },
        TokenOrComment::StarComment { start, end_inclusive } => {
            &&& start == ps[i]
            &&& end_inclusive == ps[j - 1]
            &&& is_star_text(piece(ps, i, j))
        },
    }
}

/// `ps[i..]` falls, in order, into runs of whitespace and the texts of the elements of `v`.
pub open spec fn tiles<'a>(ps: Seq<Position<'a>>, i: int, v: Seq<TokenOrComment<'a>>) -> bool
    decreases ps.len() - i,
{
    if i < 0 || i >= ps.len() {
        v.len() == 0
    } else {
        exists|j: int|
            #![trigger piece(ps, i, j)]
            i < j <= ps.len() && ((is_whitespace_run(piece(ps, i, j)) && tiles(ps, j, v)) || (v.len() > 0
                && is_span_of(ps, i, j, v[0]) && tiles(ps, j, v.drop_first())))
    }
}

/// A non-empty run of whitespace.
pub open spec fn is_whitespace_run(s: Seq<u8>) -> bool {
    s.len() >= 1 && forall|i: int| 0 <= i < s.len() ==> is_whitespace(#[trigger] s[i])
}

/// ASCII lines whose lengths fit in memory, as those of any input.
pub open spec fn plain_lines<'a>(lines: Seq<&'a str>) -> bool {
    &&& lines.len() <= usize::MAX
    &&& forall|l: int| 0 <= l < lines.len() ==> (#[trigger] lines[l])@.len() <= usize::MAX
    &&& forall|l: int| 0 <= l < lines.len() ==> (#[trigger] lines[l]).is_ascii()
}

impl Tokenizer {
    /// An integer literal is matched only on `0` or on decimal digits that do not start with
    /// `0`.
    pub proof fn lemma_int_matches(&self, s: Seq<u8>)
        requires
            self.wf(),
            is_int_label(self.spec_dfa().label_of(s)),
        ensures
            s == seq![48u8] || is_canonical_nonzero(s),
    {
        let g = choose|g: NFA| is_grammar_of(&self.dfa, g);
        self.dfa.lemma_subset_construction_equivalent(&g, s);
    }

    /// A string literal is matched only on text between two `"`, a char literal only on text
    /// between two `'`.
    pub proof fn lemma_quoted_matches(&self, s: Seq<u8>)
        requires
            self.wf(),
        ensures
            match self.spec_dfa().label_of(s) {
                Some(AcceptedStateLabel::TokenType { type_: Token::Literal(Literal::StringLit(_)) }) => quoted_by(s, 34),
                Some(AcceptedStateLabel::TokenType { type_: Token::Literal(Literal::Char(_)) }) => quoted_by(s, 39),
                _ => true,
            },
    {
        let g = choose|g: NFA| is_grammar_of(&self.dfa, g);
        self.dfa.lemma_subset_construction_equivalent(&g, s);
    }

    /// A star or javadoc comment is matched only on `/*`, anything, and `*/`.
    pub proof fn lemma_star_matches(&self, s: Seq<u8>)
        requires
            self.wf(),
        ensures
            match self.spec_dfa().label_of(s) {
                Some(AcceptedStateLabel::StarComment) => is_star_text(s),
                Some(AcceptedStateLabel::JavadocComment) => is_star_text(s),
                _ => true,
            },
    {
        let g = choose|g: NFA| is_grammar_of(&self.dfa, g);
        self.dfa.lemma_subset_construction_equivalent(&g, s);
    }

    /// A line comment is matched only on `//`, anything but newlines, and a newline.
    pub proof fn lemma_line_comment_matches(&self, s: Seq<u8>)
        requires
            self.wf(),
            self.spec_dfa().label_of(s) == Some(AcceptedStateLabel::LineComment),
        ensures
            s.len() >= 1,
            s.last() == 10,
            is_line_body(s.drop_last()),
    {
        let g = choose|g: NFA| is_grammar_of(&self.dfa, g);
        self.dfa.lemma_subset_construction_equivalent(&g, s);
    }

    /// Nothing is lost or added: the input falls, in order, into runs of whitespace and the
    /// texts of the tokens and comments that the tokenizer keeps, so that they rebuild the input
    /// byte for byte.
    #[verifier::rlimit(60)]
    pub proof fn lemma_transparency<'a>(&self, lines: Seq<&'a str>, i: int, v: Seq<TokenOrComment<'a>>)
        requires
            self.wf(),
            plain_lines(lines),
            0 <= i,
            self.spec_dfa().scans_to(spec_all_positions(lines), i, Ok(v)),
        ensures
            tiles(spec_all_positions(lines), i, v),
        decreases spec_all_positions(lines).len() - i,
    {
        let ps = spec_all_positions(lines);
        let dfa = self.spec_dfa();
        let syms = symbols(ps);
        if i < ps.len() {
            let j = dfa.longest_match(syms, i)->0;
            let label = dfa.label_of(syms.subrange(i, j))->0;
            assert(piece(ps, i, j) == syms.subrange(i, j));
            match label {
                AcceptedStateLabel::Whitespace => {
                    self.lemma_transparency(lines, j, v);
                    self.lemma_whitespace_matches(syms.subrange(i, j));
                    assert(is_whitespace_run(piece(ps, i, j)));
                },
                AcceptedStateLabel::TokenType { type_ } => {
                    let rest = v.drop_first();
                    self.lemma_transparency(lines, j, rest);
                    let t = v[0]->Token_0;
                    assert(token_resolves_to(type_, ps[i], ps[j - 1], t));
                    assert(on_one_line(ps[i], ps[j - 1]));
                    lemma_same_line(lines, i, j - 1, j - 1);
                    let lex = lexeme_of(ps[i], ps[j - 1]);
                    assert(lex.len() == j - i);
                    assert forall|m: int| 0 <= m < j - i implies syms.subrange(i, j)[m] == ascii_bytes(lex)[m] by {
                        lemma_same_line(lines, i, j - 1, i + m);
                        let p = ps[i + m];
                        assert(p.col == ps[i].col + m);
                        assert(p.line == ps[i].line);
                        assert(p.col < p.line@.len());
                        assert(syms[i + m] == p.spec_symbol());
                        assert(lex[m] == ps[i].line@[ps[i].col + m]);
                    }
                    assert(syms.subrange(i, j) =~= ascii_bytes(lex));
                    assert(is_span_of(ps, i, j, v[0]));
                },
                AcceptedStateLabel::LineComment => {
                    let rest = v.drop_first();
                    self.lemma_transparency(lines, j, rest);
                    self.lemma_line_comment_matches(syms.subrange(i, j));
                    assert(is_span_of(ps, i, j, v[0]));
                },
                _ => {
                    let rest = v.drop_first();
                    self.lemma_transparency(lines, j, rest);
                    self.lemma_star_matches(syms.subrange(i, j));
                    assert(is_span_of(ps, i, j, v[0]));
                },
            }
        }
    }
}

/// Every token of `tokens_of(v)` is a token element of `v`.
proof fn lemma_tokens_of_members<'a>(v: Seq<TokenOrComment<'a>>)
    ensures
        forall|k: int| 0 <= k < tokens_of(v).len() ==> exists|m: int| 0 <= m < v.len() && v[m] == TokenOrComment::Token(
            #[trigger] tokens_of(v)[k],
        ),
    decreases v.len(),
{
    if v.len() > 0 {
        let p = v.drop_last();
        lemma_tokens_of_members(p);
        assert forall|k: int| 0 <= k < tokens_of(v).len() implies exists|m: int| 0 <= m < v.len() && v[m] == TokenOrComment::Token(
            #[trigger] tokens_of(v)[k],
        ) by {
            if k < tokens_of(p).len() {
                assert(tokens_of(v)[k] == tokens_of(p)[k]);
                let m = choose|m: int| 0 <= m < p.len() && p[m] == TokenOrComment::Token(tokens_of(p)[k]);
                assert(v[m] == p[m]);
            } else {
                assert(v[v.len() - 1] == TokenOrComment::Token(tokens_of(v)[k]));
            }
        }
    }
}

/// `t` is the keyword token of the line `line`: a keyword spelled as `k`, for the whole line.
pub open spec fn is_keyword_token<'a>(t: TokenInfo<'a>, k: Keyword, line: &'a str) -> bool {
    &&& t.start == (Position { line, line_num: 0, col: 0 })
    &&& t.lexeme@ == line@
    &&& match t.val {
        Token::Keyword(k2) => ascii_bytes(k2.spelling()) == ascii_bytes(k.spelling()),
        _ => false,
    }
}

impl Tokenizer {
    /// No text that begins with a letter and ends with a newline is matched.
    pub proof fn lemma_newline_ends_no_word(&self, s: Seq<u8>)
        requires
            self.wf(),
            s.len() >= 1,
            is_letter(s[0]),
            s[s.len() - 1] == 10,
        ensures
            self.spec_dfa().label_of(s) is None,
    {
        let g = choose|g: NFA| is_grammar_of(&self.dfa, g);
        self.dfa.lemma_subset_construction_equivalent(&g, s);
    }

    /// A lone newline is whitespace.
    pub proof fn lemma_newline_is_whitespace(&self)
        requires
            self.wf(),
        ensures
            self.spec_dfa().label_of(seq![10u8]) == Some(AcceptedStateLabel::Whitespace),
    {
        let g = choose|g: NFA| is_grammar_of(&self.dfa, g);
        self.dfa.lemma_subset_construction_equivalent(&g, seq![10u8]);
    }

    /// A newline as the last position is dropped as whitespace.
    proof fn lemma_last_newline<'a>(&self, ps: Seq<Position<'a>>, n: int, r: Result<Seq<TokenOrComment<'a>>, TokenError<'a>>)
        requires
            self.wf(),
            ps.len() == n + 1,
            0 <= n,
            ps[n].spec_symbol() == 10,
            self.spec_dfa().scans_to(ps, n, r),
        ensures
            r == Ok::<Seq<TokenOrComment<'a>>, TokenError<'a>>(Seq::empty()),
    {
        let dfa = self.spec_dfa();
        let syms = symbols(ps);
        let nl = syms.subrange(n, n + 1);
        assert(nl =~= seq![10u8]);
        self.lemma_newline_is_whitespace();
        assert(dfa.is_longest_match(syms, n, n + 1));
        dfa.lemma_longest_match_is(syms, n, n + 1);
        assert(!starts_star_comment(ps, n));
        assert(dfa.scans_to(ps, n + 1, r));
    }

    /// A keyword alone on a line is one token, a keyword spelled as the line: it wins over the
    /// identifier of the same spelling, and the newline after it is whitespace.
    #[verifier::rlimit(100)]
    pub proof fn lemma_keyword_line<'a>(&self, k: Keyword, line: &'a str, r: Result<Seq<TokenOrComment<'a>>, TokenError<'a>>)
        requires
            self.wf(),
            line@ == k.spelling(),
            self.spec_dfa().scans_to(spec_all_positions(seq![line]), 0, r),
        ensures
            r is Ok,
            r->Ok_0.len() == 1,
            r->Ok_0[0] is Token,
            is_keyword_token(r->Ok_0[0]->Token_0, k, line),
    {
        let lines = seq![line];
        let ps = spec_all_positions(lines);
        assert(lines.drop_last() =~= Seq::<&'a str>::empty());
        assert(spec_all_positions(lines.drop_last()) == Seq::<Position<'a>>::empty());
        assert(lines.last() == line);
        assert(ps == Seq::<Position<'a>>::empty() + spec_line_positions(0, line));
        assert(ps =~= spec_line_positions(0, line));
        let dfa = self.spec_dfa();
        let n = line@.len() as int;
        k.lemma_spelling_ascii();
        let syms = symbols(ps);
        let w = ascii_bytes(k.spelling());
        assert(syms.subrange(0, n) =~= w);
        assert(syms[n] == 10);
        self.lemma_keyword_priority(k);
        assert(syms.subrange(0, n + 1) =~= syms);
        assert(is_letter(syms[0]));
        self.lemma_newline_ends_no_word(syms);
        assert(dfa.is_longest_match(syms, 0, n));
        dfa.lemma_longest_match_is(syms, 0, n);
        assert(!starts_star_comment(ps, 0));
        assert(lexeme_of(ps[0], ps[n - 1]) =~= line@);
        match r {
            Ok(v) => {
                assert(dfa.scans_to(ps, n, Ok(v.drop_first())));
                self.lemma_last_newline(ps, n, Ok(v.drop_first()));
                assert(v.drop_first().len() == 0);
            },
            Err(e) => {
                assert(dfa.scans_to(ps, n, Err(e)));
                self.lemma_last_newline(ps, n, Err(e));
            },
        }
    }
}

impl Tokenizer {
    /// A text that begins with `"` is matched only as a whole string literal.
    pub proof fn lemma_quote_matches(&self, s: Seq<u8>)
        requires
            self.wf(),
            s.len() >= 1,
            s[0] == 34,
            self.spec_dfa().label_of(s) is Some,
        ensures
            quoted_by(s, 34),
    {
        let g = choose|g: NFA| is_grammar_of(&self.dfa, g);
        self.dfa.lemma_subset_construction_equivalent(&g, s);
    }

    /// A line that opens a string literal with `"` and holds no other `"` is an unclosed string
    /// literal, reported at the quote.
    #[verifier::rlimit(100)]
    pub proof fn lemma_unclosed_string<'a>(&self, line: &'a str, r: Result<Seq<TokenOrComment<'a>>, TokenError<'a>>)
        requires
            self.wf(),
            1 <= line@.len() <= usize::MAX,
            line@[0] as u8 == 34,
            forall|i: int| 1 <= i < line@.len() ==> (#[trigger] line@[i]) as u8 != 34,
            self.spec_dfa().scans_to(spec_all_positions(seq![line]), 0, r),
        ensures
            r == Err::<Seq<TokenOrComment<'a>>, TokenError<'a>>(TokenError {
                start: Position { line, line_num: 0, col: 0 },
                type_: TokenErrorType::UnclosedStringLit,
            }),
    {
        let lines = seq![line];
        let ps = spec_all_positions(lines);
        assert(lines.drop_last() =~= Seq::<&'a str>::empty());
        assert(spec_all_positions(lines.drop_last()) == Seq::<Position<'a>>::empty());
        assert(lines.last() == line);
        assert(ps == Seq::<Position<'a>>::empty() + spec_line_positions(0, line));
        assert(ps =~= spec_line_positions(0, line));
        let dfa = self.spec_dfa();
        let n = line@.len() as int;
        let syms = symbols(ps);
        assert(syms[0] == 34);
        assert forall|j: int| !#[trigger] dfa.is_match(syms, 0, j) by {
            if dfa.is_match(syms, 0, j) {
                let t = syms.subrange(0, j);
                assert(t[0] == 34);
                self.lemma_quote_matches(t);
                assert(t[t.len() - 1] == syms[j - 1]);
                assert(syms[j - 1] == ps[j - 1].spec_symbol());
                assert(ps[j - 1].col == j - 1);
                if j - 1 < n {
                    assert(j - 1 >= 1);
                    assert(syms[j - 1] == line@[j - 1] as u8);
                } else {
                    assert(syms[j - 1] == 10);
                }
            }
        }
        assert(!(exists|j: int| dfa.is_longest_match(syms, 0, j)));
        assert(dfa.longest_match(syms, 0) is None);
        assert(r == Err::<Seq<TokenOrComment<'a>>, TokenError<'a>>(no_match_error(ps, 0, dfa.dead_point(syms, 0))));
    }
}

impl Tokenizer {
    /// A single empty line tokenizes to nothing, without error: its newline is whitespace.
    pub proof fn lemma_empty_line<'a>(&self, line: &'a str, r: Result<Seq<TokenOrComment<'a>>, TokenError<'a>>)
        requires
            self.wf(),
            line@.len() == 0,
            self.spec_dfa().scans_to(spec_all_positions(seq![line]), 0, r),
        ensures
            r == Ok::<Seq<TokenOrComment<'a>>, TokenError<'a>>(Seq::empty()),
    {
        let lines = seq![line];
        let ps = spec_all_positions(lines);
        assert(lines.drop_last() =~= Seq::<&'a str>::empty());
        assert(spec_all_positions(lines.drop_last()) == Seq::<Position<'a>>::empty());
        assert(lines.last() == line);
        assert(ps == Seq::<Position<'a>>::empty() + spec_line_positions(0, line));
        assert(ps =~= spec_line_positions(0, line));
        self.lemma_last_newline(ps, 0, r);
    }
}

impl Tokenizer {
    /// Every non-empty run of whitespace is matched as whitespace.
    pub proof fn lemma_whitespace_run_matches(&self, s: Seq<u8>)
        requires
            self.wf(),
            is_whitespace_text(s),
        ensures
            self.spec_dfa().label_of(s) == Some(AcceptedStateLabel::Whitespace),
    {
        let g = choose|g: NFA| is_grammar_of(&self.dfa, g);
        self.dfa.lemma_subset_construction_equivalent(&g, s);
    }

    /// A line of only spaces, tabs and form feeds tokenizes to nothing, without error.
    #[verifier::rlimit(100)]
    pub proof fn lemma_whitespace_line<'a>(&self, line: &'a str, r: Result<Seq<TokenOrComment<'a>>, TokenError<'a>>)
        requires
            self.wf(),
            line@.len() <= usize::MAX,
            forall|i: int| 0 <= i < line@.len() ==> is_whitespace(#[trigger] line@[i] as u8),
            self.spec_dfa().scans_to(spec_all_positions(seq![line]), 0, r),
        ensures
            r == Ok::<Seq<TokenOrComment<'a>>, TokenError<'a>>(Seq::empty()),
    {
        let lines = seq![line];
        let ps = spec_all_positions(lines);
        assert(lines.drop_last() =~= Seq::<&'a str>::empty());
        assert(spec_all_positions(lines.drop_last()) == Seq::<Position<'a>>::empty());
        assert(lines.last() == line);
        assert(ps == Seq::<Position<'a>>::empty() + spec_line_positions(0, line));
        assert(ps =~= spec_line_positions(0, line));
        let dfa = self.spec_dfa();
        let n = line@.len() as int;
        let syms = symbols(ps);
        assert forall|i: int| 0 <= i < syms.len() implies is_whitespace(#[trigger] syms[i]) by {
            assert(syms[i] == ps[i].spec_symbol());
            assert(ps[i].col == i);
            if i < n {
                assert(syms[i] == line@[i] as u8);
            }
        }
        assert(syms.subrange(0, n + 1) =~= syms);
        self.lemma_whitespace_run_matches(syms);
        assert(dfa.is_longest_match(syms, 0, n + 1));
        dfa.lemma_longest_match_is(syms, 0, n + 1);
        assert(!starts_star_comment(ps, 0));
        assert(dfa.scans_to(ps, n + 1, r));
    }
}

impl Tokenizer {
    /// An identifier that is no fixed word is matched as an identifier.
    pub proof fn lemma_identifier_matches(&self, s: Seq<u8>)
        requires
            self.wf(),
            is_identifier_text(s),
            is_no_word(s),
        ensures
            self.spec_dfa().label_of(s) == Some(AcceptedStateLabel::TokenType { type_: Token::Identifier("-*-java-identifier-*-") }),
    {
        let g = choose|g: NFA| is_grammar_of(&self.dfa, g);
        self.dfa.lemma_subset_construction_equivalent(&g, s);
    }

    /// An identifier alone on a line, that is no keyword or other fixed word, is one identifier
    /// token for the whole line: the longest match, not a keyword followed by the rest.
    #[verifier::rlimit(100)]
    pub proof fn lemma_identifier_line<'a>(&self, line: &'a str, r: Result<Seq<TokenOrComment<'a>>, TokenError<'a>>)
        requires
            self.wf(),
            line@.len() <= usize::MAX,
            is_identifier_text(ascii_bytes(line@)),
            is_no_word(ascii_bytes(line@)),
            self.spec_dfa().scans_to(spec_all_positions(seq![line]), 0, r),
        ensures
            r is Ok,
            r->Ok_0.len() == 1,
            r->Ok_0[0] is Token,
            r->Ok_0[0]->Token_0.start == (Position { line, line_num: 0, col: 0 }),
            r->Ok_0[0]->Token_0.lexeme@ == line@,
            match r->Ok_0[0]->Token_0.val {
                Token::Identifier(name) => name@ == line@,
                _ => false,
            },
    {
        let lines = seq![line];
        let ps = spec_all_positions(lines);
        assert(lines.drop_last() =~= Seq::<&'a str>::empty());
        assert(spec_all_positions(lines.drop_last()) == Seq::<Position<'a>>::empty());
        assert(lines.last() == line);
        assert(ps == Seq::<Position<'a>>::empty() + spec_line_positions(0, line));
        assert(ps =~= spec_line_positions(0, line));
        let dfa = self.spec_dfa();
        let n = line@.len() as int;
        let syms = symbols(ps);
        let w = ascii_bytes(line@);
        assert forall|i: int| 0 <= i < n implies #[trigger] syms[i] == w[i] by {
            assert(syms[i] == ps[i].spec_symbol());
            assert(ps[i].col == i);
        }
        assert(syms.subrange(0, n) =~= w);
        assert(syms[n] == 10);
        self.lemma_identifier_matches(w);
        assert(syms.subrange(0, n + 1) =~= syms);
        assert(is_letter(syms[0]));
        self.lemma_newline_ends_no_word(syms);
        assert(dfa.is_longest_match(syms, 0, n));
        dfa.lemma_longest_match_is(syms, 0, n);
        assert(!starts_star_comment(ps, 0));
        assert(lexeme_of(ps[0], ps[n - 1]) =~= line@);
        match r {
            Ok(v) => {
                assert(dfa.scans_to(ps, n, Ok(v.drop_first())));
                self.lemma_last_newline(ps, n, Ok(v.drop_first()));
                assert(v.drop_first().len() == 0);
            },
            Err(e) => {
                assert(dfa.scans_to(ps, n, Err(e)));
                self.lemma_last_newline(ps, n, Err(e));
            },
        }
    }
}

} // verus!


