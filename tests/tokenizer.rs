use joos_lexer::string_escapes::resolve_escape_seqs;
use joos_lexer::token_types::Keyword::{Else, If, Instanceof, While};
use joos_lexer::token_types::Literal::{Bool, Char, Int, Null, StringLit};
use joos_lexer::token_types::{all_keywords, all_operators, all_separators};
use joos_lexer::token_types::Operator::{Assign, Le, Minus};
use joos_lexer::token_types::Separator::{Comma, Dot, LBrace, RBrace, Semicolon};
use joos_lexer::tokens::Token::{self, Identifier, Keyword, Literal, Operator, Separator};
use joos_lexer::tokens::{TokenErrorType, TokenInfo, TokenOrComment};
use joos_lexer::{Position, Tokenizer};

/// Tokenize `input` and compare the tokens' values.
fn run_case(tokenizer: &Tokenizer, input: Vec<&str>, expected: Vec<Token>) {
    let actual: Vec<Token> = tokenizer.tokenize(&input).unwrap().into_iter().map(|t| t.val).collect();
    assert_eq!(expected, actual);
}

#[test]
fn simple_examples() {
    let tokenizer = Tokenizer::new();
    for (input, expected_output) in vec![
        (vec![""], vec![]),
        (vec!["if while else"], vec![Keyword(If), Keyword(While), Keyword(Else)]),
        (
            vec![" \t if while", "", "  else", " ", "", "\t"],
            vec![Keyword(If), Keyword(While), Keyword(Else)],
        ),
        (
            vec!["if{ ,.<=="],
            vec![
                Keyword(If),
                Separator(LBrace),
                Separator(Comma),
                Separator(Dot),
                Operator(Le),
                Operator(Assign),
            ],
        ),
    ] {
        run_case(&tokenizer, input, expected_output);
    }
}

#[test]
fn detailed_example() {
    let tokenizer = Tokenizer::new();
    let input = vec!["if while else", "", "{}"];
    let pos = |line: usize, col: usize| Position { line: input[line], line_num: line, col };
    let expected_output = vec![
        TokenInfo { val: Keyword(If), start: pos(0, 0), lexeme: "if" },
        TokenInfo { val: Keyword(While), start: pos(0, 3), lexeme: "while" },
        TokenInfo { val: Keyword(Else), start: pos(0, 9), lexeme: "else" },
        TokenInfo { val: Separator(LBrace), start: pos(2, 0), lexeme: "{" },
        TokenInfo { val: Separator(RBrace), start: pos(2, 1), lexeme: "}" },
    ];
    assert_eq!(expected_output, tokenizer.tokenize(&input).unwrap());
}

#[test]
fn example() {
    let s = resolve_escape_seqs(r"asdf\\asdf\'").unwrap();
    assert_eq!(s, r"asdf\asdf'");
}

#[test]
fn joos_1w_nfa_simple_string_lit() {
    run_case(&Tokenizer::new(), vec!["\"asdf\""], vec![Literal(StringLit(String::from("asdf")))]);
}

#[test]
fn java_lang_nfa_simple_string_lit() {
    run_case(&Tokenizer::new(), vec!["\"asdf\""], vec![Literal(StringLit(String::from("asdf")))]);
}

#[test]
fn joos_1w_nfa_string_lit_escape_quote() {
    let tokenizer = Tokenizer::new();
    for (input, expected_output) in vec![
        (vec!["\"asdf\\\"asdf\""], vec![Literal(StringLit(String::from("asdf\"asdf")))]),
        (vec!["  \"abcabc\\\\abc\"  "], vec![Literal(StringLit(String::from("abcabc\\abc")))]),
    ] {
        run_case(&tokenizer, input, expected_output);
    }
}

#[test]
fn keyword_wins_over_identifier() {
    let tokenizer = Tokenizer::new();
    run_case(&tokenizer, vec!["if"], vec![Keyword(If)]);
    run_case(&tokenizer, vec!["instanceof"], vec![Keyword(Instanceof)]);
    run_case(&tokenizer, vec!["iff"], vec![Identifier("iff")]);
}

#[test]
fn longest_match_instanceofx() {
    run_case(&Tokenizer::new(), vec!["instanceofx"], vec![Identifier("instanceofx")]);
}

#[test]
fn escapes_resolve() {
    let tokenizer = Tokenizer::new();
    run_case(&tokenizer, vec!["'\\061'"], vec![Literal(Char('1'))]);
    run_case(&tokenizer, vec!["\"\\t\\n\\b\\f\\r\\0\\177\""], vec![Literal(StringLit(String::from("\t\n\x08\x0c\r\0\x7f")))]);
    assert_eq!(Some(String::from("1")), resolve_escape_seqs("\\061"));
    assert_eq!(Some(String::from("\x1f8")), resolve_escape_seqs("\\0378"));
    assert_eq!(None, resolve_escape_seqs("\\q"));
    assert_eq!(None, resolve_escape_seqs("\\8"));
    assert_eq!(None, resolve_escape_seqs("abc\\"));
    assert_eq!(None, resolve_escape_seqs("\\4000"));
    assert_eq!(None, resolve_escape_seqs("\\200"));
}

#[test]
fn lexemes_round_trip() {
    let tokenizer = Tokenizer::new();
    let input = vec!["public class A { int x = -42; String s = \"a\\\"b\"; char c = 'q'; }"];
    for t in tokenizer.tokenize(&input).unwrap() {
        let rendered = match &t.val {
            Keyword(k) => k.to_string(),
            Separator(s) => s.to_string(),
            Operator(o) => o.to_string(),
            Identifier(s) => s.to_string(),
            Literal(Int(n)) => n.to_string(),
            Literal(StringLit(s)) => format!("\"{}\"", s.replace('\\', "\\\\").replace('"', "\\\"")),
            Literal(Char(c)) => format!("'{}'", c),
            Literal(_) => t.lexeme.to_string(),
        };
        assert_eq!(t.lexeme, rendered);
        assert_eq!(t.end_col(), t.start.col + t.lexeme.len());
    }
}

/// Rebuild the lines from the tokens and comments, with spaces in between.
fn echo(tokenizer: &Tokenizer, input: &[&str]) -> Vec<String> {
    let mut out: Vec<String> = vec![];
    let lines: Vec<&str> = input.to_vec();
    for elem in tokenizer.tokenize_keep_comments(&lines).unwrap() {
        let start = elem.start();
        while out.len() <= start.line_num {
            out.push(String::new());
        }
        let pad = start.col - out[start.line_num].len();
        out[start.line_num].push_str(&" ".repeat(pad));
        match elem {
            TokenOrComment::Token(t) => out[start.line_num].push_str(t.lexeme),
            TokenOrComment::LineComment { start } => out[start.line_num].push_str(&start.line[start.col..]),
            TokenOrComment::StarComment { start, end_inclusive } => {
                if start.line_num == end_inclusive.line_num {
                    out[start.line_num].push_str(&start.line[start.col..=end_inclusive.col]);
                } else {
                    out[start.line_num].push_str(&start.line[start.col..]);
                    for l in start.line_num + 1..end_inclusive.line_num {
                        out.push(input[l].to_string());
                    }
                    out.push(end_inclusive.line[..=end_inclusive.col].to_string());
                }
            },
        }
    }
    while out.len() < input.len() {
        out.push(String::new());
    }
    for (line, buf) in input.iter().zip(out.iter_mut()) {
        let pad = line.len() - buf.len();
        buf.push_str(&" ".repeat(pad));
    }
    out
}

#[test]
fn whitespace_and_comments_reconstruct_the_file() {
    let tokenizer = Tokenizer::new();
    let input = vec![
        "/** A class. */",
        "public class A {",
        "    // a comment",
        "    int x = 1; /* two",
        "       lines */ int y;",
        "",
        "}",
    ];
    let expected: Vec<String> = input.iter().map(|s| s.to_string()).collect();
    assert_eq!(expected, echo(&tokenizer, &input));
}

#[test]
fn only_whitespace_and_comments() {
    let tokenizer = Tokenizer::new();
    assert!(tokenizer.tokenize(&vec!["  \t", "// c", "/* x */  "]).unwrap().is_empty());
    assert!(tokenizer.tokenize(&vec![]).unwrap().is_empty());
    assert!(tokenizer.tokenize(&vec![""]).unwrap().is_empty());
    let kept = tokenizer.tokenize_keep_comments(&vec!["// c", "/* x */"]).unwrap();
    assert_eq!(2, kept.len());
}

#[test]
fn unterminated_string_is_an_error_at_the_quote() {
    let tokenizer = Tokenizer::new();
    let input = vec!["x = \"unterminated"];
    let err = tokenizer.tokenize(&input).unwrap_err();
    assert_eq!(TokenErrorType::UnclosedStringLit, err.type_);
    assert_eq!(4, err.start.col);
    assert_eq!(0, err.start.line_num);
    let err = tokenizer.tokenize(&vec!["\"unterminated"]).unwrap_err();
    assert_eq!(TokenErrorType::UnclosedStringLit, err.type_);
    assert_eq!(0, err.start.col);
}

#[test]
fn error_kinds() {
    let tokenizer = Tokenizer::new();
    let e = tokenizer.tokenize(&vec!["int x;", "a = é;"]).unwrap_err();
    assert_eq!(TokenErrorType::NonAsciiChar { c: 'é' }, e.type_);
    assert_eq!((1, 4), (e.start.line_num, e.start.col));
    let e = tokenizer.tokenize(&vec!["a # b"]).unwrap_err();
    assert_eq!(2, e.start.col);
    match e.type_ {
        TokenErrorType::NotAToken { end } => assert_eq!(3, end.col),
        other => panic!("{:?}", other),
    }
    let e = tokenizer.tokenize(&vec!["x /* never", "closed"]).unwrap_err();
    assert_eq!(TokenErrorType::UnclosedComment, e.type_);
    assert_eq!(2, e.start.col);
    let e = tokenizer.tokenize(&vec!["'a"]).unwrap_err();
    assert_eq!(TokenErrorType::UnclosedCharLit, e.type_);
    let e = tokenizer.tokenize(&vec!["2147483649"]).unwrap_err();
    assert_eq!(TokenErrorType::IntTooLarge, e.type_);
    let e = tokenizer.tokenize(&vec!["\"a\\qb\""]).unwrap_err();
    assert_eq!(TokenErrorType::InvalidEscape, e.type_);
    let e = tokenizer.tokenize(&vec!["'ab'"]).unwrap_err();
    assert_eq!(TokenErrorType::BadCharLit, e.type_);
    let e = tokenizer.tokenize(&vec!["''"]).unwrap_err();
    assert_eq!(TokenErrorType::BadCharLit, e.type_);
}

#[test]
fn int_literals() {
    let tokenizer = Tokenizer::new();
    run_case(&tokenizer, vec!["-2147483648"], vec![Operator(Minus), Literal(Int(2147483648))]);
    run_case(&tokenizer, vec!["0 10234;"], vec![Literal(Int(0)), Literal(Int(10234)), Separator(Semicolon)]);
    // A leading zero ends the literal.
    run_case(&tokenizer, vec!["007"], vec![Literal(Int(0)), Literal(Int(0)), Literal(Int(7))]);
}

#[test]
fn javadoc_and_plain_comments() {
    let tokenizer = Tokenizer::new();
    let kept = tokenizer.tokenize_keep_comments(&vec!["/** doc */ /* plain */ x"]).unwrap();
    assert_eq!(3, kept.len());
    match &kept[0] {
        TokenOrComment::StarComment { start, end_inclusive } => {
            assert_eq!(0, start.col);
            assert_eq!(9, end_inclusive.col);
        },
        other => panic!("{:?}", other),
    }
}

#[test]
fn every_keyword_separator_and_operator_tokenizes_to_itself() {
    let tokenizer = Tokenizer::new();
    for k in all_keywords() {
        run_case(&tokenizer, vec![k.as_str()], vec![Keyword(k)]);
    }
    for s in all_separators() {
        run_case(&tokenizer, vec![s.as_str()], vec![Separator(s)]);
    }
    for o in all_operators() {
        run_case(&tokenizer, vec![o.as_str()], vec![Operator(o)]);
    }
}

#[test]
fn literals_and_identifiers() {
    let tokenizer = Tokenizer::new();
    run_case(
        &tokenizer,
        vec!["true false null nullx _a$1"],
        vec![Literal(Bool(true)), Literal(Bool(false)), Literal(Null), Identifier("nullx"), Identifier("_a$1")],
    );
}

#[test]
fn symbol_at_ascii_column_of_non_ascii_line() {
    let line = "aé";
    let p = Position { line, line_num: 0, col: 0 };
    assert_eq!(joos_lexer::Symbol::new(b'a'), p.symbol().unwrap());
    let q = Position { line, line_num: 0, col: 1 };
    assert_eq!(TokenErrorType::NonAsciiChar { c: 'é' }, q.symbol().unwrap_err().type_);
    let r = Position { line: "ab", line_num: 0, col: 2 };
    assert_eq!(joos_lexer::Symbol::new(b'\n'), r.symbol().unwrap());
}
