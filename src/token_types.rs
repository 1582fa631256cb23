//! The fixed vocabulary of Joos 1W: keywords, separators, operators and literal values.

use vstd::prelude::*;
use vstd::string::StringExecFns;

verus! {

/// Reserved words of the language.
#[derive(Debug, Clone, Copy, PartialEq, Eq, Structural)]
pub enum Keyword {
    Abstract,
    Boolean,
    Break,
    Byte,
    Case,
    Catch,
    Char,
    Class,
    Const,
    Continue,
    Default,
    Do,
    Double,
    Else,
    Extends,
    Final,
    Finally,
    Float,
    For,
    Goto,
    If,
    Implements,
    Import,
    Instanceof,
    Int,
    Interface,
    Long,
    Native,
    New,
    Package,
    Private,
    Protected,
    Public,
    Return,
    Short,
    Static,
    Strictfp,
    Super,
    Switch,
    Synchronized,
    This,
    Throw,
    Throws,
    Transient,
    Try,
    Void,
    Volatile,
    While,
}

impl Keyword {
    /// The text of this keyword, as it is written in source code.
    pub open spec fn spelling(self) -> Seq<char> {
        match self {
            Keyword::Abstract => "abstract"@,
            Keyword::Boolean => "boolean"@,
            Keyword::Break => "break"@,
            Keyword::Byte => "byte"@,
            Keyword::Case => "case"@,
            Keyword::Catch => "catch"@,
            Keyword::Char => "char"@,
            Keyword::Class => "class"@,
            Keyword::Const => "const"@,
            Keyword::Continue => "continue"@,
            Keyword::Default => "default"@,
            Keyword::Do => "do"@,
            Keyword::Double => "double"@,
            Keyword::Else => "else"@,
            Keyword::Extends => "extends"@,
            Keyword::Final => "final"@,
            Keyword::Finally => "finally"@,
            Keyword::Float => "float"@,
            Keyword::For => "for"@,
            Keyword::Goto => "goto"@,
            Keyword::If => "if"@,
            Keyword::Implements => "implements"@,
            Keyword::Import => "import"@,
            Keyword::Instanceof => "instanceof"@,
            Keyword::Int => "int"@,
            Keyword::Interface => "interface"@,
            Keyword::Long => "long"@,
            Keyword::Native => "native"@,
            Keyword::New => "new"@,
            Keyword::Package => "package"@,
            Keyword::Private => "private"@,
            Keyword::Protected => "protected"@,
            Keyword::Public => "public"@,
            Keyword::Return => "return"@,
            Keyword::Short => "short"@,
            Keyword::Static => "static"@,
            Keyword::Strictfp => "strictfp"@,
            Keyword::Super => "super"@,
            Keyword::Switch => "switch"@,
            Keyword::Synchronized => "synchronized"@,
            Keyword::This => "this"@,
            Keyword::Throw => "throw"@,
            Keyword::Throws => "throws"@,
            Keyword::Transient => "transient"@,
            Keyword::Try => "try"@,
            Keyword::Void => "void"@,
            Keyword::Volatile => "volatile"@,
            Keyword::While => "while"@,
        }
    }

    /// The text of this keyword, as it is written in source code.
    pub fn as_str(&self) -> (r: &'static str)
        ensures
            r@ == self.spelling(),
    {
        match self {
            Keyword::Abstract => "abstract",
            Keyword::Boolean => "boolean",
            Keyword::Break => "break",
            Keyword::Byte => "byte",
            Keyword::Case => "case",
            Keyword::Catch => "catch",
            Keyword::Char => "char",
            Keyword::Class => "class",
            Keyword::Const => "const",
            Keyword::Continue => "continue",
            Keyword::Default => "default",
            Keyword::Do => "do",
            Keyword::Double => "double",
            Keyword::Else => "else",
            Keyword::Extends => "extends",
            Keyword::Final => "final",
            Keyword::Finally => "finally",
            Keyword::Float => "float",
            Keyword::For => "for",
            Keyword::Goto => "goto",
            Keyword::If => "if",
            Keyword::Implements => "implements",
            Keyword::Import => "import",
            Keyword::Instanceof => "instanceof",
            Keyword::Int => "int",
            Keyword::Interface => "interface",
            Keyword::Long => "long",
            Keyword::Native => "native",
            Keyword::New => "new",
            Keyword::Package => "package",
            Keyword::Private => "private",
            Keyword::Protected => "protected",
            Keyword::Public => "public",
            Keyword::Return => "return",
            Keyword::Short => "short",
            Keyword::Static => "static",
            Keyword::Strictfp => "strictfp",
            Keyword::Super => "super",
            Keyword::Switch => "switch",
            Keyword::Synchronized => "synchronized",
            Keyword::This => "this",
            Keyword::Throw => "throw",
            Keyword::Throws => "throws",
            Keyword::Transient => "transient",
            Keyword::Try => "try",
            Keyword::Void => "void",
            Keyword::Volatile => "volatile",
            Keyword::While => "while",
        }
    }

    /// The text of this keyword as an owned string.
    /// The spelling is short, non-empty ASCII text.
    pub proof fn lemma_spelling_ascii(self)
        ensures
            1 <= self.spelling().len() <= 12,
            vstd::utf8::is_ascii_chars(self.spelling()),
            (self.spelling()[self.spelling().len() - 1] as u8) != 10,
            (self.spelling()[0] as u8) != 34,
            (self.spelling()[0] as u8) != 32 && (self.spelling()[0] as u8) != 9 && (self.spelling()[0] as u8) != 12
                && (self.spelling()[0] as u8) != 10,
            97 <= (self.spelling()[0] as u8) <= 122,
    {
        match self {
            Keyword::Abstract => reveal_strlit("abstract"),
            Keyword::Boolean => reveal_strlit("boolean"),
            Keyword::Break => reveal_strlit("break"),
            Keyword::Byte => reveal_strlit("byte"),
            Keyword::Case => reveal_strlit("case"),
            Keyword::Catch => reveal_strlit("catch"),
            Keyword::Char => reveal_strlit("char"),
            Keyword::Class => reveal_strlit("class"),
            Keyword::Const => reveal_strlit("const"),
            Keyword::Continue => reveal_strlit("continue"),
            Keyword::Default => reveal_strlit("default"),
            Keyword::Do => reveal_strlit("do"),
            Keyword::Double => reveal_strlit("double"),
            Keyword::Else => reveal_strlit("else"),
            Keyword::Extends => reveal_strlit("extends"),
            Keyword::Final => reveal_strlit("final"),
            Keyword::Finally => reveal_strlit("finally"),
            Keyword::Float => reveal_strlit("float"),
            Keyword::For => reveal_strlit("for"),
            Keyword::Goto => reveal_strlit("goto"),
            Keyword::If => reveal_strlit("if"),
            Keyword::Implements => reveal_strlit("implements"),
            Keyword::Import => reveal_strlit("import"),
            Keyword::Instanceof => reveal_strlit("instanceof"),
            Keyword::Int => reveal_strlit("int"),
            Keyword::Interface => reveal_strlit("interface"),
            Keyword::Long => reveal_strlit("long"),
            Keyword::Native => reveal_strlit("native"),
            Keyword::New => reveal_strlit("new"),
            Keyword::Package => reveal_strlit("package"),
            Keyword::Private => reveal_strlit("private"),
            Keyword::Protected => reveal_strlit("protected"),
            Keyword::Public => reveal_strlit("public"),
            Keyword::Return => reveal_strlit("return"),
            Keyword::Short => reveal_strlit("short"),
            Keyword::Static => reveal_strlit("static"),
            Keyword::Strictfp => reveal_strlit("strictfp"),
            Keyword::Super => reveal_strlit("super"),
            Keyword::Switch => reveal_strlit("switch"),
            Keyword::Synchronized => reveal_strlit("synchronized"),
            Keyword::This => reveal_strlit("this"),
            Keyword::Throw => reveal_strlit("throw"),
            Keyword::Throws => reveal_strlit("throws"),
            Keyword::Transient => reveal_strlit("transient"),
            Keyword::Try => reveal_strlit("try"),
            Keyword::Void => reveal_strlit("void"),
            Keyword::Volatile => reveal_strlit("volatile"),
            Keyword::While => reveal_strlit("while"),
        }
    }

    pub fn to_string(&self) -> (r: String)
        ensures
            r@ == self.spelling(),
    {
        String::from_str(self.as_str())
    }
}

/// A literal value, with escapes resolved.
#[derive(Debug, Clone, PartialEq, Eq)]
pub enum Literal {
    /// Anywhere in `0..=2^31`; `2^31` is only legal after a unary minus, which a later stage checks.
    Int(u32),
    Bool(bool),
    /// A character literal, escapes resolved.
    Char(char),
    /// A string literal, escapes resolved.
    StringLit(String),
    Null,
}

impl Literal {
    /// A copy of this literal.
    pub fn copy(&self) -> (r: Literal)
        ensures
            r == *self,
    {
        match self {
            Literal::Int(n) => Literal::Int(*n),
            Literal::Bool(b) => Literal::Bool(*b),
            Literal::Char(c) => Literal::Char(*c),
            Literal::StringLit(s) => Literal::StringLit(s.clone()),
            Literal::Null => Literal::Null,
        }
    }
}

/// Punctuation that separates parts of the program.
#[derive(Debug, Clone, Copy, PartialEq, Eq, Structural)]
pub enum Separator {
    LParen,
    RParen,
    LBrace,
    RBrace,
    LBracket,
    RBracket,
    Semicolon,
    Comma,
    Dot,
}

impl Separator {
    /// The text of this separator, as it is written in source code.
    pub open spec fn spelling(self) -> Seq<char> {
        match self {
            Separator::LParen => "("@,
            Separator::RParen => ")"@,
            Separator::LBrace => "{"@,
            Separator::RBrace => "}"@,
            Separator::LBracket => "["@,
            Separator::RBracket => "]"@,
            Separator::Semicolon => ";"@,
            Separator::Comma => ","@,
            Separator::Dot => "."@,
        }
    }

    /// The text of this separator, as it is written in source code.
    pub fn as_str(&self) -> (r: &'static str)
        ensures
            r@ == self.spelling(),
    {
        match self {
            Separator::LParen => "(",
            Separator::RParen => ")",
            Separator::LBrace => "{",
            Separator::RBrace => "}",
            Separator::LBracket => "[",
            Separator::RBracket => "]",
            Separator::Semicolon => ";",
            Separator::Comma => ",",
            Separator::Dot => ".",
        }
    }

    /// The text of this separator as an owned string.
    /// The spelling is short, non-empty ASCII text.
    pub proof fn lemma_spelling_ascii(self)
        ensures
            1 <= self.spelling().len() <= 12,
            vstd::utf8::is_ascii_chars(self.spelling()),
            (self.spelling()[self.spelling().len() - 1] as u8) != 10,
            (self.spelling()[0] as u8) != 34,
            (self.spelling()[0] as u8) != 32 && (self.spelling()[0] as u8) != 9 && (self.spelling()[0] as u8) != 12
                && (self.spelling()[0] as u8) != 10,
            !(97 <= (self.spelling()[0] as u8) <= 122),
    {
        match self {
            Separator::LParen => reveal_strlit("("),
            Separator::RParen => reveal_strlit(")"),
            Separator::LBrace => reveal_strlit("{"),
            Separator::RBrace => reveal_strlit("}"),
            Separator::LBracket => reveal_strlit("["),
            Separator::RBracket => reveal_strlit("]"),
            Separator::Semicolon => reveal_strlit(";"),
            Separator::Comma => reveal_strlit(","),
            Separator::Dot => reveal_strlit("."),
        }
    }

    pub fn to_string(&self) -> (r: String)
        ensures
            r@ == self.spelling(),
    {
        String::from_str(self.as_str())
    }
}

/// Operators, including some that a later stage rejects (such as `>>=`).
#[derive(Debug, Clone, Copy, PartialEq, Eq, Structural)]
pub enum Operator {
    Assign,
    Gt,
    Lt,
    Not,
    BitNot,
    Question,
    Colon,
    Eq,
    Le,
    Ge,
    Ne,
    And,
    Or,
    Increment,
    Decrement,
    Plus,
    Minus,
    Star,
    Divide,
    BitAnd,
    BitOr,
    BirXor,
    Mod,
    LShift,
    RShift,
    URShift,
    PlusEq,
    MinusEq,
    TimesEq,
    DivideEq,
    BitAndEq,
    BitOrEq,
    BitXorEq,
    ModEq,
    LShiftEq,
    RShiftEq,
    URShiftEq,
}

impl Operator {
    /// The text of this operator, as it is written in source code.
    pub open spec fn spelling(self) -> Seq<char> {
        match self {
            Operator::Assign => "="@,
            Operator::Gt => ">"@,
            Operator::Lt => "<"@,
            Operator::Not => "!"@,
            Operator::BitNot => "~"@,
            Operator::Question => "?"@,
            Operator::Colon => ":"@,
            Operator::Eq => "=="@,
            Operator::Le => "<="@,
            Operator::Ge => ">="@,
            Operator::Ne => "!="@,
            Operator::And => "&&"@,
            Operator::Or => "||"@,
            Operator::Increment => "++"@,
            Operator::Decrement => "--"@,
            Operator::Plus => "+"@,
            Operator::Minus => "-"@,
            Operator::Star => "*"@,
            Operator::Divide => "/"@,
            Operator::BitAnd => "&"@,
            Operator::BitOr => "|"@,
            Operator::BirXor => "^"@,
            Operator::Mod => "%"@,
            Operator::LShift => "<<"@,
            Operator::RShift => ">>"@,
            Operator::URShift => ">>>"@,
            Operator::PlusEq => "+="@,
            Operator::MinusEq => "-="@,
            Operator::TimesEq => "*="@,
            Operator::DivideEq => "/="@,
            Operator::BitAndEq => "&="@,
            Operator::BitOrEq => "|="@,
            Operator::BitXorEq => "^="@,
            Operator::ModEq => "%="@,
            Operator::LShiftEq => "<<="@,
            Operator::RShiftEq => ">>="@,
            Operator::URShiftEq => ">>>="@,
        }
    }

    /// The text of this operator, as it is written in source code.
    pub fn as_str(&self) -> (r: &'static str)
        ensures
            r@ == self.spelling(),
    {
        match self {
            Operator::Assign => "=",
            Operator::Gt => ">",
            Operator::Lt => "<",
            Operator::Not => "!",
            Operator::BitNot => "~",
            Operator::Question => "?",
            Operator::Colon => ":",
            Operator::Eq => "==",
            Operator::Le => "<=",
            Operator::Ge => ">=",
            Operator::Ne => "!=",
            Operator::And => "&&",
            Operator::Or => "||",
            Operator::Increment => "++",
            Operator::Decrement => "--",
            Operator::Plus => "+",
            Operator::Minus => "-",
            Operator::Star => "*",
            Operator::Divide => "/",
            Operator::BitAnd => "&",
            Operator::BitOr => "|",
            Operator::BirXor => "^",
            Operator::Mod => "%",
            Operator::LShift => "<<",
            Operator::RShift => ">>",
            Operator::URShift => ">>>",
            Operator::PlusEq => "+=",
            Operator::MinusEq => "-=",
            Operator::TimesEq => "*=",
            Operator::DivideEq => "/=",
            Operator::BitAndEq => "&=",
            Operator::BitOrEq => "|=",
            Operator::BitXorEq => "^=",
            Operator::ModEq => "%=",
            Operator::LShiftEq => "<<=",
            Operator::RShiftEq => ">>=",
            Operator::URShiftEq => ">>>=",
        }
    }

    /// The text of this operator as an owned string.
    /// The spelling is short, non-empty ASCII text.
    pub proof fn lemma_spelling_ascii(self)
        ensures
            1 <= self.spelling().len() <= 12,
            vstd::utf8::is_ascii_chars(self.spelling()),
            (self.spelling()[self.spelling().len() - 1] as u8) != 10,
            (self.spelling()[0] as u8) != 34,
            (self.spelling()[0] as u8) != 32 && (self.spelling()[0] as u8) != 9 && (self.spelling()[0] as u8) != 12
                && (self.spelling()[0] as u8) != 10,
            !(97 <= (self.spelling()[0] as u8) <= 122),
    {
        match self {
            Operator::Assign => reveal_strlit("="),
            Operator::Gt => reveal_strlit(">"),
            Operator::Lt => reveal_strlit("<"),
            Operator::Not => reveal_strlit("!"),
            Operator::BitNot => reveal_strlit("~"),
            Operator::Question => reveal_strlit("?"),
            Operator::Colon => reveal_strlit(":"),
            Operator::Eq => reveal_strlit("=="),
            Operator::Le => reveal_strlit("<="),
            Operator::Ge => reveal_strlit(">="),
            Operator::Ne => reveal_strlit("!="),
            Operator::And => reveal_strlit("&&"),
            Operator::Or => reveal_strlit("||"),
            Operator::Increment => reveal_strlit("++"),
            Operator::Decrement => reveal_strlit("--"),
            Operator::Plus => reveal_strlit("+"),
            Operator::Minus => reveal_strlit("-"),
            Operator::Star => reveal_strlit("*"),
            Operator::Divide => reveal_strlit("/"),
            Operator::BitAnd => reveal_strlit("&"),
            Operator::BitOr => reveal_strlit("|"),
            Operator::BirXor => reveal_strlit("^"),
            Operator::Mod => reveal_strlit("%"),
            Operator::LShift => reveal_strlit("<<"),
            Operator::RShift => reveal_strlit(">>"),
            Operator::URShift => reveal_strlit(">>>"),
            Operator::PlusEq => reveal_strlit("+="),
            Operator::MinusEq => reveal_strlit("-="),
            Operator::TimesEq => reveal_strlit("*="),
            Operator::DivideEq => reveal_strlit("/="),
            Operator::BitAndEq => reveal_strlit("&="),
            Operator::BitOrEq => reveal_strlit("|="),
            Operator::BitXorEq => reveal_strlit("^="),
            Operator::ModEq => reveal_strlit("%="),
            Operator::LShiftEq => reveal_strlit("<<="),
            Operator::RShiftEq => reveal_strlit(">>="),
            Operator::URShiftEq => reveal_strlit(">>>="),
        }
    }

    pub fn to_string(&self) -> (r: String)
        ensures
            r@ == self.spelling(),
    {
        String::from_str(self.as_str())
    }
}

/// Every keyword, in the order in which the lexical grammar registers them.
pub open spec fn keyword_seq() -> Seq<Keyword> {
    seq![
        Keyword::Abstract,
        Keyword::Boolean,
        Keyword::Break,
        Keyword::Byte,
        Keyword::Case,
        Keyword::Catch,
        Keyword::Char,
        Keyword::Class,
        Keyword::Const,
        Keyword::Continue,
        Keyword::Default,
        Keyword::Do,
        Keyword::Double,
        Keyword::Else,
        Keyword::Extends,
        Keyword::Final,
        Keyword::Finally,
        Keyword::Float,
        Keyword::For,
        Keyword::Goto,
        Keyword::If,
        Keyword::Implements,
        Keyword::Import,
        Keyword::Instanceof,
        Keyword::Int,
        Keyword::Interface,
        Keyword::Long,
        Keyword::Native,
        Keyword::New,
        Keyword::Package,
        Keyword::Private,
        Keyword::Protected,
        Keyword::Public,
        Keyword::Return,
        Keyword::Short,
        Keyword::Static,
        Keyword::Strictfp,
        Keyword::Super,
        Keyword::Switch,
        Keyword::Synchronized,
        Keyword::This,
        Keyword::Throw,
        Keyword::Throws,
        Keyword::Transient,
        Keyword::Try,
        Keyword::Void,
        Keyword::Volatile,
        Keyword::While,
    ]
}

/// Every separator, in the order in which the lexical grammar registers them.
pub open spec fn separator_seq() -> Seq<Separator> {
    seq![
        Separator::LParen,
        Separator::RParen,
        Separator::LBrace,
        Separator::RBrace,
        Separator::LBracket,
        Separator::RBracket,
        Separator::Semicolon,
        Separator::Comma,
        Separator::Dot,
    ]
}

/// Every operator, in the order in which the lexical grammar registers them.
pub open spec fn operator_seq() -> Seq<Operator> {
    seq![
        Operator::Assign,
        Operator::Gt,
        Operator::Lt,
        Operator::Not,
        Operator::BitNot,
        Operator::Question,
        Operator::Colon,
        Operator::Eq,
        Operator::Le,
        Operator::Ge,
        Operator::Ne,
        Operator::And,
        Operator::Or,
        Operator::Increment,
        Operator::Decrement,
        Operator::Plus,
        Operator::Minus,
        Operator::Star,
        Operator::Divide,
        Operator::BitAnd,
        Operator::BitOr,
        Operator::BirXor,
        Operator::Mod,
        Operator::LShift,
        Operator::RShift,
        Operator::URShift,
        Operator::PlusEq,
        Operator::MinusEq,
        Operator::TimesEq,
        Operator::DivideEq,
        Operator::BitAndEq,
        Operator::BitOrEq,
        Operator::BitXorEq,
        Operator::ModEq,
        Operator::LShiftEq,
        Operator::RShiftEq,
        Operator::URShiftEq,
    ]
}

/// Every keyword, in the order in which the lexical grammar registers them.
pub fn all_keywords() -> (r: Vec<Keyword>)
    ensures
        r@.len() == 48,
        forall|k: Keyword| r@.contains(k),
        r@ == keyword_seq(),
{
    let r = vec![
        Keyword::Abstract,
        Keyword::Boolean,
        Keyword::Break,
        Keyword::Byte,
        Keyword::Case,
        Keyword::Catch,
        Keyword::Char,
        Keyword::Class,
        Keyword::Const,
        Keyword::Continue,
        Keyword::Default,
        Keyword::Do,
        Keyword::Double,
        Keyword::Else,
        Keyword::Extends,
        Keyword::Final,
        Keyword::Finally,
        Keyword::Float,
        Keyword::For,
        Keyword::Goto,
        Keyword::If,
        Keyword::Implements,
        Keyword::Import,
        Keyword::Instanceof,
        Keyword::Int,
        Keyword::Interface,
        Keyword::Long,
        Keyword::Native,
        Keyword::New,
        Keyword::Package,
        Keyword::Private,
        Keyword::Protected,
        Keyword::Public,
        Keyword::Return,
        Keyword::Short,
        Keyword::Static,
        Keyword::Strictfp,
        Keyword::Super,
        Keyword::Switch,
        Keyword::Synchronized,
        Keyword::This,
        Keyword::Throw,
        Keyword::Throws,
        Keyword::Transient,
        Keyword::Try,
        Keyword::Void,
        Keyword::Volatile,
        Keyword::While,
    ];
    proof {
        assert(r@ =~= keyword_seq());
        assert forall|k: Keyword| r@.contains(k) by {
            match k {
            Keyword::Abstract => assert(r@[0] == k),
            Keyword::Boolean => assert(r@[1] == k),
            Keyword::Break => assert(r@[2] == k),
            Keyword::Byte => assert(r@[3] == k),
            Keyword::Case => assert(r@[4] == k),
            Keyword::Catch => assert(r@[5] == k),
            Keyword::Char => assert(r@[6] == k),
            Keyword::Class => assert(r@[7] == k),
            Keyword::Const => assert(r@[8] == k),
            Keyword::Continue => assert(r@[9] == k),
            Keyword::Default => assert(r@[10] == k),
            Keyword::Do => assert(r@[11] == k),
            Keyword::Double => assert(r@[12] == k),
            Keyword::Else => assert(r@[13] == k),
            Keyword::Extends => assert(r@[14] == k),
            Keyword::Final => assert(r@[15] == k),
            Keyword::Finally => assert(r@[16] == k),
            Keyword::Float => assert(r@[17] == k),
            Keyword::For => assert(r@[18] == k),
            Keyword::Goto => assert(r@[19] == k),
            Keyword::If => assert(r@[20] == k),
            Keyword::Implements => assert(r@[21] == k),
            Keyword::Import => assert(r@[22] == k),
            Keyword::Instanceof => assert(r@[23] == k),
            Keyword::Int => assert(r@[24] == k),
            Keyword::Interface => assert(r@[25] == k),
            Keyword::Long => assert(r@[26] == k),
            Keyword::Native => assert(r@[27] == k),
            Keyword::New => assert(r@[28] == k),
            Keyword::Package => assert(r@[29] == k),
            Keyword::Private => assert(r@[30] == k),
            Keyword::Protected => assert(r@[31] == k),
            Keyword::Public => assert(r@[32] == k),
            Keyword::Return => assert(r@[33] == k),
            Keyword::Short => assert(r@[34] == k),
            Keyword::Static => assert(r@[35] == k),
            Keyword::Strictfp => assert(r@[36] == k),
            Keyword::Super => assert(r@[37] == k),
            Keyword::Switch => assert(r@[38] == k),
            Keyword::Synchronized => assert(r@[39] == k),
            Keyword::This => assert(r@[40] == k),
            Keyword::Throw => assert(r@[41] == k),
            Keyword::Throws => assert(r@[42] == k),
            Keyword::Transient => assert(r@[43] == k),
            Keyword::Try => assert(r@[44] == k),
            Keyword::Void => assert(r@[45] == k),
            Keyword::Volatile => assert(r@[46] == k),
            Keyword::While => assert(r@[47] == k),
            }
        }
    }
    r
}

/// Every separator, in the order in which the lexical grammar registers them.
pub fn all_separators() -> (r: Vec<Separator>)
    ensures
        r@.len() == 9,
        r@ == separator_seq(),
{
    let r = vec![
        Separator::LParen,
        Separator::RParen,
        Separator::LBrace,
        Separator::RBrace,
        Separator::LBracket,
        Separator::RBracket,
        Separator::Semicolon,
        Separator::Comma,
        Separator::Dot,
    ];
    proof {
        assert(r@ =~= separator_seq());
    }
    r
}

/// Every operator, in the order in which the lexical grammar registers them.
pub fn all_operators() -> (r: Vec<Operator>)
    ensures
        r@.len() == 37,
        r@ == operator_seq(),
{
    let r = vec![
        Operator::Assign,
        Operator::Gt,
        Operator::Lt,
        Operator::Not,
        Operator::BitNot,
        Operator::Question,
        Operator::Colon,
        Operator::Eq,
        Operator::Le,
        Operator::Ge,
        Operator::Ne,
        Operator::And,
        Operator::Or,
        Operator::Increment,
        Operator::Decrement,
        Operator::Plus,
        Operator::Minus,
        Operator::Star,
        Operator::Divide,
        Operator::BitAnd,
        Operator::BitOr,
        Operator::BirXor,
        Operator::Mod,
        Operator::LShift,
        Operator::RShift,
        Operator::URShift,
        Operator::PlusEq,
        Operator::MinusEq,
        Operator::TimesEq,
        Operator::DivideEq,
        Operator::BitAndEq,
        Operator::BitOrEq,
        Operator::BitXorEq,
        Operator::ModEq,
        Operator::LShiftEq,
        Operator::RShiftEq,
        Operator::URShiftEq,
    ];
    proof {
        assert(r@ =~= operator_seq());
    }
    r
}

} // verus!
