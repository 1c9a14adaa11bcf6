//! Lexical tokens and their mathematical model.
use vstd::prelude::*;

verus! {

/// A lexical token produced by the Spine lexer.
///
/// A number keeps the exact text of its literal (a match of the grammar
/// `['-'] digit {digit} ['.' digit {digit}]`).
#[derive(Debug, Clone)]
pub enum Token {
    /// The `|` character used for indentation.
    Pipe,
    /// The `=` character used in key-value assignments.
    Equals,
    /// The `~` character used for append operations.
    Tilde,
    /// The `-` character used for array elements.
    Dash,
    /// The `.` character used in dotted key paths.
    Dot,
    /// A newline, which terminates a statement.
    Newline,
    /// An identifier.
    Ident(String),
    /// A quoted, multi-line or bare string.
    Str(String),
    /// A numeric literal, as written.
    Number(String),
    /// A boolean keyword (`true` or `false`).
    Bool(bool),
    /// The `null` keyword.
    Null,
    /// A line comment starting with `#` (trimmed text).
    LineComment(String),
    /// A block comment delimited by `/*` and `*/` (trimmed text).
    BlockComment(String),
    /// A tagged literal: tag and content.
    Tagged(String, String),
    /// A character that has no meaning in Spine syntax.
    Unknown(char),
    /// A lexical error message.
    Error(String),
}

/// A token with its 1-based line and column: `(token, line, column)`.
pub type SpannedToken = (Token, usize, usize);

/// The mathematical model of a token.
pub enum SToken {
    Pipe,
    Equals,
    Tilde,
    Dash,
    Dot,
    Newline,
    Ident(Seq<char>),
    Str(Seq<char>),
    Number(Seq<char>),
    Bool(bool),
    Null,
    LineComment(Seq<char>),
    BlockComment(Seq<char>),
    Tagged(Seq<char>, Seq<char>),
    Unknown(char),
    Error(Seq<char>),
}

/// The model of a token with its position.
pub struct SSpanned {
    pub tok: SToken,
    pub line: int,
    pub col: int,
}

impl View for Token {
    type V = SToken;

    open spec fn view(&self) -> SToken {
        match self {
            Token::Pipe => SToken::Pipe,
            Token::Equals => SToken::Equals,
            Token::Tilde => SToken::Tilde,
            Token::Dash => SToken::Dash,
            Token::Dot => SToken::Dot,
            Token::Newline => SToken::Newline,
            Token::Ident(s) => SToken::Ident(s@),
            Token::Str(s) => SToken::Str(s@),
            Token::Number(s) => SToken::Number(s@),
            Token::Bool(b) => SToken::Bool(*b),
            Token::Null => SToken::Null,
            Token::LineComment(s) => SToken::LineComment(s@),
            Token::BlockComment(s) => SToken::BlockComment(s@),
            Token::Tagged(t, c) => SToken::Tagged(t@, c@),
            Token::Unknown(c) => SToken::Unknown(*c),
            Token::Error(s) => SToken::Error(s@),
        }
    }
}

/// The model of a spanned token.
pub open spec fn spanned_view(t: SpannedToken) -> SSpanned {
    SSpanned { tok: t.0@, line: t.1 as int, col: t.2 as int }
}

/// The model of a sequence of spanned tokens.
pub open spec fn tokens_view(ts: Seq<SpannedToken>) -> Seq<SSpanned> {
    ts.map_values(|t: SpannedToken| spanned_view(t))
}

} // verus!
