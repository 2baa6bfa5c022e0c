use vstd::prelude::*;

verus! {

/// A place in the source text. Synthetic tokens carry `-1` in both fields.
#[derive(Clone, Copy, Debug, PartialEq, Eq, Hash, Structural)]
pub struct Position {
    pub line: i32,
    pub col: i32,
}

/// The kinds of tokens that a lexer hands to the parser.
#[derive(Clone, Copy, Debug, PartialEq, Eq, Hash, Structural)]
pub enum TokenType {
    LParen,
    RParen,
    LCurly,
    RCurly,
    LBracket,
    RBracket,
    Comma,
    Dot,
    Semicolon,
    Plus,
    Minus,
    Star,
    Slash,
    Bang,
    BangEqual,
    Equal,
    EqualEqual,
    Greater,
    GreaterEqual,
    Less,
    LessEqual,
    Colon,
    Identifier,
    String,
    Number,
    KwAnd,
    KwOr,
    KwSelf,
    KwStruct,
    KwReturn,
    KwImport,
    KwLet,
    KwDef,
    KwMut,
    KwIf,
    KwElse,
    KwWhile,
    KwFor,
    KwBreak,
    KwTrue,
    KwFalse,
    KwNil,
    Error,
    Eof,
}

/// What a token carries: nothing, a number (as the bits of an IEEE-754
/// double), or text (identifier names and string literals).
#[derive(Clone, Debug)]
pub enum TokenData {
    Empty,
    Number(u64),
    String(String),
}

#[derive(Clone, Debug)]
pub struct Token {
    pub token_type: TokenType,
    pub data: TokenData,
    pub pos: Position,
}

impl Token {
    pub fn new(token_type: TokenType, data: TokenData, pos: Position) -> (r: Token)
        ensures
            r.token_type == token_type,
            r.data == data,
            r.pos == pos,
    {
        Token { token_type, data, pos }
    }
}

} // verus!
