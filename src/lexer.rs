use vstd::prelude::*;
use crate::token::{Position, Token, TokenData, TokenType};

verus! {

/// Relies on `FromIterator<char> for String`: the string of these characters, in order.
#[verifier::external_body]
fn text_of(chars: &[char]) -> (r: String)
    ensures
        r@ == chars@,
{
    chars.iter().collect()
}

pub open spec fn is_digit(c: char) -> bool {
    '0' <= c <= '9'
}

pub open spec fn is_word_start(c: char) -> bool {
    ('a' <= c <= 'z') || ('A' <= c <= 'Z') || c == '_'
}

pub open spec fn is_word_char(c: char) -> bool {
    is_word_start(c) || is_digit(c)
}

/// The kind of a one-character token that no second character can extend.
pub open spec fn single_kind(c: char) -> Option<TokenType> {
    if c == '(' {
        Some(TokenType::LParen)
    } else if c == ')' {
        Some(TokenType::RParen)
    } else if c == '{' {
        Some(TokenType::LCurly)
    } else if c == '}' {
        Some(TokenType::RCurly)
    } else if c == '[' {
        Some(TokenType::LBracket)
    } else if c == ']' {
        Some(TokenType::RBracket)
    } else if c == ',' {
        Some(TokenType::Comma)
    } else if c == '.' {
        Some(TokenType::Dot)
    } else if c == ';' {
        Some(TokenType::Semicolon)
    } else if c == '+' {
        Some(TokenType::Plus)
    } else if c == '-' {
        Some(TokenType::Minus)
    } else if c == '*' {
        Some(TokenType::Star)
    } else if c == '/' {
        Some(TokenType::Slash)
    } else if c == ':' {
        Some(TokenType::Colon)
    } else {
        None
    }
}

fn single(c: char) -> (r: Option<TokenType>)
    ensures
        r == single_kind(c),
{
    if c == '(' {
        Some(TokenType::LParen)
    } else if c == ')' {
        Some(TokenType::RParen)
    } else if c == '{' {
        Some(TokenType::LCurly)
    } else if c == '}' {
        Some(TokenType::RCurly)
    } else if c == '[' {
        Some(TokenType::LBracket)
    } else if c == ']' {
        Some(TokenType::RBracket)
    } else if c == ',' {
        Some(TokenType::Comma)
    } else if c == '.' {
        Some(TokenType::Dot)
    } else if c == ';' {
        Some(TokenType::Semicolon)
    } else if c == '+' {
        Some(TokenType::Plus)
    } else if c == '-' {
        Some(TokenType::Minus)
    } else if c == '*' {
        Some(TokenType::Star)
    } else if c == '/' {
        Some(TokenType::Slash)
    } else if c == ':' {
        Some(TokenType::Colon)
    } else {
        None
    }
}

/// The kind of a word: a reserved word's own kind, else an identifier.
pub open spec fn word_kind(w: Seq<char>) -> TokenType {
    if w == "and"@ {
        TokenType::KwAnd
    } else if w == "or"@ {
        TokenType::KwOr
    } else if w == "self"@ {
        TokenType::KwSelf
    } else if w == "struct"@ {
        TokenType::KwStruct
    } else if w == "return"@ {
        TokenType::KwReturn
    } else if w == "import"@ {
        TokenType::KwImport
    } else if w == "let"@ {
        TokenType::KwLet
    } else if w == "def"@ {
        TokenType::KwDef
    } else if w == "mut"@ {
        TokenType::KwMut
    } else if w == "if"@ {
        TokenType::KwIf
    } else if w == "else"@ {
        TokenType::KwElse
    } else if w == "while"@ {
        TokenType::KwWhile
    } else if w == "for"@ {
        TokenType::KwFor
    } else if w == "break"@ {
        TokenType::KwBreak
    } else if w == "true"@ {
        TokenType::KwTrue
    } else if w == "false"@ {
        TokenType::KwFalse
    } else if w == "nil"@ {
        TokenType::KwNil
    } else {
        TokenType::Identifier
    }
}

fn is(w: &String, lit: &str) -> (r: bool)
    ensures
        r == (w@ == lit@),
{
    *w == lit.to_owned()
}

fn word(w: &String) -> (r: TokenType)
    ensures
        r == word_kind(w@),
{
    if is(w, "and") {
        TokenType::KwAnd
    } else if is(w, "or") {
        TokenType::KwOr
    } else if is(w, "self") {
        TokenType::KwSelf
    } else if is(w, "struct") {
        TokenType::KwStruct
    } else if is(w, "return") {
        TokenType::KwReturn
    } else if is(w, "import") {
        TokenType::KwImport
    } else if is(w, "let") {
        TokenType::KwLet
    } else if is(w, "def") {
        TokenType::KwDef
    } else if is(w, "mut") {
        TokenType::KwMut
    } else if is(w, "if") {
        TokenType::KwIf
    } else if is(w, "else") {
        TokenType::KwElse
    } else if is(w, "while") {
        TokenType::KwWhile
    } else if is(w, "for") {
        TokenType::KwFor
    } else if is(w, "break") {
        TokenType::KwBreak
    } else if is(w, "true") {
        TokenType::KwTrue
    } else if is(w, "false") {
        TokenType::KwFalse
    } else if is(w, "nil") {
        TokenType::KwNil
    } else {
        TokenType::Identifier
    }
}

/// A token as a value: its kind, its text where it carries one, its position.
pub open spec fn token_view(t: Token) -> (TokenType, Option<Seq<char>>, Position) {
    (
        t.token_type,
        match t.data {
            TokenData::String(s) => Some(s@),
            _ => None,
        },
        t.pos,
    )
}

/// The index just past the run of digits that starts at `i`.
pub open spec fn digits_end(s: Seq<char>, i: int) -> int
    decreases s.len() - i,
{
    if 0 <= i < s.len() && is_digit(s[i]) {
        digits_end(s, i + 1)
    } else {
        i
    }
}

/// The index just past the run of word characters that starts at `i`.
pub open spec fn word_end(s: Seq<char>, i: int) -> int
    decreases s.len() - i,
{
    if 0 <= i < s.len() && is_word_char(s[i]) {
        word_end(s, i + 1)
    } else {
        i
    }
}

/// The index of the first `"` at or after `i`, or the length where none follows.
pub open spec fn quote_end(s: Seq<char>, i: int) -> int
    decreases s.len() - i,
{
    if 0 <= i < s.len() && s[i] != '"' {
        quote_end(s, i + 1)
    } else {
        i
    }
}

/// The index just past a number that starts at the digit at `i`: digits,
/// then a `.` and more digits where a digit follows the `.`.
pub open spec fn number_end(s: Seq<char>, i: int) -> int {
    let a = digits_end(s, i + 1);
    if s.len() - a > 1 && s[a] == '.' && is_digit(s[a + 1]) {
        digits_end(s, a + 1)
    } else {
        a
    }
}

/// The kind of an operator character that is not followed by `=`.
pub open spec fn one_kind(c: char) -> TokenType {
    if c == '!' {
        TokenType::Bang
    } else if c == '=' {
        TokenType::Equal
    } else if c == '<' {
        TokenType::Less
    } else if c == '>' {
        TokenType::Greater
    } else {
        match single_kind(c) {
            Some(k) => k,
            None => TokenType::Error,
        }
    }
}

/// The kind of a two-character operator: `c` followed by `=`.
pub open spec fn two_kind(c: char) -> Option<TokenType> {
    if c == '!' {
        Some(TokenType::BangEqual)
    } else if c == '=' {
        Some(TokenType::EqualEqual)
    } else if c == '<' {
        Some(TokenType::LessEqual)
    } else if c == '>' {
        Some(TokenType::GreaterEqual)
    } else {
        None
    }
}

/// What the characters from `i` on begin, other than a line break: the token,
/// if any (blanks make none), and the index just past it.
pub open spec fn scan(s: Seq<char>, i: int, pos: Position) -> (Option<(TokenType, Option<Seq<char>>, Position)>, int) {
    let c = s[i];
    if c == ' ' || c == '\t' || c == '\r' {
        (None, i + 1)
    } else if is_digit(c) {
        let j = number_end(s, i);
        (Some((TokenType::Number, Some(s.subrange(i, j)), pos)), j)
    } else if is_word_start(c) {
        let j = word_end(s, i + 1);
        (Some((word_kind(s.subrange(i, j)), Some(s.subrange(i, j)), pos)), j)
    } else if c == '"' {
        let j = quote_end(s, i + 1);
        if j < s.len() {
            (Some((TokenType::String, Some(s.subrange(i + 1, j)), pos)), j + 1)
        } else {
            (Some((TokenType::Error, None, pos)), j)
        }
    } else if i + 1 < s.len() && s[i + 1] == '=' && two_kind(c) is Some {
        (Some((two_kind(c)->Some_0, None, pos)), i + 2)
    } else {
        (Some((one_kind(c), None, pos)), i + 1)
    }
}

/// The column after moving `width` characters right from `col`, held at the
/// largest `i32`.
pub open spec fn advance_col(col: i32, width: int) -> i32 {
    if width <= i32::MAX - col {
        (col + width) as i32
    } else {
        i32::MAX
    }
}

/// The tokens of the characters from `i` on, the first of them at `line` and `col`.
pub open spec fn lex_from(s: Seq<char>, i: int, line: i32, col: i32) -> Seq<
    (TokenType, Option<Seq<char>>, Position),
>
    decreases s.len() - i,
{
    if i < 0 || i >= s.len() {
        Seq::empty()
    } else if s[i] == '\n' {
        lex_from(s, i + 1, if line < i32::MAX { (line + 1) as i32 } else { line }, 1)
    } else {
        let (tok, j) = scan(s, i, Position { line, col });
        if j <= i || j > s.len() {
            Seq::empty()
        } else {
            let rest = lex_from(s, j, line, advance_col(col, j - i));
            match tok {
                Some(x) => seq![x] + rest,
                None => rest,
            }
        }
    }
}

/// The tokens of a source text, starting at line 1, column 1.
pub open spec fn lex_tokens(s: Seq<char>) -> Seq<(TokenType, Option<Seq<char>>, Position)> {
    lex_from(s, 0, 1, 1)
}

/// Splits source text into tokens, with 1-based lines and columns. A number
/// token carries its digits as text (`TokenData::String`), for the caller to
/// read as a double; an identifier or string literal carries its text; a
/// character that starts no token gives an `Error` token.
pub fn lex(src: &Vec<char>) -> (r: Vec<Token>)
    ensures
        r@.len() <= src@.len(),
        forall|k: int| 0 <= k < r@.len() ==> (#[trigger] r@[k]).pos.line >= 1 && r@[k].pos.col >= 1,
        forall|k: int| 0 <= k < r@.len() ==> (#[trigger] r@[k]).token_type != TokenType::Eof,
        r@.map_values(|t: Token| token_view(t)) == lex_tokens(src@),
{
    let n = src.len();
    let mut out: Vec<Token> = Vec::new();
    let mut i: usize = 0;
    let mut line: i32 = 1;
    let mut col: i32 = 1;
    while i < n
        invariant
            n == src.len(),
            0 <= i <= n,
            out@.len() <= i,
            line >= 1,
            col >= 1,
            forall|k: int| 0 <= k < out@.len() ==> (#[trigger] out@[k]).pos.line >= 1 && out@[k].pos.col >= 1,
            forall|k: int| 0 <= k < out@.len() ==> (#[trigger] out@[k]).token_type != TokenType::Eof,
            lex_tokens(src@) == out@.map_values(|t: Token| token_view(t)) + lex_from(src@, i as int, line, col),
        decreases n - i,
    {
        let c = src[i];
        let start = i;
        let pos = Position { line, col };
        let ghost before = out@;
        if c == '\n' {
            i = i + 1;
            if line < i32::MAX {
                line = line + 1;
            }
            col = 1;
            continue;
        }
        if c == ' ' || c == '\t' || c == '\r' {
            i = i + 1;
        } else if '0' <= c && c <= '9' {
            i = i + 1;
            while i < n && '0' <= src[i] && src[i] <= '9'
                invariant
                    n == src.len(),
                    start < i <= n,
                    digits_end(src@, start + 1) == digits_end(src@, i as int),
                decreases n - i,
            {
                i = i + 1;
            }
            let ghost a = i as int;
            if n - i > 1 && src[i] == '.' && '0' <= src[i + 1] && src[i + 1] <= '9' {
                i = i + 1;
                while i < n && '0' <= src[i] && src[i] <= '9'
                    invariant
                        n == src.len(),
                        start < i <= n,
                        a + 1 <= i,
                        digits_end(src@, a + 1) == digits_end(src@, i as int),
                    decreases n - i,
                {
                    i = i + 1;
                }
            }
            let text = text_of(&src.as_slice()[start..i]);
            out.push(Token::new(TokenType::Number, TokenData::String(text), pos));
        } else if ('a' <= c && c <= 'z') || ('A' <= c && c <= 'Z') || c == '_' {
            i = i + 1;
            while i < n && (('a' <= src[i] && src[i] <= 'z') || ('A' <= src[i] && src[i] <= 'Z')
                || src[i] == '_' || ('0' <= src[i] && src[i] <= '9'))
                invariant
                    n == src.len(),
                    start < i <= n,
                    word_end(src@, start + 1) == word_end(src@, i as int),
                decreases n - i,
            {
                i = i + 1;
            }
            let text = text_of(&src.as_slice()[start..i]);
            let k = word(&text);
            out.push(Token::new(k, TokenData::String(text), pos));
        } else if c == '"' {
            i = i + 1;
            while i < n && src[i] != '"'
                invariant
                    n == src.len(),
                    start < i <= n,
                    quote_end(src@, start + 1) == quote_end(src@, i as int),
                decreases n - i,
            {
                i = i + 1;
            }
            if i < n {
                let text = text_of(&src.as_slice()[start + 1..i]);
                i = i + 1;
                out.push(Token::new(TokenType::String, TokenData::String(text), pos));
            } else {
                out.push(Token::new(TokenType::Error, TokenData::Empty, pos));
            }
        } else {
            let next_is_eq = i + 1 < n && src[i + 1] == '=';
            let two = if c == '!' && next_is_eq {
                Some(TokenType::BangEqual)
            } else if c == '=' && next_is_eq {
                Some(TokenType::EqualEqual)
            } else if c == '<' && next_is_eq {
                Some(TokenType::LessEqual)
            } else if c == '>' && next_is_eq {
                Some(TokenType::GreaterEqual)
            } else {
                None
            };
            let kind = match two {
                Some(k) => {
                    i = i + 2;
                    k
                },
                None => {
                    i = i + 1;
                    if c == '!' {
                        TokenType::Bang
                    } else if c == '=' {
                        TokenType::Equal
                    } else if c == '<' {
                        TokenType::Less
                    } else if c == '>' {
                        TokenType::Greater
                    } else {
                        match single(c) {
                            Some(k) => k,
                            None => TokenType::Error,
                        }
                    }
                },
            };
            out.push(Token::new(kind, TokenData::Empty, pos));
        }
        proof {
            let (tok, j) = scan(src@, start as int, pos);
            assert(j == i);
            match tok {
                Some(x) => {
                    assert(out@.len() == before.len() + 1);
                    assert(token_view(out@.last()) == x);
                    assert(out@.map_values(|t: Token| token_view(t)) =~= before.map_values(
                        |t: Token| token_view(t),
                    ).push(x));
                },
                None => {
                    assert(out@ == before);
                },
            }
        }
        let width = i - start;
        if width <= (i32::MAX - col) as usize {
            col = col + width as i32;
        } else {
            col = i32::MAX;
        }
    }
    out
}

} // verus!
