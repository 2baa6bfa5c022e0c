use vstd::prelude::*;
use crate::ast::{Ast, BinaryOperation, UnaryOperation, VariableSignature};
use crate::lowering_proofs::{lemma_elifs_returns_free, lemma_items_returns_free, returns_free};
use crate::token::{Token, TokenData, TokenType};

verus! {

/// Binding strength of an operator, weakest first.
#[derive(Clone, Copy, Debug, PartialEq, Eq, Structural)]
pub enum Prec {
    Lowest,
    Assignment,
    Or,
    And,
    Equality,
    Comparison,
    Term,
    Factor,
    Unary,
    Call,
    Primary,
}

pub open spec fn level(p: Prec) -> u8 {
    match p {
        Prec::Lowest => 0,
        Prec::Assignment => 1,
        Prec::Or => 2,
        Prec::And => 3,
        Prec::Equality => 4,
        Prec::Comparison => 5,
        Prec::Term => 6,
        Prec::Factor => 7,
        Prec::Unary => 8,
        Prec::Call => 9,
        Prec::Primary => 10,
    }
}

fn prec_level(p: Prec) -> (r: u8)
    ensures
        r == level(p),
{
    match p {
        Prec::Lowest => 0,
        Prec::Assignment => 1,
        Prec::Or => 2,
        Prec::And => 3,
        Prec::Equality => 4,
        Prec::Comparison => 5,
        Prec::Term => 6,
        Prec::Factor => 7,
        Prec::Unary => 8,
        Prec::Call => 9,
        Prec::Primary => 10,
    }
}

/// How a token begins an expression.
#[derive(Clone, Copy, Debug, PartialEq, Eq, Structural)]
pub enum PrefixRule {
    NoRule,
    Grouping,
    Block,
    Unary,
    Literal,
    Variable,
    Let,
    IfElse,
    While,
}

/// How a token continues an expression.
#[derive(Clone, Copy, Debug, PartialEq, Eq, Structural)]
pub enum InfixRule {
    NoRule,
    Binary,
}

/// The parse rule of a token kind.
#[derive(Clone, Copy, Debug, PartialEq, Eq, Structural)]
pub struct ParseRule {
    pub prefix: PrefixRule,
    pub infix: InfixRule,
    pub precedence: Prec,
}

pub open spec fn prefix_of(k: TokenType) -> PrefixRule {
    match k {
        TokenType::LParen => PrefixRule::Grouping,
        TokenType::LCurly => PrefixRule::Block,
        TokenType::Minus | TokenType::Bang => PrefixRule::Unary,
        TokenType::String | TokenType::Number | TokenType::KwTrue | TokenType::KwFalse => PrefixRule::Literal,
        TokenType::Identifier => PrefixRule::Variable,
        TokenType::KwLet => PrefixRule::Let,
        TokenType::KwIf => PrefixRule::IfElse,
        TokenType::KwWhile => PrefixRule::While,
        _ => PrefixRule::NoRule,
    }
}

pub open spec fn infix_of(k: TokenType) -> InfixRule {
    match k {
        TokenType::Plus | TokenType::Minus | TokenType::Star | TokenType::Slash | TokenType::Bang
        | TokenType::BangEqual | TokenType::Equal | TokenType::EqualEqual | TokenType::Greater
        | TokenType::GreaterEqual | TokenType::Less | TokenType::LessEqual => InfixRule::Binary,
        _ => InfixRule::NoRule,
    }
}

pub open spec fn precedence_of(k: TokenType) -> Prec {
    match k {
        TokenType::LParen => Prec::Call,
        TokenType::Plus | TokenType::Minus => Prec::Term,
        TokenType::Star | TokenType::Slash => Prec::Factor,
        TokenType::BangEqual | TokenType::Greater | TokenType::GreaterEqual | TokenType::Less
        | TokenType::LessEqual => Prec::Comparison,
        TokenType::Equal => Prec::Assignment,
        TokenType::EqualEqual => Prec::Equality,
        _ => Prec::Lowest,
    }
}

/// The rule table, keyed by token kind.
pub fn get_rule(k: TokenType) -> (r: ParseRule)
    ensures
        r.prefix == prefix_of(k),
        r.infix == infix_of(k),
        r.precedence == precedence_of(k),
{
    let prefix = match k {
        TokenType::LParen => PrefixRule::Grouping,
        TokenType::LCurly => PrefixRule::Block,
        TokenType::Minus | TokenType::Bang => PrefixRule::Unary,
        TokenType::String | TokenType::Number | TokenType::KwTrue | TokenType::KwFalse => PrefixRule::Literal,
        TokenType::Identifier => PrefixRule::Variable,
        TokenType::KwLet => PrefixRule::Let,
        TokenType::KwIf => PrefixRule::IfElse,
        TokenType::KwWhile => PrefixRule::While,
        _ => PrefixRule::NoRule,
    };
    let infix = match k {
        TokenType::Plus | TokenType::Minus | TokenType::Star | TokenType::Slash | TokenType::Bang
        | TokenType::BangEqual | TokenType::Equal | TokenType::EqualEqual | TokenType::Greater
        | TokenType::GreaterEqual | TokenType::Less | TokenType::LessEqual => InfixRule::Binary,
        _ => InfixRule::NoRule,
    };
    let precedence = match k {
        TokenType::LParen => Prec::Call,
        TokenType::Plus | TokenType::Minus => Prec::Term,
        TokenType::Star | TokenType::Slash => Prec::Factor,
        TokenType::BangEqual | TokenType::Greater | TokenType::GreaterEqual | TokenType::Less
        | TokenType::LessEqual => Prec::Comparison,
        TokenType::Equal => Prec::Assignment,
        TokenType::EqualEqual => Prec::Equality,
        _ => Prec::Lowest,
    };
    ParseRule { prefix, infix, precedence }
}

/// The operator that a binary operator token denotes.
pub open spec fn binary_op_of(k: TokenType) -> Option<BinaryOperation> {
    match k {
        TokenType::Plus => Some(BinaryOperation::Add),
        TokenType::Minus => Some(BinaryOperation::Subtract),
        TokenType::Star => Some(BinaryOperation::Multiply),
        TokenType::Slash => Some(BinaryOperation::Divide),
        TokenType::Less => Some(BinaryOperation::Less),
        TokenType::LessEqual => Some(BinaryOperation::LessEqual),
        TokenType::Greater => Some(BinaryOperation::Greater),
        TokenType::GreaterEqual => Some(BinaryOperation::GreaterEqual),
        TokenType::EqualEqual => Some(BinaryOperation::Equal),
        TokenType::Equal => Some(BinaryOperation::Assign),
        _ => None,
    }
}

/// The operator that a unary operator token denotes.
pub open spec fn unary_op_of(k: TokenType) -> Option<UnaryOperation> {
    match k {
        TokenType::Minus => Some(UnaryOperation::Negate),
        TokenType::Bang => Some(UnaryOperation::Not),
        _ => None,
    }
}

/// The decimal digits of an integer, with a leading `-` when it is negative.
pub open spec fn decimal(n: int) -> Seq<char>
    decreases (if n < 0 { -n + 1 } else { n }),
{
    if n < 0 {
        seq!['-'] + decimal(-n)
    } else if n < 10 {
        seq![(('0' as u8) + (n as u8)) as char]
    } else {
        decimal(n / 10) + seq![(('0' as u8) + ((n % 10) as u8)) as char]
    }
}

/// The text of a parse error at a line and column.
pub open spec fn error_text(line: i32, col: i32, msg: Seq<char>) -> Seq<char> {
    "Line: "@ + decimal(line as int) + ", Col: "@ + decimal(col as int) + ", "@ + msg
}

/// Relies on `format!` and the `Display` of `i32`, which writes an integer in
/// decimal with a leading `-` when it is negative.
#[verifier::external_body]
fn error_at(line: i32, col: i32, msg: &str) -> (r: String)
    ensures
        r@ == error_text(line, col, msg@),
{
    format!("Line: {}, Col: {}, {}", line, col, msg)
}

/// An expression tree as a mathematical value: what an `Ast` holds, with
/// text as characters and children as sequences. Imports, function
/// definitions, calls and casts, which nothing here builds or lowers, are
/// all `Other`.
pub enum Tree {
    Identifier(Seq<char>),
    Number(u64),
    Str(Seq<char>),
    Bool(bool),
    Statement(Box<Tree>),
    Binary(BinaryOperation, Box<Tree>, Box<Tree>),
    Unary(UnaryOperation, Box<Tree>),
    Block(Seq<Tree>),
    IfElse(Box<Tree>, Box<Tree>, Seq<(Tree, Tree)>, Option<Box<Tree>>),
    While(Box<Tree>, Box<Tree>),
    Return(Box<Tree>),
    /// Name, whether mutable, whether a type is declared, initializer.
    Let(Seq<char>, bool, bool, Option<Box<Tree>>),
    Other,
}

/// The tree that an `Ast` denotes.
pub open spec fn tree_of(a: Ast) -> Tree
    decreases a, 0int,
{
    match a {
        Ast::Identifier(s) => Tree::Identifier(s@),
        Ast::Number(n) => Tree::Number(n),
        Ast::String(s) => Tree::Str(s@),
        Ast::Bool(b) => Tree::Bool(b),
        Ast::Statement(e) => Tree::Statement(Box::new(tree_of(*e))),
        Ast::Binary(op, l, r) => Tree::Binary(op, Box::new(tree_of(*l)), Box::new(tree_of(*r))),
        Ast::Unary(op, e) => Tree::Unary(op, Box::new(tree_of(*e))),
        Ast::Block(items) => Tree::Block(trees_of(items, items.len() as int)),
        Ast::IfElse(c, b, elifs, els) => Tree::IfElse(
            Box::new(tree_of(*c)),
            Box::new(tree_of(*b)),
            arms_of(elifs, elifs.len() as int),
            match els {
                Some(e) => Some(Box::new(tree_of(*e))),
                None => None,
            },
        ),
        Ast::While(c, b) => Tree::While(Box::new(tree_of(*c)), Box::new(tree_of(*b))),
        Ast::Return(e) => Tree::Return(Box::new(tree_of(*e))),
        Ast::Let(name, sig, init) => Tree::Let(
            name@,
            sig.mutable,
            sig.type_sig is Some,
            match init {
                Some(e) => Some(Box::new(tree_of(*e))),
                None => None,
            },
        ),
        _ => Tree::Other,
    }
}

/// The trees of the first `n` items.
pub open spec fn trees_of(items: Vec<Ast>, n: int) -> Seq<Tree>
    decreases items, n,
{
    if n <= 0 || n > items.len() {
        Seq::empty()
    } else {
        trees_of(items, n - 1).push(tree_of(items[n - 1]))
    }
}

/// The trees of the first `n` else-if arms.
pub open spec fn arms_of(elifs: Vec<(Box<Ast>, Box<Ast>)>, n: int) -> Seq<(Tree, Tree)>
    decreases elifs, n,
{
    if n <= 0 || n > elifs.len() {
        Seq::empty()
    } else {
        arms_of(elifs, n - 1).push((tree_of(*elifs[n - 1].0), tree_of(*elifs[n - 1].1)))
    }
}

pub(crate) proof fn lemma_trees_of(items: Vec<Ast>, n: int)
    requires
        0 <= n <= items.len(),
    ensures
        trees_of(items, n).len() == n,
        forall|k: int| 0 <= k < n ==> trees_of(items, n)[k] == tree_of(#[trigger] items@[k]),
    decreases n,
{
    if n > 0 {
        lemma_trees_of(items, n - 1);
    }
}

pub(crate) proof fn lemma_arms_of(elifs: Vec<(Box<Ast>, Box<Ast>)>, n: int)
    requires
        0 <= n <= elifs.len(),
    ensures
        arms_of(elifs, n).len() == n,
        forall|k: int|
            0 <= k < n ==> arms_of(elifs, n)[k] == (
                tree_of(*(#[trigger] elifs@[k]).0),
                tree_of(*elifs@[k].1),
            ),
    decreases n,
{
    if n > 0 {
        lemma_arms_of(elifs, n - 1);
    }
}

/// The kind of the token at `i`; outside the sequence, the end of input.
pub open spec fn kind_at(t: Seq<Token>, i: int) -> TokenType {
    if 0 <= i < t.len() {
        t[i].token_type
    } else {
        TokenType::Eof
    }
}

/// What the token at `i` carries; nothing outside the sequence.
pub open spec fn data_at(t: Seq<Token>, i: int) -> TokenData {
    if 0 <= i < t.len() {
        t[i].data
    } else {
        TokenData::Empty
    }
}

/// The literal that a token denotes.
pub open spec fn literal_tree(k: TokenType, d: TokenData) -> Option<Tree> {
    match k {
        TokenType::Number => Some(
            Tree::Number(
                match d {
                    TokenData::Number(x) => x,
                    _ => 0,
                },
            ),
        ),
        TokenType::String => Some(
            Tree::Str(
                match d {
                    TokenData::String(s) => s@,
                    _ => "Error"@,
                },
            ),
        ),
        TokenType::KwTrue => Some(Tree::Bool(true)),
        TokenType::KwFalse => Some(Tree::Bool(false)),
        _ => None,
    }
}

/// The variable reference that a token denotes: an identifier with its name.
pub open spec fn variable_tree(k: TokenType, d: TokenData) -> Option<Tree> {
    match d {
        TokenData::String(s) => if k == TokenType::Identifier {
            Some(Tree::Identifier(s@))
        } else {
            None
        },
        _ => None,
    }
}

/// The Pratt parse of an expression that starts at token `at`, taking infix
/// operators whose precedence is at least `prec`: the tree and the index of
/// the first token after it, or the error text where the tokens do not parse.
pub open spec fn parse_expr(t: Seq<Token>, at: int, prec: Prec) -> Result<(Tree, int), Seq<char>>
    decreases t.len() - at, 0int,
{
    if at < 0 {
        Err(Seq::empty())
    } else if kind_at(t, at) == TokenType::Eof || prefix_of(kind_at(t, at)) is NoRule {
        Err(error_after(t, at + 1, "Expected prefix expression"@))
    } else {
        match parse_prefix(t, at + 1) {
            Ok((left, e)) => if e <= at || e > t.len() {
                Err(Seq::empty())
            } else {
                infix_loop(t, e, prec, left)
            },
            Err(m) => Err(m),
        }
    }
}

/// Applies infix operators to `left` from token `at` on, while the current
/// token's precedence is at least `prec`.
pub open spec fn infix_loop(t: Seq<Token>, at: int, prec: Prec, left: Tree) -> Result<(Tree, int), Seq<char>>
    decreases t.len() - at, 0int,
{
    if at < 0 || at > t.len() {
        Err(Seq::empty())
    } else if level(prec) <= level(precedence_of(kind_at(t, at))) {
        if kind_at(t, at) == TokenType::Eof || infix_of(kind_at(t, at)) is NoRule {
            Err(error_after(t, at + 1, "Expected infix expression"@))
        } else {
            match parse_binary(t, at + 1, left) {
                Ok((next, e)) => if e <= at || e > t.len() {
                    Err(Seq::empty())
                } else {
                    infix_loop(t, e, prec, next)
                },
                Err(m) => Err(m),
            }
        }
    } else {
        Ok((left, at))
    }
}

/// The binary operator just before `at` applied to `left` and to a right
/// operand that starts at `at`, parsed at the operator's own precedence. An
/// operator token with no binary meaning fails once the operand is parsed.
pub open spec fn parse_binary(t: Seq<Token>, at: int, left: Tree) -> Result<(Tree, int), Seq<char>>
    decreases t.len() - at, 1int,
{
    let k = kind_at(t, at - 1);
    match parse_expr(t, at, precedence_of(k)) {
        Ok((right, e)) => match binary_op_of(k) {
            Some(op) => Ok((Tree::Binary(op, Box::new(left), Box::new(right)), e)),
            None => Err(error_after(t, e, "Invalid binary operator"@)),
        },
        Err(m) => Err(m),
    }
}

/// The expression that the prefix token just before `at` begins.
pub open spec fn parse_prefix(t: Seq<Token>, at: int) -> Result<(Tree, int), Seq<char>>
    decreases t.len() - at, 3int,
{
    let k = kind_at(t, at - 1);
    if at < 0 || at > t.len() {
        Err(Seq::empty())
    } else {
        match prefix_of(k) {
            PrefixRule::NoRule => Err(error_after(t, at, "Expected prefix expression"@)),
            PrefixRule::Grouping => match parse_expr(t, at, Prec::Assignment) {
                Ok((e, m)) => if kind_at(t, m) == TokenType::RParen {
                    Ok((e, m + 1))
                } else {
                    Err(error_after(t, m, "Expected closing right parenthesis"@))
                },
                Err(msg) => Err(msg),
            },
            PrefixRule::Block => match block_items(t, at, Seq::empty()) {
                Ok((items, m)) => Ok((Tree::Block(items), m + 1)),
                Err(msg) => Err(msg),
            },
            PrefixRule::Unary => match parse_expr(t, at, Prec::Unary) {
                Ok((e, m)) => match unary_op_of(k) {
                    Some(op) => Ok((Tree::Unary(op, Box::new(e)), m)),
                    None => Err(error_after(t, m, "Invalid unary operator"@)),
                },
                Err(msg) => Err(msg),
            },
            PrefixRule::Literal => match literal_tree(k, data_at(t, at - 1)) {
                Some(x) => Ok((x, at)),
                None => Err(error_after(t, at, "Unreachable error for literal()"@)),
            },
            PrefixRule::Variable => match variable_tree(k, data_at(t, at - 1)) {
                Some(x) => Ok((x, at)),
                None => Err(error_after(t, at, "Could not read identifier name from token"@)),
            },
            PrefixRule::Let => parse_let(t, at),
            PrefixRule::IfElse => parse_if(t, at),
            PrefixRule::While => match parse_expr(t, at, Prec::Assignment) {
                Ok((c, m)) => if m < at || m > t.len() {
                    Err(Seq::empty())
                } else {
                    match parse_expr(t, m, Prec::Assignment) {
                        Ok((b, e)) => Ok((Tree::While(Box::new(c), Box::new(b)), e)),
                        Err(msg) => Err(msg),
                    }
                },
                Err(msg) => Err(msg),
            },
        }
    }
}

/// The items of a block from token `at` up to its closing brace, after the
/// items `acc`; an item followed by `;` becomes a statement unless it is one.
pub open spec fn block_items(t: Seq<Token>, at: int, acc: Seq<Tree>) -> Result<(Seq<Tree>, int), Seq<char>>
    decreases t.len() - at, 1int,
{
    if at < 0 || at > t.len() {
        Err(Seq::empty())
    } else if kind_at(t, at) == TokenType::RCurly {
        Ok((acc, at))
    } else {
        match parse_expr(t, at, Prec::Assignment) {
            Ok((e, m)) => if m <= at || m > t.len() {
                Err(Seq::empty())
            } else if kind_at(t, m) == TokenType::Semicolon && !(e is Statement) {
                block_items(t, m + 1, acc.push(Tree::Statement(Box::new(e))))
            } else {
                block_items(t, m, acc.push(e))
            },
            Err(msg) => Err(msg),
        }
    }
}

/// A conditional from token `at`: condition, then-branch, then the arms.
pub open spec fn parse_if(t: Seq<Token>, at: int) -> Result<(Tree, int), Seq<char>>
    decreases t.len() - at, 2int,
{
    match parse_expr(t, at, Prec::Assignment) {
        Ok((c, m)) => if m < at || m > t.len() {
            Err(Seq::empty())
        } else {
            match parse_expr(t, m, Prec::Assignment) {
                Ok((b, e)) => if e < at || e > t.len() {
                    Err(Seq::empty())
                } else {
                    match else_arms(t, e, Seq::empty()) {
                        Ok((arms, els, end)) => Ok(
                            (Tree::IfElse(Box::new(c), Box::new(b), arms, els), end),
                        ),
                        Err(msg) => Err(msg),
                    }
                },
                Err(msg) => Err(msg),
            }
        },
        Err(msg) => Err(msg),
    }
}

/// The `else if` arms from token `at` on, after the arms `acc`, and the final
/// `else` branch, if a plain `else` follows them.
pub open spec fn else_arms(t: Seq<Token>, at: int, acc: Seq<(Tree, Tree)>) -> Result<
    (Seq<(Tree, Tree)>, Option<Box<Tree>>, int),
    Seq<char>,
>
    decreases t.len() - at, 1int,
{
    if at < 0 || at > t.len() {
        Err(Seq::empty())
    } else if kind_at(t, at) != TokenType::KwElse {
        Ok((acc, None, at))
    } else if kind_at(t, at + 1) == TokenType::KwIf {
        match parse_expr(t, at + 2, Prec::Assignment) {
            Ok((c, m)) => if m <= at || m > t.len() {
                Err(Seq::empty())
            } else {
                match parse_expr(t, m, Prec::Assignment) {
                    Ok((b, e)) => if e <= at || e > t.len() {
                        Err(Seq::empty())
                    } else {
                        else_arms(t, e, acc.push((c, b)))
                    },
                    Err(msg) => Err(msg),
                }
            },
            Err(msg) => Err(msg),
        }
    } else {
        match parse_expr(t, at + 1, Prec::Assignment) {
            Ok((e, m)) => Ok((acc, Some(Box::new(e)), m)),
            Err(msg) => Err(msg),
        }
    }
}

/// A definition ending at token `m`: a statement when `;` follows.
pub open spec fn let_end(t: Seq<Token>, name: Seq<char>, mutable: bool, init: Option<Box<Tree>>, m: int) -> (Tree, int) {
    let node = Tree::Let(name, mutable, false, init);
    if kind_at(t, m) == TokenType::Semicolon {
        (Tree::Statement(Box::new(node)), m + 1)
    } else {
        (node, m)
    }
}

/// A definition from token `at`, just after `let`: `mut` or not, a name,
/// and an initializer exactly when `=` follows the name.
pub open spec fn parse_let(t: Seq<Token>, at: int) -> Result<(Tree, int), Seq<char>>
    decreases t.len() - at, 1int,
{
    let mutable = kind_at(t, at) == TokenType::KwMut;
    let pos = if mutable { at + 1 } else { at };
    if at < 0 {
        Err(Seq::empty())
    } else if kind_at(t, pos) != TokenType::Identifier {
        Err(error_after(t, pos, "Expected identifier for variable name"@))
    } else {
        match data_at(t, pos) {
            TokenData::String(s) => if kind_at(t, pos + 1) == TokenType::Equal {
                match parse_expr(t, pos + 2, Prec::Assignment) {
                    Ok((e, m)) => Ok(let_end(t, s@, mutable, Some(Box::new(e)), m)),
                    Err(msg) => Err(msg),
                }
            } else {
                Ok(let_end(t, s@, mutable, None, pos + 1))
            },
            _ => Err(error_after(t, pos + 1, "Could not read identifier name from token"@)),
        }
    }
}

/// The tree of a whole token sequence: one expression followed by the end of
/// input, or the error text.
pub open spec fn parse_tokens(t: Seq<Token>) -> Result<Tree, Seq<char>> {
    match parse_expr(t, 0, Prec::Assignment) {
        Ok((a, e)) => if kind_at(t, e) == TokenType::Eof {
            Ok(a)
        } else {
            Err(error_after(t, e, "Expected EOF"@))
        },
        Err(m) => Err(m),
    }
}

/// Whether `r` is what `s` says: the tree, with the parse ending at `end`,
/// or the same error text.
pub open spec fn gives(r: Result<Ast, String>, s: Result<(Tree, int), Seq<char>>, end: int) -> bool {
    match r {
        Ok(a) => s == Ok::<(Tree, int), Seq<char>>((tree_of(a), end)),
        Err(m) => s == Err::<(Tree, int), Seq<char>>(m@),
    }
}
/// The error at the position of the token before `i`.
pub open spec fn error_after(t: Seq<Token>, i: int, msg: Seq<char>) -> Seq<char> {
    if 0 < i <= t.len() {
        error_text(t[i - 1].pos.line, t[i - 1].pos.col, msg)
    } else {
        error_text(-1i32, -1i32, msg)
    }
}

/// A Pratt parser over a token sequence. The token at `cur` is the current
/// one; past the end of the sequence the current token is an implicit end of
/// input at line and column -1.
pub struct Parser {
    tokens: Vec<Token>,
    cur: usize,
}

impl Parser {
    pub closed spec fn wf(&self) -> bool {
        self.cur <= self.tokens.len()
    }

    pub closed spec fn tokens(&self) -> Seq<Token> {
        self.tokens@
    }

    /// The index of the current token.
    pub closed spec fn cursor(&self) -> int {
        self.cur as int
    }

    /// How many tokens are left, the current one included.
    pub closed spec fn remaining(&self) -> int {
        self.tokens.len() - self.cur
    }

    /// The kind of the current token.
    pub closed spec fn current(&self) -> TokenType {
        kind_at(self.tokens@, self.cur as int)
    }

    /// The kind of the previous token.
    pub closed spec fn previous(&self) -> TokenType {
        kind_at(self.tokens@, self.cur - 1)
    }

    fn current_kind(&self) -> (r: TokenType)
        requires
            self.wf(),
        ensures
            r == self.current(),
    {
        if self.cur < self.tokens.len() {
            self.tokens[self.cur].token_type
        } else {
            TokenType::Eof
        }
    }

    fn previous_kind(&self) -> (r: TokenType)
        requires
            self.wf(),
        ensures
            r == self.previous(),
    {
        if self.cur > 0 {
            self.tokens[self.cur - 1].token_type
        } else {
            TokenType::Eof
        }
    }

    /// Moves to the next token.
    fn advance(&mut self)
        requires
            old(self).wf(),
            old(self).current() != TokenType::Eof,
        ensures
            final(self).wf(),
            final(self).tokens() == old(self).tokens(),
            final(self).remaining() == old(self).remaining() - 1,
            final(self).previous() == old(self).current(),
            final(self).cursor() == old(self).cursor() + 1,
    {
        self.cur = self.cur + 1;
    }

    fn check(&self, k: TokenType) -> (r: bool)
        requires
            self.wf(),
        ensures
            r == (self.current() == k),
    {
        self.current_kind() == k
    }

    /// An error at the previous token's position.
    fn make_error(&self, msg: &str) -> (r: String)
        requires
            self.wf(),
        ensures
            r@ == error_after(self.tokens(), self.cursor(), msg@),
    {
        if self.cur > 0 {
            let pos = self.tokens[self.cur - 1].pos;
            error_at(pos.line, pos.col, msg)
        } else {
            error_at(-1, -1, msg)
        }
    }

    /// An error at the current token's position.
    fn error_here(&self, msg: &str) -> (r: String)
        requires
            self.wf(),
        ensures
            r@ == error_after(self.tokens(), self.cursor() + 1, msg@),
    {
        if self.cur < self.tokens.len() {
            let pos = self.tokens[self.cur].pos;
            error_at(pos.line, pos.col, msg)
        } else {
            error_at(-1, -1, msg)
        }
    }

    /// Parses a whole token sequence as one expression followed by the end of
    /// input. Where the expression is followed by another token, the error
    /// names the position of the expression's last token.
    pub fn parse(tokens: Vec<Token>) -> (r: Result<Ast, String>)
        ensures
            match r {
                Ok(a) => parse_tokens(tokens@) == Ok::<Tree, Seq<char>>(tree_of(a)),
                Err(m) => parse_tokens(tokens@) == Err::<Tree, Seq<char>>(m@),
            },
            r matches Ok(a) ==> returns_free(a),
    {
        let mut p = Parser { tokens, cur: 0 };
        let ast = expression(&mut p)?;
        if p.check(TokenType::Eof) {
            Ok(ast)
        } else {
            Err(p.make_error("Expected EOF"))
        }
    }

    /// Moves past the current token if it is of kind `k`, else fails with `msg`.
    fn consume(&mut self, k: TokenType, msg: &str) -> (r: Result<(), String>)
        requires
            old(self).wf(),
            k != TokenType::Eof,
        ensures
            final(self).wf(),
            final(self).tokens() == old(self).tokens(),
            r is Ok <==> old(self).current() == k,
            r is Ok ==> final(self).cursor() == old(self).cursor() + 1,
            r is Err ==> final(self).cursor() == old(self).cursor(),
            r matches Err(m) ==> m@ == error_after(old(self).tokens(), old(self).cursor(), msg@),
    {
        if self.check(k) {
            self.advance();
            Ok(())
        } else {
            Err(self.make_error(msg))
        }
    }
}

/// Parses an expression whose operators bind at least as strongly as `prec`:
/// one prefix rule for the first token, then infix rules while the current
/// token's precedence is at least `prec`.
fn parse_precedence(p: &mut Parser, prec: Prec) -> (r: Result<Ast, String>)
    requires
        old(p).wf(),
    ensures
        final(p).wf(),
        final(p).tokens() == old(p).tokens(),
        final(p).cursor() >= old(p).cursor(),
        r is Ok ==> final(p).cursor() > old(p).cursor(),
        gives(r, parse_expr(old(p).tokens(), old(p).cursor(), prec), final(p).cursor()),
        r matches Ok(a) ==> returns_free(a),
    decreases old(p).remaining(), 0nat,
{
    let ghost t = p.tokens();
    let ghost at = p.cursor();
    if p.check(TokenType::Eof) {
        return Err(p.error_here("Expected prefix expression"));
    }
    p.advance();
    let rule = get_rule(p.previous_kind());
    let mut left = match rule.prefix {
        PrefixRule::NoRule => {
            return Err(p.make_error("Expected prefix expression"));
        },
        PrefixRule::Grouping => grouping(p)?,
        PrefixRule::Block => block(p)?,
        PrefixRule::Unary => unary(p)?,
        PrefixRule::Literal => literal(p)?,
        PrefixRule::Variable => variable(p)?,
        PrefixRule::Let => let_(p)?,
        PrefixRule::IfElse => if_else(p)?,
        PrefixRule::While => while_(p)?,
    };
    while prec_level(prec) <= prec_level(get_rule(p.current_kind()).precedence)
        invariant
            p.wf(),
            returns_free(left),
            p.tokens() == t,
            t == old(p).tokens(),
            at == old(p).cursor(),
            p.cursor() > at,
            p.remaining() < old(p).remaining(),
            parse_expr(t, at, prec) == infix_loop(t, p.cursor(), prec, tree_of(left)),
        decreases p.remaining(),
    {
        if p.check(TokenType::Eof) {
            return Err(p.error_here("Expected infix expression"));
        }
        p.advance();
        let rule = get_rule(p.previous_kind());
        match rule.infix {
            InfixRule::NoRule => {
                return Err(p.make_error("Expected infix expression"));
            },
            InfixRule::Binary => {
                left = binary(p, left)?;
            },
        }
    }
    Ok(left)
}

/// Parses an expression at the weakest binding that takes assignments.
fn expression(p: &mut Parser) -> (r: Result<Ast, String>)
    requires
        old(p).wf(),
    ensures
        final(p).wf(),
        final(p).tokens() == old(p).tokens(),
        final(p).cursor() >= old(p).cursor(),
        r is Ok ==> final(p).cursor() > old(p).cursor(),
        gives(r, parse_expr(old(p).tokens(), old(p).cursor(), Prec::Assignment), final(p).cursor()),
        r matches Ok(a) ==> returns_free(a),
    decreases old(p).remaining(), 1nat,
{
    parse_precedence(p, Prec::Assignment)
}

/// A literal from the previous token: a number, a string, `true` or `false`.
fn literal(p: &Parser) -> (r: Result<Ast, String>)
    requires
        p.wf(),
        prefix_of(p.previous()) is Literal,
    ensures
        gives(r, parse_prefix(p.tokens(), p.cursor()), p.cursor()),
        r matches Ok(a) ==> returns_free(a),
{
    if p.cur == 0 {
        return Err(p.make_error("Unreachable error for literal()"));
    }
    let t = &p.tokens[p.cur - 1];
    match t.token_type {
        TokenType::Number => Ok(
            Ast::Number(
                match &t.data {
                    TokenData::Number(n) => *n,
                    _ => 0,
                },
            ),
        ),
        TokenType::String => Ok(
            Ast::String(
                match &t.data {
                    TokenData::String(s) => s.clone(),
                    _ => "Error".to_string(),
                },
            ),
        ),
        TokenType::KwTrue => Ok(Ast::Bool(true)),
        TokenType::KwFalse => Ok(Ast::Bool(false)),
        _ => Err(p.make_error("Unreachable error for literal()")),
    }
}

/// A variable reference from the previous token, an identifier.
fn variable(p: &Parser) -> (r: Result<Ast, String>)
    requires
        p.wf(),
        prefix_of(p.previous()) is Variable,
    ensures
        gives(r, parse_prefix(p.tokens(), p.cursor()), p.cursor()),
        r matches Ok(a) ==> returns_free(a),
{
    if p.cur == 0 {
        return Err(p.make_error("Expected identifier"));
    }
    let t = &p.tokens[p.cur - 1];
    match (&t.token_type, &t.data) {
        (TokenType::Identifier, TokenData::String(s)) => Ok(Ast::Identifier(s.clone())),
        _ => Err(p.make_error("Could not read identifier name from token")),
    }
}

/// A prefix operator applied to an operand parsed at unary precedence.
fn unary(p: &mut Parser) -> (r: Result<Ast, String>)
    requires
        old(p).wf(),
        prefix_of(old(p).previous()) is Unary,
    ensures
        final(p).wf(),
        final(p).tokens() == old(p).tokens(),
        final(p).cursor() >= old(p).cursor(),
        gives(r, parse_prefix(old(p).tokens(), old(p).cursor()), final(p).cursor()),
        r matches Ok(a) ==> returns_free(a),
    decreases old(p).remaining(), 2nat,
{
    let op = p.previous_kind();
    let expr = parse_precedence(p, Prec::Unary)?;
    match op {
        TokenType::Minus => Ok(Ast::Unary(UnaryOperation::Negate, Box::new(expr))),
        TokenType::Bang => Ok(Ast::Unary(UnaryOperation::Not, Box::new(expr))),
        _ => Err(p.make_error("Invalid unary operator")),
    }
}

/// A binary operator, from the previous token, applied to `left` and to a right
/// operand parsed at the operator's own precedence.
fn binary(p: &mut Parser, left: Ast) -> (r: Result<Ast, String>)
    requires
        old(p).wf(),
        returns_free(left),
    ensures
        final(p).wf(),
        final(p).tokens() == old(p).tokens(),
        final(p).cursor() >= old(p).cursor(),
        gives(r, parse_binary(old(p).tokens(), old(p).cursor(), tree_of(left)), final(p).cursor()),
        r matches Ok(a) ==> returns_free(a),
    decreases old(p).remaining(), 2nat,
{
    let op = p.previous_kind();
    let right = parse_precedence(p, get_rule(op).precedence)?;
    let bop = match op {
        TokenType::Plus => BinaryOperation::Add,
        TokenType::Minus => BinaryOperation::Subtract,
        TokenType::Star => BinaryOperation::Multiply,
        TokenType::Slash => BinaryOperation::Divide,
        TokenType::Less => BinaryOperation::Less,
        TokenType::LessEqual => BinaryOperation::LessEqual,
        TokenType::Greater => BinaryOperation::Greater,
        TokenType::GreaterEqual => BinaryOperation::GreaterEqual,
        TokenType::EqualEqual => BinaryOperation::Equal,
        TokenType::Equal => BinaryOperation::Assign,
        _ => {
            return Err(p.make_error("Invalid binary operator"));
        },
    };
    Ok(Ast::Binary(bop, Box::new(left), Box::new(right)))
}

/// A parenthesised expression.
fn grouping(p: &mut Parser) -> (r: Result<Ast, String>)
    requires
        old(p).wf(),
        prefix_of(old(p).previous()) is Grouping,
    ensures
        final(p).wf(),
        final(p).tokens() == old(p).tokens(),
        final(p).cursor() >= old(p).cursor(),
        gives(r, parse_prefix(old(p).tokens(), old(p).cursor()), final(p).cursor()),
        r matches Ok(a) ==> returns_free(a),
    decreases old(p).remaining(), 2nat,
{
    let expr = expression(p)?;
    p.consume(TokenType::RParen, "Expected closing right parenthesis")?;
    Ok(expr)
}

/// A block: expressions up to the closing brace. An expression followed by
/// `;` becomes a statement, whose value is discarded.
fn block(p: &mut Parser) -> (r: Result<Ast, String>)
    requires
        old(p).wf(),
        prefix_of(old(p).previous()) is Block,
    ensures
        final(p).wf(),
        final(p).tokens() == old(p).tokens(),
        final(p).cursor() >= old(p).cursor(),
        gives(r, parse_prefix(old(p).tokens(), old(p).cursor()), final(p).cursor()),
        r matches Ok(a) ==> returns_free(a),
    decreases old(p).remaining(), 2nat,
{
    let ghost t = p.tokens();
    let ghost at = p.cursor();
    let mut items: Vec<Ast> = Vec::new();
    let ghost mut acc: Seq<Tree> = Seq::empty();
    while !p.check(TokenType::RCurly)
        invariant
            p.wf(),
            p.tokens() == t,
            t == old(p).tokens(),
            at == old(p).cursor(),
            p.cursor() >= at,
            p.remaining() <= old(p).remaining(),
            at >= 0,
            at <= t.len(),
            prefix_of(kind_at(t, at - 1)) is Block,
            forall|k: int| 0 <= k < items.len() ==> returns_free(#[trigger] items@[k]),
            acc.len() == items.len(),
            forall|k: int| 0 <= k < items.len() ==> acc[k] == tree_of(#[trigger] items@[k]),
            block_items(t, at, Seq::empty()) == block_items(t, p.cursor(), acc),
        decreases p.remaining(),
    {
        let ghost pos = p.cursor();
        let e = match expression(p) {
            Ok(e) => e,
            Err(m) => {
                assert(block_items(t, pos, acc) matches Err(x) && x == m@);
                assert(prefix_of(kind_at(t, at - 1)) is Block);
                assert(parse_prefix(t, at) matches Err(x) && x == m@);
                return Err(m);
            },
        };
        let is_statement = match e {
            Ast::Statement(_) => true,
            _ => false,
        };
        if p.check(TokenType::Semicolon) && !is_statement {
            p.advance();
            let ghost x = Ast::Statement(Box::new(e));
            items.push(Ast::Statement(Box::new(e)));
            proof {
                acc = acc.push(tree_of(x));
            }
        } else {
            let ghost x = e;
            items.push(e);
            proof {
                acc = acc.push(tree_of(x));
            }
        }
    }
    p.consume(TokenType::RCurly, "Expected closing right curly bracket")?;
    proof {
        lemma_items_returns_free(items, 0);
        lemma_trees_of(items, items.len() as int);
        assert forall|k: int| 0 <= k < acc.len() implies trees_of(items, items.len() as int)[k]
            == acc[k] by {
            assert(acc[k] == tree_of(items@[k]));
        }
        assert(trees_of(items, items.len() as int) =~= acc);
    }
    Ok(Ast::Block(items))
}

/// A conditional: condition and body, then any `else if` arms and an optional `else`.
fn if_else(p: &mut Parser) -> (r: Result<Ast, String>)
    requires
        old(p).wf(),
        prefix_of(old(p).previous()) is IfElse,
    ensures
        final(p).wf(),
        final(p).tokens() == old(p).tokens(),
        final(p).cursor() >= old(p).cursor(),
        gives(r, parse_prefix(old(p).tokens(), old(p).cursor()), final(p).cursor()),
        r matches Ok(a) ==> returns_free(a),
    decreases old(p).remaining(), 2nat,
{
    let ghost t = p.tokens();
    let ghost at = p.cursor();
    let if_cond = expression(p)?;
    let if_block = expression(p)?;
    let ghost start = p.cursor();
    let ghost whole = parse_prefix(t, at);
    assert(whole == match else_arms(t, start, Seq::empty()) {
        Ok((arms, els, end)) => Ok(
            (Tree::IfElse(Box::new(tree_of(if_cond)), Box::new(tree_of(if_block)), arms, els), end),
        ),
        Err(msg) => Err(msg),
    });
    let mut else_ifs: Vec<(Box<Ast>, Box<Ast>)> = Vec::new();
    let mut else_block: Option<Box<Ast>> = None;
    let ghost mut acc: Seq<(Tree, Tree)> = Seq::empty();
    let mut done = false;
    while !done && p.check(TokenType::KwElse)
        invariant
            p.wf(),
            p.tokens() == t,
            t == old(p).tokens(),
            at == old(p).cursor(),
            p.cursor() >= start,
            start >= at,
            p.remaining() <= old(p).remaining(),
            whole == parse_prefix(t, at),
            whole == match else_arms(t, start, Seq::empty()) {
                Ok((arms, els, end)) => Ok(
                    (Tree::IfElse(Box::new(tree_of(if_cond)), Box::new(tree_of(if_block)), arms, els), end),
                ),
                Err(msg) => Err(msg),
            },
            forall|k: int| 0 <= k < else_ifs.len() ==> returns_free(*(#[trigger] else_ifs@[k]).0) && returns_free(*else_ifs@[k].1),
            else_block matches Some(e) ==> returns_free(*e),
            acc.len() == else_ifs.len(),
            forall|k: int|
                0 <= k < else_ifs.len() ==> acc[k] == (
                    tree_of(*(#[trigger] else_ifs@[k]).0),
                    tree_of(*else_ifs@[k].1),
                ),
            !done ==> else_block is None,
            !done ==> else_arms(t, start, Seq::empty()) == else_arms(t, p.cursor(), acc),
            done ==> (else_block matches Some(e) && else_arms(t, start, Seq::empty()) matches Ok(v) && v == (
                acc,
                Some(Box::new(tree_of(*e))),
                p.cursor(),
            )),
        decreases p.remaining(), if done { 0int } else { 1int },
    {
        let ghost pos = p.cursor();
        p.advance();
        if p.check(TokenType::KwIf) {
            p.advance();
            let c = match expression(p) {
                Ok(c) => c,
                Err(m) => {
                    assert(else_arms(t, pos, acc) matches Err(x) && x == m@);
                    return Err(m);
                },
            };
            let b = match expression(p) {
                Ok(b) => b,
                Err(m) => {
                    assert(else_arms(t, pos, acc) matches Err(x) && x == m@);
                    return Err(m);
                },
            };
            proof {
                acc = acc.push((tree_of(c), tree_of(b)));
            }
            else_ifs.push((Box::new(c), Box::new(b)));
        } else {
            let e = match expression(p) {
                Ok(e) => e,
                Err(m) => {
                    assert(else_arms(t, pos, acc) matches Err(x) && x == m@);
                    return Err(m);
                },
            };
            else_block = Some(Box::new(e));
            done = true;
        }
    }
    proof {
        lemma_elifs_returns_free(else_ifs, 0);
        lemma_arms_of(else_ifs, else_ifs.len() as int);
        assert forall|k: int| 0 <= k < acc.len() implies arms_of(else_ifs, else_ifs.len() as int)[k]
            == acc[k] by {
            assert(acc[k] == (tree_of(*else_ifs@[k].0), tree_of(*else_ifs@[k].1)));
        }
        assert(arms_of(else_ifs, else_ifs.len() as int) =~= acc);
    }
    Ok(Ast::IfElse(Box::new(if_cond), Box::new(if_block), else_ifs, else_block))
}

/// A loop: condition, then body.
fn while_(p: &mut Parser) -> (r: Result<Ast, String>)
    requires
        old(p).wf(),
        prefix_of(old(p).previous()) is While,
    ensures
        final(p).wf(),
        final(p).tokens() == old(p).tokens(),
        final(p).cursor() >= old(p).cursor(),
        gives(r, parse_prefix(old(p).tokens(), old(p).cursor()), final(p).cursor()),
        r matches Ok(a) ==> returns_free(a),
    decreases old(p).remaining(), 2nat,
{
    let cond = expression(p)?;
    let body = expression(p)?;
    Ok(Ast::While(Box::new(cond), Box::new(body)))
}

/// A definition: `let [mut] name [= init]`, a statement when `;` follows.
fn let_(p: &mut Parser) -> (r: Result<Ast, String>)
    requires
        old(p).wf(),
        prefix_of(old(p).previous()) is Let,
    ensures
        final(p).wf(),
        final(p).tokens() == old(p).tokens(),
        final(p).cursor() >= old(p).cursor(),
        gives(r, parse_prefix(old(p).tokens(), old(p).cursor()), final(p).cursor()),
        r matches Ok(a) ==> returns_free(a),
    decreases old(p).remaining(), 2nat,
{
    let mut mutable = false;
    if p.check(TokenType::KwMut) {
        p.advance();
        mutable = true;
    }
    p.consume(TokenType::Identifier, "Expected identifier for variable name")?;
    let t = &p.tokens[p.cur - 1];
    let ident = match &t.data {
        TokenData::String(s) => s.clone(),
        _ => {
            return Err(p.make_error("Could not read identifier name from token"));
        },
    };
    let val_expr: Option<Box<Ast>> = if p.check(TokenType::Equal) {
        p.advance();
        Some(Box::new(expression(p)?))
    } else {
        None
    };
    let sig = VariableSignature { mutable, type_sig: None };
    if p.check(TokenType::Semicolon) {
        p.advance();
        let node = Ast::Let(ident, sig, val_expr);
        assert(returns_free(node));
        assert(tree_of(Ast::Statement(Box::new(node))) == Tree::Statement(Box::new(tree_of(node))));
        return Ok(Ast::Statement(Box::new(node)));
    }
    Ok(Ast::Let(ident, sig, val_expr))
}

} // verus!
