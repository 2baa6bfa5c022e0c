use tachyon::ast::{Ast, BinaryOperation, UnaryOperation, VariableSignature};
use tachyon::bytecode::{ByteOp, Bytecode, Value};
use tachyon::parser::Parser;
use tachyon::token::{Position, Token, TokenData, TokenType};
use tachyon::vm::{NumOp, StackVm, Step};

fn at(col: i32) -> Position {
    Position { line: 1, col }
}

fn tok(k: TokenType) -> Token {
    Token::new(k, TokenData::Empty, at(0))
}

fn num(x: f64) -> Token {
    Token::new(TokenType::Number, TokenData::Number(x.to_bits()), at(0))
}

fn ident(name: &str) -> Token {
    Token::new(TokenType::Identifier, TokenData::String(name.to_string()), at(0))
}

fn number(x: f64) -> Value {
    Value::Number(x.to_bits())
}

fn compute(op: NumOp, a: u64, b: u64) -> Value {
    let x = f64::from_bits(a);
    let y = f64::from_bits(b);
    match op {
        NumOp::Add => Value::Number((x + y).to_bits()),
        NumOp::Sub => Value::Number((x - y).to_bits()),
        NumOp::Mul => Value::Number((x * y).to_bits()),
        NumOp::Div => Value::Number((x / y).to_bits()),
        NumOp::Negate => Value::Number((-x).to_bits()),
        NumOp::Equal => Value::Bool(x == y),
        NumOp::Greater => Value::Bool(x > y),
        NumOp::Less => Value::Bool(x < y),
    }
}

fn run(bc: &Bytecode) -> Result<Value, String> {
    let mut vm = StackVm::new();
    loop {
        match vm.step(bc) {
            Step::Running => {}
            Step::Halted(v) => return Ok(v),
            Step::Faulted(m) => return Err(m),
            Step::Compute(op, a, b) => {
                if !vm.supply(compute(op, a, b)) {
                    return Err("Numeric result of the wrong kind".to_string());
                }
            }
        }
    }
}

fn eval(tokens: Vec<Token>) -> Result<Value, String> {
    let ast = Parser::parse(tokens)?;
    let bc = Bytecode::new(ast)?;
    run(&bc)
}

use tachyon::token::TokenType::{
    Bang, Equal, KwElse, KwFalse, KwIf, KwLet, KwMut, KwTrue, KwWhile, LCurly, LParen, Less, Minus,
    Plus, RCurly, RParen, Semicolon, Slash, Star,
};

#[test]
fn precedence_multiplies_first() {
    let r = eval(vec![num(1.0), tok(Plus), num(2.0), tok(Star), num(3.0)]);
    assert_eq!(r, Ok(number(7.0)));
}

#[test]
fn block_with_two_lets() {
    let r = eval(vec![
        tok(LCurly),
        tok(KwLet), ident("x"), tok(Equal), num(10.0), tok(Semicolon),
        tok(KwLet), ident("y"), tok(Equal), num(20.0), tok(Semicolon),
        ident("x"), tok(Plus), ident("y"),
        tok(RCurly),
    ]);
    assert_eq!(r, Ok(number(30.0)));
}

#[test]
fn while_loop_counts_to_three() {
    let r = eval(vec![
        tok(LCurly),
        tok(KwLet), tok(KwMut), ident("x"), tok(Equal), num(0.0), tok(Semicolon),
        tok(KwWhile), ident("x"), tok(Less), num(3.0),
        tok(LCurly), ident("x"), tok(Equal), ident("x"), tok(Plus), num(1.0), tok(RCurly),
        tok(Semicolon),
        ident("x"),
        tok(RCurly),
    ]);
    assert_eq!(r, Ok(number(3.0)));
}

#[test]
fn if_takes_then_branch() {
    let r = eval(vec![
        tok(KwIf), num(1.0), tok(Less), num(2.0),
        tok(LCurly), num(42.0), tok(RCurly),
        tok(KwElse), tok(LCurly), num(99.0), tok(RCurly),
    ]);
    assert_eq!(r, Ok(number(42.0)));
}

#[test]
fn else_if_arm_is_taken() {
    let r = eval(vec![
        tok(KwIf), tok(KwFalse), tok(LCurly), num(1.0), tok(RCurly),
        tok(KwElse), tok(KwIf), tok(KwTrue), tok(LCurly), num(2.0), tok(RCurly),
        tok(KwElse), tok(LCurly), num(3.0), tok(RCurly),
    ]);
    assert_eq!(r, Ok(number(2.0)));
}

#[test]
fn adding_a_bool_is_a_runtime_error() {
    let tokens = vec![
        tok(Minus), tok(LParen), num(3.0), tok(RParen),
        tok(Plus),
        tok(Bang), tok(LParen), tok(KwTrue), tok(RParen),
    ];
    let ast = Parser::parse(tokens).expect("parses");
    let bc = Bytecode::new(ast).expect("lowers");
    let r = run(&bc);
    assert!(r.is_err());
    assert!(r.unwrap_err().contains("bool"));
}

#[test]
fn redefinition_is_a_runtime_error() {
    let tokens = vec![
        tok(LCurly),
        tok(KwLet), ident("x"), tok(Equal), num(1.0), tok(Semicolon),
        tok(KwLet), ident("x"), tok(Equal), num(2.0), tok(Semicolon),
        ident("x"),
        tok(RCurly),
    ];
    let ast = Parser::parse(tokens).expect("parses");
    let bc = Bytecode::new(ast).expect("lowers");
    let r = run(&bc);
    assert_eq!(r, Err("Variable already defined".to_string()));
}

#[test]
fn empty_block_is_nil() {
    let tokens = vec![tok(LCurly), tok(RCurly)];
    let ast = Parser::parse(tokens).expect("parses");
    let bc = Bytecode::new(ast).expect("lowers");
    assert_eq!(bc.ops, vec![ByteOp::ScopeOpen, ByteOp::ScopeClose]);
    assert_eq!(run(&bc), Ok(Value::Nil));
}

#[test]
fn while_false_runs_no_body() {
    let r = eval(vec![
        tok(KwWhile), tok(KwFalse),
        tok(LCurly), tok(KwLet), ident("y"), tok(Equal), num(5.0), tok(Semicolon), tok(RCurly),
    ]);
    assert_eq!(r, Ok(Value::Nil));
}

#[test]
fn pool_keeps_one_entry_per_number() {
    let tokens = vec![num(4.0), tok(Plus), num(4.0), tok(Plus), num(4.0), tok(Star), num(2.0)];
    let ast = Parser::parse(tokens).expect("parses");
    let bc = Bytecode::new(ast).expect("lowers");
    assert_eq!(bc.constants, vec![number(4.0), number(2.0)]);
    assert_eq!(
        bc.ops,
        vec![
            ByteOp::Load(0),
            ByteOp::Load(0),
            ByteOp::Load(0),
            ByteOp::Load(1),
            ByteOp::Mul,
            ByteOp::Add,
            ByteOp::Add,
        ]
    );
}

#[test]
fn lowering_twice_gives_equal_bytecode() {
    let make = || {
        vec![
            tok(KwIf), num(1.0), tok(Less), num(2.0),
            tok(LCurly), num(42.0), tok(RCurly),
            tok(KwElse), tok(LCurly), num(99.0), tok(RCurly),
        ]
    };
    let a = Bytecode::new(Parser::parse(make()).unwrap()).unwrap();
    let b = Bytecode::new(Parser::parse(make()).unwrap()).unwrap();
    assert_eq!(a.constants, b.constants);
    assert_eq!(a.ops, b.ops);
}

#[test]
fn rerun_gives_same_value() {
    let tokens = vec![num(6.0), tok(Slash), num(4.0)];
    let bc = Bytecode::new(Parser::parse(tokens).unwrap()).unwrap();
    assert_eq!(run(&bc), Ok(number(1.5)));
    assert_eq!(run(&bc), Ok(number(1.5)));
}

#[test]
fn jumps_of_if_else_land_inside() {
    let tokens = vec![
        tok(KwIf), tok(KwFalse), tok(LCurly), num(1.0), tok(RCurly),
        tok(KwElse), tok(KwIf), tok(KwTrue), tok(LCurly), num(2.0), tok(RCurly),
        tok(KwElse), tok(LCurly), num(3.0), tok(RCurly),
    ];
    let bc = Bytecode::new(Parser::parse(tokens).unwrap()).unwrap();
    let n = bc.ops.len() as i64;
    for (i, op) in bc.ops.iter().enumerate() {
        if let ByteOp::Jump(d) | ByteOp::JumpFalse(d) | ByteOp::JumpTrue(d) = op {
            let t = i as i64 + *d as i64;
            assert!(t >= 0 && t <= n);
        }
    }
    assert_eq!(
        bc.ops,
        vec![
            ByteOp::False,
            ByteOp::JumpFalse(5),
            ByteOp::ScopeOpen,
            ByteOp::Load(0),
            ByteOp::Return,
            ByteOp::Jump(10),
            ByteOp::True,
            ByteOp::JumpFalse(5),
            ByteOp::ScopeOpen,
            ByteOp::Load(1),
            ByteOp::Return,
            ByteOp::Jump(4),
            ByteOp::ScopeOpen,
            ByteOp::Load(2),
            ByteOp::Return,
        ]
    );
}

#[test]
fn long_loop_body_is_rejected() {
    let mut items = Vec::new();
    for _ in 0..20000 {
        items.push(Ast::Statement(Box::new(Ast::Bool(true))));
    }
    let body = Ast::Block(items);
    let ast = Ast::While(Box::new(Ast::Bool(false)), Box::new(body));
    assert!(Bytecode::new(ast).is_err());
}

#[test]
fn assignment_to_a_number_is_rejected() {
    let ast = Ast::Binary(
        BinaryOperation::Assign,
        Box::new(Ast::Number(1.0f64.to_bits())),
        Box::new(Ast::Number(2.0f64.to_bits())),
    );
    assert_eq!(Bytecode::new(ast).unwrap_err(), "Assign must assign to variable");
}

#[test]
fn expression_before_last_block_slot_is_rejected() {
    let ast = Ast::Block(vec![Ast::Bool(true), Ast::Bool(false)]);
    assert!(Bytecode::new(ast).is_err());
}

#[test]
fn unimplemented_nodes_are_rejected() {
    assert!(Bytecode::new(Ast::String("s".to_string())).is_err());
    let ne = Ast::Binary(
        BinaryOperation::NotEqual,
        Box::new(Ast::Bool(true)),
        Box::new(Ast::Bool(true)),
    );
    assert!(Bytecode::new(ne).is_err());
}

#[test]
fn variable_ids_differ_by_name() {
    let a = Bytecode::new(Ast::Identifier("a".to_string())).unwrap();
    let b = Bytecode::new(Ast::Identifier("b".to_string())).unwrap();
    let a2 = Bytecode::new(Ast::Identifier("a".to_string())).unwrap();
    assert_ne!(a.ops, b.ops);
    assert_eq!(a.ops, a2.ops);
}

#[test]
fn undefined_variable_read_fails() {
    let bc = Bytecode::new(Ast::Block(vec![Ast::Identifier("q".to_string())])).unwrap();
    assert!(run(&bc).is_err());
}

#[test]
fn less_equal_lowers_to_greater_not() {
    let ast = Ast::Binary(
        BinaryOperation::LessEqual,
        Box::new(Ast::Number(1.0f64.to_bits())),
        Box::new(Ast::Number(1.0f64.to_bits())),
    );
    let bc = Bytecode::new(ast).unwrap();
    assert_eq!(bc.ops, vec![ByteOp::Load(0), ByteOp::Load(0), ByteOp::Greater, ByteOp::Not]);
    assert_eq!(run(&bc), Ok(Value::Bool(true)));
}

#[test]
fn negate_and_not_lower_in_order() {
    let ast = Ast::Unary(UnaryOperation::Not, Box::new(Ast::Bool(false)));
    let bc = Bytecode::new(ast).unwrap();
    assert_eq!(bc.ops, vec![ByteOp::False, ByteOp::Not]);
}

#[test]
fn let_without_semicolon_is_an_expression() {
    let ast = Parser::parse(vec![tok(KwLet), ident("z")]).unwrap();
    match ast {
        Ast::Let(name, sig, init) => {
            assert_eq!(name, "z");
            assert_eq!(sig, VariableSignature { mutable: false, type_sig: None });
            assert!(init.is_none());
        }
        _ => panic!("expected a let"),
    }
}

#[test]
fn parse_error_names_the_position() {
    let tokens = vec![
        Token::new(TokenType::LParen, TokenData::Empty, Position { line: 3, col: 7 }),
        Token::new(TokenType::Number, TokenData::Number(1.0f64.to_bits()), Position { line: 3, col: 8 }),
    ];
    let e = Parser::parse(tokens).unwrap_err();
    assert_eq!(e, "Line: 3, Col: 8, Expected closing right parenthesis");
}

#[test]
fn empty_input_does_not_parse() {
    assert!(Parser::parse(vec![]).is_err());
}

#[test]
fn subtraction_groups_to_the_right() {
    let ast = Parser::parse(vec![num(8.0), tok(Minus), num(4.0), tok(Minus), num(2.0)]).unwrap();
    let bc = Bytecode::new(ast).unwrap();
    assert_eq!(run(&bc), Ok(number(6.0)));
}

#[test]
fn lexer_reads_keywords_and_operators() {
    let src: Vec<char> = "let mut x <= 12.5 != y".chars().collect();
    let kinds: Vec<TokenType> = tachyon::lexer::lex(&src).iter().map(|t| t.token_type).collect();
    assert_eq!(
        kinds,
        vec![
            TokenType::KwLet,
            TokenType::KwMut,
            TokenType::Identifier,
            TokenType::LessEqual,
            TokenType::Number,
            TokenType::BangEqual,
            TokenType::Identifier,
        ]
    );
}

#[test]
fn lexer_keeps_text_and_positions() {
    let src: Vec<char> = "{\n  foo_1 \"hi\"".chars().collect();
    let toks = tachyon::lexer::lex(&src);
    assert_eq!(toks.len(), 3);
    assert_eq!(toks[1].pos, Position { line: 2, col: 3 });
    match &toks[1].data {
        TokenData::String(s) => assert_eq!(s, "foo_1"),
        _ => panic!("expected text"),
    }
    match &toks[2].data {
        TokenData::String(s) => assert_eq!(s, "hi"),
        _ => panic!("expected text"),
    }
    assert_eq!(toks[2].token_type, TokenType::String);
}

#[test]
fn lexer_marks_unknown_characters() {
    let src: Vec<char> = "1 @".chars().collect();
    let toks = tachyon::lexer::lex(&src);
    assert_eq!(toks[1].token_type, TokenType::Error);
}

#[test]
fn scopes_opened_are_closed_in_lowered_code() {
    let tokens = vec![
        tok(LCurly),
        tok(KwLet), tok(KwMut), ident("x"), tok(Equal), num(0.0), tok(Semicolon),
        tok(KwWhile), ident("x"), tok(Less), num(3.0),
        tok(LCurly), ident("x"), tok(Equal), ident("x"), tok(Plus), num(1.0), tok(RCurly),
        tok(Semicolon),
        tok(LCurly), tok(RCurly), tok(Semicolon),
        ident("x"),
        tok(RCurly),
    ];
    let bc = Bytecode::new(Parser::parse(tokens).unwrap()).unwrap();
    let mut balance = 0i32;
    for op in &bc.ops {
        match op {
            ByteOp::ScopeOpen => balance += 1,
            ByteOp::ScopeClose | ByteOp::Return => balance -= 1,
            _ => {}
        }
    }
    assert_eq!(balance, 0);
}

#[test]
fn assigning_an_undefined_variable_fails() {
    let r = eval(vec![tok(LCurly), ident("q"), tok(Equal), num(1.0), tok(RCurly)]);
    assert_eq!(r, Err("Variable not defined".to_string()));
}

#[test]
fn trailing_tokens_are_a_parse_error() {
    let e = Parser::parse(vec![num(1.0), num(2.0)]).unwrap_err();
    assert!(e.ends_with("Expected EOF"));
}

#[test]
fn missing_operand_is_a_parse_error() {
    let e = Parser::parse(vec![num(1.0), tok(Plus)]).unwrap_err();
    assert_eq!(e, "Line: -1, Col: -1, Expected prefix expression");
}

#[test]
fn nested_block_value_flows_out() {
    let r = eval(vec![
        tok(LCurly),
        tok(KwLet), ident("a"), tok(Equal), num(5.0), tok(Semicolon),
        tok(LCurly), ident("a"), tok(Star), num(2.0), tok(RCurly),
        tok(RCurly),
    ]);
    assert_eq!(r, Ok(number(10.0)));
}

#[test]
fn if_without_else_skips_its_body() {
    let r = eval(vec![
        tok(LCurly),
        tok(KwLet), tok(KwMut), ident("x"), tok(Equal), num(1.0), tok(Semicolon),
        tok(KwIf), tok(KwFalse), tok(LCurly), ident("x"), tok(Equal), num(2.0), tok(RCurly),
        tok(Semicolon),
        ident("x"),
        tok(RCurly),
    ]);
    assert_eq!(r, Ok(number(1.0)));
}

#[test]
fn trailing_token_error_names_the_last_parsed_token() {
    let first = Token::new(TokenType::Number, TokenData::Number(1.0f64.to_bits()), Position { line: 2, col: 5 });
    let second = Token::new(TokenType::Number, TokenData::Number(2.0f64.to_bits()), Position { line: 2, col: 7 });
    let e = Parser::parse(vec![first, second]).unwrap_err();
    assert_eq!(e, "Line: 2, Col: 5, Expected EOF");
}

#[test]
fn lexer_stops_a_number_at_a_dot_without_digits() {
    let src: Vec<char> = "12.x 3.25".chars().collect();
    let toks = tachyon::lexer::lex(&src);
    let kinds: Vec<TokenType> = toks.iter().map(|t| t.token_type).collect();
    assert_eq!(kinds, vec![TokenType::Number, TokenType::Dot, TokenType::Identifier, TokenType::Number]);
    match &toks[3].data {
        TokenData::String(s) => assert_eq!(s, "3.25"),
        _ => panic!("number token without text"),
    }
    assert_eq!(toks[3].pos, Position { line: 1, col: 6 });
}

#[test]
fn lexer_marks_an_unterminated_string() {
    let src: Vec<char> = "a \"bc".chars().collect();
    let toks = tachyon::lexer::lex(&src);
    assert_eq!(toks.len(), 2);
    assert_eq!(toks[1].token_type, TokenType::Error);
    assert_eq!(toks[1].pos, Position { line: 1, col: 3 });
}

#[test]
fn parse_error_writes_positions_in_decimal() {
    let first = Token::new(TokenType::Number, TokenData::Number(1.0f64.to_bits()), Position { line: 12, col: 345 });
    let second = Token::new(TokenType::RParen, TokenData::Empty, Position { line: 12, col: 347 });
    let e = Parser::parse(vec![first, second]).unwrap_err();
    assert_eq!(e, "Line: 12, Col: 345, Expected EOF");
}

#[test]
fn unknown_prefix_is_reported_at_that_token() {
    let first = Token::new(TokenType::RParen, TokenData::Empty, Position { line: 3, col: 9 });
    let e = Parser::parse(vec![first]).unwrap_err();
    assert_eq!(e, "Line: 3, Col: 9, Expected prefix expression");
}

fn tok_at(k: TokenType, line: i32, col: i32) -> Token {
    Token::new(k, TokenData::Empty, Position { line, col })
}

#[test]
fn operator_without_binary_meaning_is_reported_after_its_operand() {
    let tokens = vec![
        Token::new(TokenType::Number, TokenData::Number(1.0f64.to_bits()), Position { line: 1, col: 1 }),
        tok_at(TokenType::BangEqual, 1, 3),
        Token::new(TokenType::Number, TokenData::Number(2.0f64.to_bits()), Position { line: 1, col: 6 }),
    ];
    let e = Parser::parse(tokens).unwrap_err();
    assert_eq!(e, "Line: 1, Col: 6, Invalid binary operator");
}

#[test]
fn let_without_a_name_is_reported_at_let() {
    let tokens = vec![
        tok_at(TokenType::KwLet, 4, 2),
        Token::new(TokenType::Number, TokenData::Number(5.0f64.to_bits()), Position { line: 4, col: 6 }),
    ];
    let e = Parser::parse(tokens).unwrap_err();
    assert_eq!(e, "Line: 4, Col: 2, Expected identifier for variable name");
}

#[test]
fn let_mut_without_a_name_is_reported_at_mut() {
    let tokens = vec![tok_at(TokenType::KwLet, 1, 1), tok_at(TokenType::KwMut, 1, 5), tok_at(TokenType::Semicolon, 1, 8)];
    let e = Parser::parse(tokens).unwrap_err();
    assert_eq!(e, "Line: 1, Col: 5, Expected identifier for variable name");
}

#[test]
fn unclosed_parenthesis_is_reported() {
    let tokens = vec![
        tok_at(TokenType::LParen, 1, 1),
        Token::new(TokenType::Number, TokenData::Number(5.0f64.to_bits()), Position { line: 1, col: 2 }),
    ];
    let e = Parser::parse(tokens).unwrap_err();
    assert_eq!(e, "Line: 1, Col: 2, Expected closing right parenthesis");
}

#[test]
fn bare_expression_before_the_end_of_a_block_is_rejected() {
    let ast = Ast::Block(vec![Ast::Bool(true), Ast::Bool(false)]);
    assert_eq!(
        Bytecode::new(ast).unwrap_err(),
        "Only the last element in a block may be an expression"
    );
}

#[test]
fn not_equal_is_not_lowered() {
    let ast = Ast::Binary(
        BinaryOperation::NotEqual,
        Box::new(Ast::Number(1.0f64.to_bits())),
        Box::new(Ast::Number(2.0f64.to_bits())),
    );
    assert_eq!(Bytecode::new(ast).unwrap_err(), "Non implemented AST node");
}

#[test]
fn a_long_loop_fails_with_the_jump_message() {
    let mut items = Vec::new();
    for _ in 0..20000 {
        items.push(Ast::Statement(Box::new(Ast::Bool(true))));
    }
    let ast = Ast::While(Box::new(Ast::Bool(false)), Box::new(Ast::Block(items)));
    assert_eq!(Bytecode::new(ast).unwrap_err(), "Jump offset does not fit in 16 bits");
}

#[test]
fn while_false_never_runs_its_body() {
    let body = Ast::Block(vec![Ast::Let(
        "z".to_string(),
        VariableSignature { mutable: false, type_sig: None },
        Some(Box::new(Ast::Number(1.0f64.to_bits()))),
    )]);
    let bc = Bytecode::new(Ast::While(Box::new(Ast::Bool(false)), Box::new(body))).unwrap();
    assert_eq!(run(&bc), Ok(Value::Nil));
}

#[test]
fn repeated_literals_share_one_pool_entry() {
    let two = || Box::new(Ast::Number(2.0f64.to_bits()));
    let ast = Ast::Binary(
        BinaryOperation::Add,
        Box::new(Ast::Binary(BinaryOperation::Multiply, two(), two())),
        Box::new(Ast::Binary(BinaryOperation::Add, two(), Box::new(Ast::Number(3.0f64.to_bits())))),
    );
    let bc = Bytecode::new(ast).unwrap();
    assert_eq!(bc.constants, vec![number(2.0), number(3.0)]);
}
