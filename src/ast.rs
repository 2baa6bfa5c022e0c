use vstd::prelude::*;
use crate::token::Position;

verus! {

/// The primitive types a type signature can name.
#[derive(Clone, Copy, Debug, PartialEq, Eq, Hash, Structural)]
pub enum PrimitiveType {
    Nil,
    Bool,
    I8,
    I16,
    I32,
    I64,
    U8,
    U16,
    U32,
    U64,
}

/// Maps the name of a primitive type to the type it names.
pub open spec fn primitive_named(s: Seq<char>) -> Option<PrimitiveType> {
    if s == "Nil"@ {
        Some(PrimitiveType::Nil)
    } else if s == "Bool"@ {
        Some(PrimitiveType::Bool)
    } else if s == "I8"@ {
        Some(PrimitiveType::I8)
    } else if s == "I16"@ {
        Some(PrimitiveType::I16)
    } else if s == "I32"@ {
        Some(PrimitiveType::I32)
    } else if s == "I64"@ {
        Some(PrimitiveType::I64)
    } else if s == "U8"@ {
        Some(PrimitiveType::U8)
    } else if s == "U16"@ {
        Some(PrimitiveType::U16)
    } else if s == "U32"@ {
        Some(PrimitiveType::U32)
    } else if s == "U64"@ {
        Some(PrimitiveType::U64)
    } else {
        None
    }
}

fn str_is(a: &str, b: &str) -> (r: bool)
    ensures
        r == (a@ == b@),
{
    let x = a.to_owned();
    let y = b.to_owned();
    x == y
}

/// A type signature as written in source: a primitive, a function type or a named type.
#[derive(Debug, PartialEq, Eq, Hash)]
pub enum TypeSignature {
    Primitive(PrimitiveType),
    Function(FunctionSignature),
    Custom(String),
}

/// The signature of a variable: whether it may be assigned, and its declared type.
#[derive(Debug, PartialEq, Eq, Hash)]
pub struct VariableSignature {
    pub mutable: bool,
    pub type_sig: Option<TypeSignature>,
}

/// The signature of a function: its parameters and its declared result type.
#[derive(Debug, PartialEq, Eq, Hash)]
pub struct FunctionSignature {
    pub params: Vec<VariableSignature>,
    pub return_type: Option<Box<TypeSignature>>,
}

/// Whether `r` is the signature that the type name `s` denotes: a primitive
/// for the ten primitive names, a custom type of that name otherwise.
pub open spec fn denotes(r: TypeSignature, s: Seq<char>) -> bool {
    match primitive_named(s) {
        Some(p) => r == TypeSignature::Primitive(p),
        None => r matches TypeSignature::Custom(name) && name@ == s,
    }
}

pub open spec fn prim_is_number(p: PrimitiveType) -> bool {
    !(p is Nil) && !(p is Bool)
}

pub open spec fn prim_is_signed(p: PrimitiveType) -> bool {
    p is I8 || p is I16 || p is I32 || p is I64
}

pub open spec fn prim_is_unsigned(p: PrimitiveType) -> bool {
    p is U8 || p is U16 || p is U32 || p is U64
}

impl TypeSignature {
    /// Reads a type name.
    pub fn new(t: &str) -> (r: TypeSignature)
        ensures
            denotes(r, t@),
    {
        if str_is(t, "Nil") {
            TypeSignature::Primitive(PrimitiveType::Nil)
        } else if str_is(t, "Bool") {
            TypeSignature::Primitive(PrimitiveType::Bool)
        } else if str_is(t, "I8") {
            TypeSignature::Primitive(PrimitiveType::I8)
        } else if str_is(t, "I16") {
            TypeSignature::Primitive(PrimitiveType::I16)
        } else if str_is(t, "I32") {
            TypeSignature::Primitive(PrimitiveType::I32)
        } else if str_is(t, "I64") {
            TypeSignature::Primitive(PrimitiveType::I64)
        } else if str_is(t, "U8") {
            TypeSignature::Primitive(PrimitiveType::U8)
        } else if str_is(t, "U16") {
            TypeSignature::Primitive(PrimitiveType::U16)
        } else if str_is(t, "U32") {
            TypeSignature::Primitive(PrimitiveType::U32)
        } else if str_is(t, "U64") {
            TypeSignature::Primitive(PrimitiveType::U64)
        } else {
            TypeSignature::Custom(t.to_owned())
        }
    }

    pub fn is_number(&self) -> (r: bool)
        ensures
            r == (*self matches TypeSignature::Primitive(p) && prim_is_number(p)),
    {
        match self {
            TypeSignature::Primitive(p) => match p {
                PrimitiveType::Nil | PrimitiveType::Bool => false,
                _ => true,
            },
            _ => false,
        }
    }

    pub fn is_bool(&self) -> (r: bool)
        ensures
            r == (*self matches TypeSignature::Primitive(p) && p is Bool),
    {
        match self {
            TypeSignature::Primitive(p) => match p {
                PrimitiveType::Bool => true,
                _ => false,
            },
            _ => false,
        }
    }

    pub fn is_nil(&self) -> (r: bool)
        ensures
            r == (*self matches TypeSignature::Primitive(p) && p is Nil),
    {
        match self {
            TypeSignature::Primitive(p) => match p {
                PrimitiveType::Nil => true,
                _ => false,
            },
            _ => false,
        }
    }

    pub fn is_signed(&self) -> (r: bool)
        ensures
            r == (*self matches TypeSignature::Primitive(p) && prim_is_signed(p)),
    {
        match self {
            TypeSignature::Primitive(p) => match p {
                PrimitiveType::I8
                | PrimitiveType::I16
                | PrimitiveType::I32
                | PrimitiveType::I64 => true,
                _ => false,
            },
            _ => false,
        }
    }

    pub fn is_unsigned(&self) -> (r: bool)
        ensures
            r == (*self matches TypeSignature::Primitive(p) && prim_is_unsigned(p)),
    {
        match self {
            TypeSignature::Primitive(p) => match p {
                PrimitiveType::U8
                | PrimitiveType::U16
                | PrimitiveType::U32
                | PrimitiveType::U64 => true,
                _ => false,
            },
            _ => false,
        }
    }

    pub fn is_function(&self) -> (r: bool)
        ensures
            r == (self is Function),
    {
        match self {
            TypeSignature::Function(_) => true,
            _ => false,
        }
    }

    pub fn is_custom(&self) -> (r: bool)
        ensures
            r == (self is Custom),
    {
        match self {
            TypeSignature::Custom(_) => true,
            _ => false,
        }
    }
}

/// Binary operators of the language.
#[derive(Clone, Copy, Debug, PartialEq, Eq, Structural)]
pub enum BinaryOperation {
    Add,
    Subtract,
    Multiply,
    Divide,
    Less,
    LessEqual,
    Greater,
    GreaterEqual,
    Equal,
    NotEqual,
    And,
    Or,
    Assign,
}

/// Unary operators of the language.
#[derive(Clone, Copy, Debug, PartialEq, Eq, Structural)]
pub enum UnaryOperation {
    Negate,
    Not,
}

/// An expression tree. A number literal holds the bit pattern of its IEEE-754
/// double (`f64::to_bits`), so that the tree carries it without arithmetic.
#[derive(Debug)]
pub enum Ast {
    Identifier(String),
    Number(u64),
    String(String),
    Bool(bool),
    /// An expression whose value is discarded.
    Statement(Box<Ast>),
    Binary(BinaryOperation, Box<Ast>, Box<Ast>),
    Unary(UnaryOperation, Box<Ast>),
    Return(Box<Ast>),
    Block(Vec<Ast>),
    /// Condition, then-branch, else-if arms, optional else-branch.
    IfElse(Box<Ast>, Box<Ast>, Vec<(Box<Ast>, Box<Ast>)>, Option<Box<Ast>>),
    While(Box<Ast>, Box<Ast>),
    Let(String, VariableSignature, Option<Box<Ast>>),
    Import(String, Box<Ast>),
    FnDef(FunctionSignature, Vec<String>, Box<Ast>),
    FnCall(Box<Ast>, Vec<Ast>),
    As(Box<Ast>, TypeSignature),
}

/// A tree node together with its source position and optional type.
#[derive(Debug)]
pub struct AstNode {
    pub node: Ast,
    pub pos: Position,
    pub type_sig: Option<TypeSignature>,
}

} // verus!
