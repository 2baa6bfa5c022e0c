use vstd::prelude::*;
use crate::ast::{Ast, BinaryOperation, UnaryOperation};
use crate::lowering_proofs::{
    jumps_inside, lemma_lower_balanced, lemma_lower_extends, lemma_lower_jumps, pool_distinct,
    returns_free, scope_balance,
};

verus! {

broadcast use vstd::std_specs::vec::group_vec_axioms;

/// A runtime value. A number is held as the bit pattern of an IEEE-754
/// double (`f64::to_bits`); arithmetic on it is done by the VM's driver.
#[derive(Clone, Copy, Debug, PartialEq, Eq, Structural)]
pub enum Value {
    Nil,
    Number(u64),
    Bool(bool),
}

/// One bytecode instruction. Jump offsets are relative to the jump itself.
#[derive(Clone, Copy, Debug, PartialEq, Eq, Structural)]
pub enum ByteOp {
    Load(u16),
    True,
    False,
    Nil,
    Add,
    Sub,
    Mul,
    Div,
    Not,
    Equal,
    Greater,
    Less,
    Negate,
    ScopeOpen,
    ScopeClose,
    DefVar(u64),
    SetVar(u64),
    GetVar(u64),
    Jump(i16),
    JumpFalse(i16),
    JumpTrue(i16),
    Pop,
    Return,
}

/// A constant pool and the instructions that refer to it.
#[derive(Clone, Debug)]
pub struct Bytecode {
    pub constants: Vec<Value>,
    pub ops: Vec<ByteOp>,
}

/// The number of entries a constant pool can hold: a `Load` index is a `u16`.
pub const POOL_CAPACITY: usize = 65536;

/// The identifier of a variable: a 64-bit hash of its name.
pub uninterp spec fn name_hash(name: Seq<char>) -> u64;

/// Relies on std's `DefaultHasher` (built by `DefaultHasher::new`, fed the name
/// through `Hash for str`, read by `Hasher::finish`): its keys are fixed, so the
/// result depends on the name alone.
#[verifier::external_body]
fn variable_id(name: &str) -> (r: u64)
    ensures
        r == name_hash(name@),
{
    let mut s = std::collections::hash_map::DefaultHasher::new();
    std::hash::Hash::hash(name, &mut s);
    std::hash::Hasher::finish(&s)
}

pub open spec fn fits_i16(d: int) -> bool {
    -32768 <= d <= 32767
}

/// The index of the first entry at or after `from` that equals `v`, or -1.
pub open spec fn first_match(c: Seq<Value>, v: Value, from: int) -> int
    decreases c.len() - from,
{
    if from < 0 || from >= c.len() {
        -1
    } else if c[from] == v {
        from
    } else {
        first_match(c, v, from + 1)
    }
}

/// The instructions that a binary operator other than assignment lowers to.
pub open spec fn binary_ops(op: BinaryOperation) -> Option<Seq<ByteOp>> {
    match op {
        BinaryOperation::Add => Some(seq![ByteOp::Add]),
        BinaryOperation::Subtract => Some(seq![ByteOp::Sub]),
        BinaryOperation::Multiply => Some(seq![ByteOp::Mul]),
        BinaryOperation::Divide => Some(seq![ByteOp::Div]),
        BinaryOperation::Less => Some(seq![ByteOp::Less]),
        BinaryOperation::LessEqual => Some(seq![ByteOp::Greater, ByteOp::Not]),
        BinaryOperation::Greater => Some(seq![ByteOp::Greater]),
        BinaryOperation::GreaterEqual => Some(seq![ByteOp::Less, ByteOp::Not]),
        BinaryOperation::Equal => Some(seq![ByteOp::Equal]),
        _ => None,
    }
}

/// Whether a block's last item is a bare expression, whose value the block yields.
pub open spec fn yields_value(items: Seq<Ast>) -> bool {
    items.len() > 0 && !(items.last() is Statement)
}

/// Appending the lowering of `a` to the pool `c` and the instructions `o`:
/// the new pool and instructions, or `None` where lowering fails.
pub open spec fn lower(c: Seq<Value>, o: Seq<ByteOp>, a: Ast) -> Option<(Seq<Value>, Seq<ByteOp>)>
    decreases a, 0nat,
{
    match a {
        Ast::Identifier(n) => Some((c, o.push(ByteOp::GetVar(name_hash(n@))))),
        Ast::Number(bits) => {
            let k = first_match(c, Value::Number(bits), 0);
            if k >= 0 {
                Some((c, o.push(ByteOp::Load(k as u16))))
            } else if c.len() < POOL_CAPACITY {
                Some((c.push(Value::Number(bits)), o.push(ByteOp::Load(c.len() as u16))))
            } else {
                None
            }
        },
        Ast::Bool(b) => Some((c, o.push(if b { ByteOp::True } else { ByteOp::False }))),
        Ast::Statement(e) => match lower(c, o, *e) {
            Some((c1, o1)) => Some((c1, o1.push(ByteOp::Pop))),
            None => None,
        },
        Ast::Binary(op, l, r) => if op is Assign {
            match *l {
                Ast::Identifier(n) => match lower(c, o, *r) {
                    Some((c1, o1)) => Some((c1, o1.push(ByteOp::SetVar(name_hash(n@))))),
                    None => None,
                },
                _ => None,
            }
        } else {
            match binary_ops(op) {
                Some(tail) => match lower(c, o, *l) {
                    Some((c1, o1)) => match lower(c1, o1, *r) {
                        Some((c2, o2)) => Some((c2, o2 + tail)),
                        None => None,
                    },
                    None => None,
                },
                None => None,
            }
        },
        Ast::Unary(op, e) => match lower(c, o, *e) {
            Some((c1, o1)) => Some(
                (c1, o1.push(if op is Negate { ByteOp::Negate } else { ByteOp::Not })),
            ),
            None => None,
        },
        Ast::Return(e) => match lower(c, o, *e) {
            Some((c1, o1)) => Some((c1, o1.push(ByteOp::Return))),
            None => None,
        },
        Ast::Block(items) => match lower_items(c, o.push(ByteOp::ScopeOpen), items, 0) {
            Some((c1, o1)) => if yields_value(items@) {
                Some((c1, o1))
            } else {
                Some((c1, o1.push(ByteOp::ScopeClose)))
            },
            None => None,
        },
        Ast::IfElse(cond, then, elifs, els) => {
            let followed = elifs.len() > 0 || els is Some;
            match lower(c, o, *cond) {
                Some((c1, o1)) => {
                    let j = o1.len() as int;
                    match lower(c1, o1.push(ByteOp::JumpFalse(1)), *then) {
                        Some((c2, o2)) => {
                            let d = o2.len() - j + if followed { 1int } else { 0int };
                            if !fits_i16(d) {
                                None
                            } else {
                                let o3 = o2.update(j, ByteOp::JumpFalse(d as i16));
                                let (o4, ps) = if followed {
                                    (o3.push(ByteOp::Jump(1)), seq![o3.len() as int])
                                } else {
                                    (o3, Seq::empty())
                                };
                                match lower_elifs(c2, o4, elifs, 0, els is Some, ps) {
                                    Some((c5, o5, ps5)) => lower_tail(c5, o5, ps5, els),
                                    None => None,
                                }
                            }
                        },
                        None => None,
                    }
                },
                None => None,
            }
        },
        Ast::While(cond, body) => {
            let begin = o.len() as int;
            match lower(c, o, *cond) {
                Some((c1, o1)) => {
                    let j = o1.len() as int;
                    match lower(c1, o1.push(ByteOp::JumpFalse(1)), *body) {
                        Some((c2, o2)) => {
                            let back = begin - o2.len();
                            let fwd = o2.len() + 1 - j;
                            if fits_i16(back) && fits_i16(fwd) {
                                Some(
                                    (
                                        c2,
                                        o2.push(ByteOp::Jump(back as i16)).update(
                                            j,
                                            ByteOp::JumpFalse(fwd as i16),
                                        ),
                                    ),
                                )
                            } else {
                                None
                            }
                        },
                        None => None,
                    }
                },
                None => None,
            }
        },
        Ast::Let(name, _, init) => match init {
            Some(e) => match lower(c, o, *e) {
                Some((c1, o1)) => Some((c1, o1.push(ByteOp::DefVar(name_hash(name@))))),
                None => None,
            },
            None => Some((c, o.push(ByteOp::DefVar(name_hash(name@))))),
        },
        _ => None,
    }
}

/// The end of a conditional: its else-branch, if any, then the patching of
/// the recorded jumps so that every arm continues after the conditional.
pub open spec fn lower_tail(c: Seq<Value>, o: Seq<ByteOp>, ps: Seq<int>, els: Option<Box<Ast>>) -> Option<
    (Seq<Value>, Seq<ByteOp>),
>
    decreases els, 0nat,
{
    match els {
        Some(e) => match lower(c, o, *e) {
            Some((c1, o1)) => match patch_jumps(o1, ps, 0) {
                Some(o2) => Some((c1, o2)),
                None => None,
            },
            None => None,
        },
        None => match patch_jumps(o, ps, 0) {
            Some(o2) => Some((c, o2)),
            None => None,
        },
    }
}

pub open spec fn as_ints(s: Seq<usize>) -> Seq<int> {
    s.map_values(|x: usize| x as int)
}

/// Lowering the items of a block from index `i` on. A statement that wraps a
/// block lowers as that block; a bare expression is allowed only last, and is
/// followed by `Return`, which closes the block's scope with its value.
pub open spec fn lower_items(c: Seq<Value>, o: Seq<ByteOp>, items: Vec<Ast>, i: int) -> Option<
    (Seq<Value>, Seq<ByteOp>),
>
    decreases items, items.len() - i,
{
    if i < 0 || i >= items.len() {
        Some((c, o))
    } else {
        let item = items[i];
        let r = match item {
            Ast::Statement(inner) => if *inner is Block {
                lower(c, o, *inner)
            } else {
                lower(c, o, item)
            },
            _ => if i + 1 != items.len() {
                None
            } else {
                match lower(c, o, item) {
                    Some((c1, o1)) => Some((c1, o1.push(ByteOp::Return))),
                    None => None,
                }
            },
        };
        match r {
            Some((c1, o1)) => lower_items(c1, o1, items, i + 1),
            None => None,
        }
    }
}

/// Lowering the else-if arms from index `i` on. Each arm is its condition, a
/// `JumpFalse` to the next arm, its body and, where an arm or an else-branch
/// follows, a `Jump` whose index is recorded in `ps` to be patched at the end.
pub open spec fn lower_elifs(
    c: Seq<Value>,
    o: Seq<ByteOp>,
    elifs: Vec<(Box<Ast>, Box<Ast>)>,
    i: int,
    has_else: bool,
    ps: Seq<int>,
) -> Option<(Seq<Value>, Seq<ByteOp>, Seq<int>)>
    decreases elifs, elifs.len() - i,
{
    if i < 0 || i >= elifs.len() {
        Some((c, o, ps))
    } else {
        let followed = i + 1 < elifs.len() || has_else;
        match lower(c, o, *elifs[i].0) {
            Some((c1, o1)) => {
                let j = o1.len() as int;
                match lower(c1, o1.push(ByteOp::JumpFalse(1)), *elifs[i].1) {
                    Some((c2, o2)) => {
                        let d = o2.len() - j + if followed { 1int } else { 0int };
                        if !fits_i16(d) {
                            None
                        } else {
                            let o3 = o2.update(j, ByteOp::JumpFalse(d as i16));
                            if followed {
                                lower_elifs(
                                    c2,
                                    o3.push(ByteOp::Jump(1)),
                                    elifs,
                                    i + 1,
                                    has_else,
                                    ps.push(o3.len() as int),
                                )
                            } else {
                                lower_elifs(c2, o3, elifs, i + 1, has_else, ps)
                            }
                        }
                    },
                    None => None,
                }
            },
            None => None,
        }
    }
}

/// The message with which lowering `a` after the pool `c` and the
/// instructions `o` fails: that of the first failure that lowering meets.
/// Where lowering succeeds, the value says nothing.
pub open spec fn lower_msg(c: Seq<Value>, o: Seq<ByteOp>, a: Ast) -> Seq<char>
    decreases a, 0nat,
{
    match a {
        Ast::Number(_) => "Too many constants"@,
        Ast::Statement(e) => lower_msg(c, o, *e),
        Ast::Unary(_, e) => lower_msg(c, o, *e),
        Ast::Return(e) => lower_msg(c, o, *e),
        Ast::Binary(op, l, r) => if op is Assign {
            match *l {
                Ast::Identifier(_) => lower_msg(c, o, *r),
                _ => "Assign must assign to variable"@,
            }
        } else {
            match binary_ops(op) {
                Some(_) => match lower(c, o, *l) {
                    Some((c1, o1)) => lower_msg(c1, o1, *r),
                    None => lower_msg(c, o, *l),
                },
                None => "Non implemented AST node"@,
            }
        },
        Ast::Block(items) => items_msg(c, o.push(ByteOp::ScopeOpen), items, 0),
        Ast::IfElse(cond, then, elifs, els) => match lower(c, o, *cond) {
            Some((c1, o1)) => {
                let j = o1.len() as int;
                match lower(c1, o1.push(ByteOp::JumpFalse(1)), *then) {
                    Some((c2, o2)) => {
                        let followed = elifs.len() > 0 || els is Some;
                        let d = o2.len() - j + if followed { 1int } else { 0int };
                        if !fits_i16(d) {
                            "Jump offset does not fit in 16 bits"@
                        } else {
                            let o3 = o2.update(j, ByteOp::JumpFalse(d as i16));
                            let (o4, ps) = if followed {
                                (o3.push(ByteOp::Jump(1)), seq![o3.len() as int])
                            } else {
                                (o3, Seq::empty())
                            };
                            match lower_elifs(c2, o4, elifs, 0, els is Some, ps) {
                                Some((c5, o5, _)) => tail_msg(c5, o5, els),
                                None => elifs_msg(c2, o4, elifs, 0, els is Some, ps),
                            }
                        }
                    },
                    None => lower_msg(c1, o1.push(ByteOp::JumpFalse(1)), *then),
                }
            },
            None => lower_msg(c, o, *cond),
        },
        Ast::While(cond, body) => match lower(c, o, *cond) {
            Some((c1, o1)) => match lower(c1, o1.push(ByteOp::JumpFalse(1)), *body) {
                Some(_) => "Jump offset does not fit in 16 bits"@,
                None => lower_msg(c1, o1.push(ByteOp::JumpFalse(1)), *body),
            },
            None => lower_msg(c, o, *cond),
        },
        Ast::Let(_, _, init) => match init {
            Some(e) => lower_msg(c, o, *e),
            None => Seq::empty(),
        },
        _ => "Non implemented AST node"@,
    }
}

/// The message with which lowering the items of a block from index `i` on fails.
pub open spec fn items_msg(c: Seq<Value>, o: Seq<ByteOp>, items: Vec<Ast>, i: int) -> Seq<char>
    decreases items, items.len() - i,
{
    if i < 0 || i >= items.len() {
        Seq::empty()
    } else {
        let item = items[i];
        match item {
            Ast::Statement(inner) => {
                let x = if *inner is Block { *inner } else { item };
                match lower(c, o, x) {
                    Some((c1, o1)) => items_msg(c1, o1, items, i + 1),
                    None => lower_msg(c, o, x),
                }
            },
            _ => if i + 1 != items.len() {
                "Only the last element in a block may be an expression"@
            } else {
                match lower(c, o, item) {
                    Some((c1, o1)) => items_msg(c1, o1.push(ByteOp::Return), items, i + 1),
                    None => lower_msg(c, o, item),
                }
            },
        }
    }
}

/// The message with which lowering the else-if arms from index `i` on fails.
pub open spec fn elifs_msg(
    c: Seq<Value>,
    o: Seq<ByteOp>,
    elifs: Vec<(Box<Ast>, Box<Ast>)>,
    i: int,
    has_else: bool,
    ps: Seq<int>,
) -> Seq<char>
    decreases elifs, elifs.len() - i,
{
    if i < 0 || i >= elifs.len() {
        Seq::empty()
    } else {
        let followed = i + 1 < elifs.len() || has_else;
        match lower(c, o, *elifs[i].0) {
            Some((c1, o1)) => {
                let j = o1.len() as int;
                match lower(c1, o1.push(ByteOp::JumpFalse(1)), *elifs[i].1) {
                    Some((c2, o2)) => {
                        let d = o2.len() - j + if followed { 1int } else { 0int };
                        if !fits_i16(d) {
                            "Jump offset does not fit in 16 bits"@
                        } else {
                            let o3 = o2.update(j, ByteOp::JumpFalse(d as i16));
                            if followed {
                                elifs_msg(
                                    c2,
                                    o3.push(ByteOp::Jump(1)),
                                    elifs,
                                    i + 1,
                                    has_else,
                                    ps.push(o3.len() as int),
                                )
                            } else {
                                elifs_msg(c2, o3, elifs, i + 1, has_else, ps)
                            }
                        }
                    },
                    None => lower_msg(c1, o1.push(ByteOp::JumpFalse(1)), *elifs[i].1),
                }
            },
            None => lower_msg(c, o, *elifs[i].0),
        }
    }
}

/// The message with which the end of a conditional fails: its else-branch's,
/// or else a jump that does not fit.
pub open spec fn tail_msg(c: Seq<Value>, o: Seq<ByteOp>, els: Option<Box<Ast>>) -> Seq<char>
    decreases els, 0nat,
{
    match els {
        Some(e) => match lower(c, o, *e) {
            Some(_) => "Jump offset does not fit in 16 bits"@,
            None => lower_msg(c, o, *e),
        },
        None => "Jump offset does not fit in 16 bits"@,
    }
}

/// Setting each recorded `Jump` from index `k` of `ps` on to land just past the end of `o`.
pub open spec fn patch_jumps(o: Seq<ByteOp>, ps: Seq<int>, k: int) -> Option<Seq<ByteOp>>
    decreases ps.len() - k,
{
    if k < 0 || k >= ps.len() {
        Some(o)
    } else {
        let d = o.len() - ps[k];
        if fits_i16(d) {
            patch_jumps(o.update(ps[k], ByteOp::Jump(d as i16)), ps, k + 1)
        } else {
            None
        }
    }
}

impl Bytecode {
    pub open spec fn wf(&self) -> bool {
        self.constants.len() <= POOL_CAPACITY
    }

    /// Lowers a whole tree into a fresh constant pool and instruction list.
    /// Every jump of the result lands on an instruction or just past the last
    /// one, and no value occurs twice in its constant pool.
    ///
    /// A block whose last item yields a value ends with that item's `Return`,
    /// which closes the block's scope and leaves the value on the stack; such
    /// a block gets no `ScopeClose` of its own, since that would close the
    /// enclosing scope too. Only a block that yields no value (empty, or
    /// ending in a statement) ends with `ScopeClose`.
    pub fn new(ast: Ast) -> (r: Result<Bytecode, String>)
        ensures
            match r {
                Ok(bc) => lower(Seq::empty(), Seq::empty(), ast) == Some((bc.constants@, bc.ops@)),
                Err(m) => lower(Seq::empty(), Seq::empty(), ast) is None && m@ == lower_msg(
                    Seq::empty(),
                    Seq::empty(),
                    ast,
                ),
            },
            r matches Ok(bc) ==> jumps_inside(bc.ops@, 0) && pool_distinct(bc.constants@),
            returns_free(ast) ==> (r matches Ok(bc) ==> scope_balance(bc.ops@) == 0),
            (ast matches Ast::Binary(op, l, _) && op is Assign && !(*l is Identifier)) ==> (r matches Err(
                m,
            ) && m@ == "Assign must assign to variable"@),
    {
        proof {
            if returns_free(ast) {
                lemma_lower_balanced(Seq::empty(), Seq::empty(), ast);
            }
            lemma_lower_jumps(Seq::empty(), Seq::empty(), ast);
            lemma_lower_extends(Seq::empty(), Seq::empty(), ast);
        }
        let mut bc = Bytecode { constants: Vec::new(), ops: Vec::new() };
        match ast_to_bytecode(&mut bc, &ast) {
            Ok(()) => Ok(bc),
            Err(e) => Err(e),
        }
    }
}

/// The `Load` for the number with bits `bits`, reusing an equal pool entry.
fn lower_number(bc: &mut Bytecode, bits: u64) -> (r: Result<(), String>)
    requires
        old(bc).wf(),
    ensures
        final(bc).wf(),
        final(bc).ops.len() >= old(bc).ops.len(),
        match r {
            Ok(()) => lower(old(bc).constants@, old(bc).ops@, Ast::Number(bits)) == Some(
                (final(bc).constants@, final(bc).ops@),
            ),
            Err(m) => lower(old(bc).constants@, old(bc).ops@, Ast::Number(bits)) is None && m@
                == lower_msg(old(bc).constants@, old(bc).ops@, Ast::Number(bits)),
        },
{
    let ghost c = bc.constants@;
    let mut i: usize = 0;
    while i < bc.constants.len()
        invariant
            bc.constants@ == c,
            bc.ops@ == old(bc).ops@,
            c == old(bc).constants@,
            c.len() <= POOL_CAPACITY,
            0 <= i <= c.len(),
            first_match(c, Value::Number(bits), 0) == first_match(c, Value::Number(bits), i as int),
        decreases c.len() - i,
    {
        if bc.constants[i] == Value::Number(bits) {
            bc.ops.push(ByteOp::Load(i as u16));
            return Ok(());
        }
        i = i + 1;
    }
    if bc.constants.len() < POOL_CAPACITY {
        let k = bc.constants.len();
        bc.constants.push(Value::Number(bits));
        bc.ops.push(ByteOp::Load(k as u16));
        Ok(())
    } else {
        Err("Too many constants".to_string())
    }
}

/// Offset of a forward jump from index `from` to index `to + extra`, when it fits in an `i16`.
fn forward_offset(from: usize, to: usize, extra: usize) -> (r: Option<i16>)
    requires
        from <= to,
        extra <= 1,
    ensures
        match r {
            Some(d) => fits_i16(to - from + extra) && d as int == to - from + extra,
            None => !fits_i16(to - from + extra),
        },
{
    if to - from <= 32767 - extra {
        Some((to - from + extra) as i16)
    } else {
        None
    }
}

/// Lowers a block: its scope, its items, and how the scope closes.
fn lower_block(bc: &mut Bytecode, ast: &Ast) -> (r: Result<(), String>)
    requires
        old(bc).wf(),
        *ast is Block,
    ensures
        final(bc).wf(),
        r is Ok ==> final(bc).ops.len() >= old(bc).ops.len(),
        match r {
            Ok(()) => lower(old(bc).constants@, old(bc).ops@, *ast) == Some(
                (final(bc).constants@, final(bc).ops@),
            ),
            Err(m) => lower(old(bc).constants@, old(bc).ops@, *ast) is None && m@ == lower_msg(
                old(bc).constants@,
                old(bc).ops@,
                *ast,
            ),
        },
    decreases *ast, 0nat,
{
    match ast {
        Ast::Block(items) => {
            let ghost c0 = bc.constants@;
            let ghost o0 = bc.ops@;
            bc.ops.push(ByteOp::ScopeOpen);
            let n = items.len();
            let mut i: usize = 0;
            while i < n
                invariant
                    bc.wf(),
                    c0 == old(bc).constants@,
                    o0 == old(bc).ops@,
                    0 <= i <= n,
                    n == items.len(),
                    bc.ops.len() >= o0.len(),
                    *ast == Ast::Block(*items),
                    lower_msg(c0, o0, *ast) == items_msg(bc.constants@, bc.ops@, *items, i as int),
                    lower(c0, o0, *ast) == match lower_items(bc.constants@, bc.ops@, *items, i as int) {
                        Some((c1, o1)) => if yields_value(items@) {
                            Some((c1, o1))
                        } else {
                            Some((c1, o1.push(ByteOp::ScopeClose)))
                        },
                        None => None,
                    },
                decreases n - i,
            {
                match &items[i] {
                    Ast::Statement(inner) => {
                        match &**inner {
                            Ast::Block(_) => ast_to_bytecode(bc, inner)?,
                            _ => ast_to_bytecode(bc, &items[i])?,
                        }
                    },
                    _ => {
                        if i + 1 != n {
                            return Err(
                                "Only the last element in a block may be an expression".to_string(),
                            );
                        }
                        ast_to_bytecode(bc, &items[i])?;
                        bc.ops.push(ByteOp::Return);
                    },
                }
                i = i + 1;
            }
            if n == 0 {
                bc.ops.push(ByteOp::ScopeClose);
            } else {
                match &items[n - 1] {
                    Ast::Statement(_) => bc.ops.push(ByteOp::ScopeClose),
                    _ => {},
                }
            }
            Ok(())
        },
        _ => Err("Expected a block".to_string()),
    }
}

/// Lowers a loop: its condition, a `JumpFalse` past the loop, its body and a
/// `Jump` back to the condition.
fn lower_while(bc: &mut Bytecode, ast: &Ast) -> (r: Result<(), String>)
    requires
        old(bc).wf(),
        *ast is While,
    ensures
        final(bc).wf(),
        r is Ok ==> final(bc).ops.len() >= old(bc).ops.len(),
        match r {
            Ok(()) => lower(old(bc).constants@, old(bc).ops@, *ast) == Some(
                (final(bc).constants@, final(bc).ops@),
            ),
            Err(m) => lower(old(bc).constants@, old(bc).ops@, *ast) is None && m@ == lower_msg(
                old(bc).constants@,
                old(bc).ops@,
                *ast,
            ),
        },
    decreases *ast, 0nat,
{
    match ast {
        Ast::While(cond, body) => {
            let begin = bc.ops.len();
            ast_to_bytecode(bc, cond)?;
            let j = bc.ops.len();
            bc.ops.push(ByteOp::JumpFalse(1));
            ast_to_bytecode(bc, body)?;
            let here = bc.ops.len();
            if here - begin > 32768 {
                return Err("Jump offset does not fit in 16 bits".to_string());
            }
            let back: i16 = (0 - ((here - begin) as i32)) as i16;
            match forward_offset(j, here, 1) {
                Some(fwd) => {
                    bc.ops.push(ByteOp::Jump(back));
                    bc.ops.set(j, ByteOp::JumpFalse(fwd));
                    Ok(())
                },
                None => Err("Jump offset does not fit in 16 bits".to_string()),
            }
        },
        _ => Err("Expected a loop".to_string()),
    }
}

/// Lowers a conditional: each arm's condition, a `JumpFalse` to the next arm
/// and its body; a `Jump` after every arm that another arm follows, patched
/// at the end to land after the whole conditional.
fn lower_if_else(bc: &mut Bytecode, ast: &Ast) -> (r: Result<(), String>)
    requires
        old(bc).wf(),
        *ast is IfElse,
    ensures
        final(bc).wf(),
        r is Ok ==> final(bc).ops.len() >= old(bc).ops.len(),
        match r {
            Ok(()) => lower(old(bc).constants@, old(bc).ops@, *ast) == Some(
                (final(bc).constants@, final(bc).ops@),
            ),
            Err(m) => lower(old(bc).constants@, old(bc).ops@, *ast) is None && m@ == lower_msg(
                old(bc).constants@,
                old(bc).ops@,
                *ast,
            ),
        },
    decreases *ast, 0nat,
{
    match ast {
        Ast::IfElse(cond, then, elifs, els) => {
            let ghost c0 = bc.constants@;
            let ghost o0 = bc.ops@;
            let has_else = els.is_some();
            let followed = elifs.len() > 0 || has_else;
            ast_to_bytecode(bc, cond)?;
            let j = bc.ops.len();
            bc.ops.push(ByteOp::JumpFalse(1));
            ast_to_bytecode(bc, then)?;
            let extra: usize = if followed { 1 } else { 0 };
            let d = match forward_offset(j, bc.ops.len(), extra) {
                Some(d) => d,
                None => { return Err("Jump offset does not fit in 16 bits".to_string()); },
            };
            bc.ops.set(j, ByteOp::JumpFalse(d));
            let mut ps: Vec<usize> = Vec::new();
            if followed {
                let p = bc.ops.len();
                ps.push(p);
                assert(as_ints(ps@) =~= seq![p as int]);
                bc.ops.push(ByteOp::Jump(1));
            } else {
                assert(as_ints(ps@) =~= Seq::<int>::empty());
            }
            let mut i: usize = 0;
            while i < elifs.len()
                invariant
                    bc.wf(),
                    c0 == old(bc).constants@,
                    o0 == old(bc).ops@,
                    0 <= i <= elifs.len(),
                    bc.ops.len() >= o0.len(),
                    has_else == els is Some,
                    *ast == Ast::IfElse(*cond, *then, *elifs, *els),
                    lower_msg(c0, o0, *ast) == match lower_elifs(
                        bc.constants@,
                        bc.ops@,
                        *elifs,
                        i as int,
                        has_else,
                        as_ints(ps@),
                    ) {
                        Some((c5, o5, _)) => tail_msg(c5, o5, *els),
                        None => elifs_msg(bc.constants@, bc.ops@, *elifs, i as int, has_else, as_ints(ps@)),
                    },
                    forall|k: int| 0 <= k < ps.len() ==> ps[k] < bc.ops.len(),
                    lower(c0, o0, *ast) == match lower_elifs(
                        bc.constants@,
                        bc.ops@,
                        *elifs,
                        i as int,
                        has_else,
                        as_ints(ps@),
                    ) {
                        Some((c5, o5, ps5)) => lower_tail(c5, o5, ps5, *els),
                        None => None,
                    },
                decreases elifs.len() - i,
            {
                let f = i + 1 < elifs.len() || has_else;
                ast_to_bytecode(bc, &elifs[i].0)?;
                let j = bc.ops.len();
                bc.ops.push(ByteOp::JumpFalse(1));
                ast_to_bytecode(bc, &elifs[i].1)?;
                let extra: usize = if f { 1 } else { 0 };
                let d = match forward_offset(j, bc.ops.len(), extra) {
                    Some(d) => d,
                    None => { return Err("Jump offset does not fit in 16 bits".to_string()); },
                };
                bc.ops.set(j, ByteOp::JumpFalse(d));
                if f {
                    let p = bc.ops.len();
                    let ghost before = ps@;
                    ps.push(p);
                    assert(as_ints(ps@) =~= as_ints(before).push(p as int));
                    bc.ops.push(ByteOp::Jump(1));
                }
                i = i + 1;
            }
            match els {
                Some(e) => {
                    ast_to_bytecode(bc, e)?;
                },
                None => {},
            }
            let end = bc.ops.len();
            let ghost o6 = bc.ops@;
            let mut k: usize = 0;
            while k < ps.len()
                invariant
                    bc.wf(),
                    c0 == old(bc).constants@,
                    o0 == old(bc).ops@,
                    bc.ops.len() == end,
                    end >= o0.len(),
                    0 <= k <= ps.len(),
                    forall|q: int| 0 <= q < ps.len() ==> ps[q] < end,
                    patch_jumps(o6, as_ints(ps@), 0) == patch_jumps(bc.ops@, as_ints(ps@), k as int),
                    lower_msg(c0, o0, *ast) == "Jump offset does not fit in 16 bits"@,
                    lower(c0, o0, *ast) == match patch_jumps(o6, as_ints(ps@), 0) {
                        Some(o7) => Some((bc.constants@, o7)),
                        None => None,
                    },
                decreases ps.len() - k,
            {
                let p = ps[k];
                match forward_offset(p, end, 0) {
                    Some(d) => bc.ops.set(p, ByteOp::Jump(d)),
                    None => { return Err("Jump offset does not fit in 16 bits".to_string()); },
                }
                k = k + 1;
            }
            Ok(())
        },
        _ => Err("Expected a conditional".to_string()),
    }
}

/// Appends the lowering of `ast` to `bc`.
fn ast_to_bytecode(bc: &mut Bytecode, ast: &Ast) -> (r: Result<(), String>)
    requires
        old(bc).wf(),
    ensures
        final(bc).wf(),
        r is Ok ==> final(bc).ops.len() >= old(bc).ops.len(),
        match r {
            Ok(()) => lower(old(bc).constants@, old(bc).ops@, *ast) == Some(
                (final(bc).constants@, final(bc).ops@),
            ),
            Err(m) => lower(old(bc).constants@, old(bc).ops@, *ast) is None && m@ == lower_msg(
                old(bc).constants@,
                old(bc).ops@,
                *ast,
            ),
        },
        (*ast matches Ast::Binary(op, l, _) && op is Assign && !(*l is Identifier)) ==> (r matches Err(
            m,
        ) && m@ == "Assign must assign to variable"@),
    decreases *ast, 1nat,
{
    match ast {
        Ast::Block(_) => lower_block(bc, ast),
        Ast::While(_, _) => lower_while(bc, ast),
        Ast::IfElse(_, _, _, _) => lower_if_else(bc, ast),
        Ast::Identifier(n) => {
            bc.ops.push(ByteOp::GetVar(variable_id(n.as_str())));
            Ok(())
        },
        Ast::Number(bits) => lower_number(bc, *bits),
        Ast::Bool(b) => {
            bc.ops.push(if *b { ByteOp::True } else { ByteOp::False });
            Ok(())
        },
        Ast::Statement(e) => {
            ast_to_bytecode(bc, e)?;
            bc.ops.push(ByteOp::Pop);
            Ok(())
        },
        Ast::Binary(op, l, r) => {
            match op {
                BinaryOperation::Assign => {
                    match &**l {
                        Ast::Identifier(n) => {
                            ast_to_bytecode(bc, r)?;
                            bc.ops.push(ByteOp::SetVar(variable_id(n.as_str())));
                            Ok(())
                        },
                        _ => Err("Assign must assign to variable".to_string()),
                    }
                },
                BinaryOperation::NotEqual | BinaryOperation::And | BinaryOperation::Or => {
                    Err("Non implemented AST node".to_string())
                },
                _ => {
                    ast_to_bytecode(bc, l)?;
                    ast_to_bytecode(bc, r)?;
                    let ghost o2 = bc.ops@;
                    match op {
                        BinaryOperation::Add => bc.ops.push(ByteOp::Add),
                        BinaryOperation::Subtract => bc.ops.push(ByteOp::Sub),
                        BinaryOperation::Multiply => bc.ops.push(ByteOp::Mul),
                        BinaryOperation::Divide => bc.ops.push(ByteOp::Div),
                        BinaryOperation::Less => bc.ops.push(ByteOp::Less),
                        BinaryOperation::LessEqual => {
                            bc.ops.push(ByteOp::Greater);
                            bc.ops.push(ByteOp::Not);
                        },
                        BinaryOperation::Greater => bc.ops.push(ByteOp::Greater),
                        BinaryOperation::GreaterEqual => {
                            bc.ops.push(ByteOp::Less);
                            bc.ops.push(ByteOp::Not);
                        },
                        _ => bc.ops.push(ByteOp::Equal),
                    }
                    assert(bc.ops@ =~= o2 + binary_ops(*op)->0);
                    Ok(())
                },
            }
        },
        Ast::Unary(op, e) => {
            ast_to_bytecode(bc, e)?;
            match op {
                UnaryOperation::Negate => bc.ops.push(ByteOp::Negate),
                UnaryOperation::Not => bc.ops.push(ByteOp::Not),
            }
            Ok(())
        },
        Ast::Return(e) => {
            ast_to_bytecode(bc, e)?;
            bc.ops.push(ByteOp::Return);
            Ok(())
        },
        Ast::Let(name, _, init) => {
            match init {
                Some(e) => {
                    ast_to_bytecode(bc, e)?;
                },
                None => {},
            }
            bc.ops.push(ByteOp::DefVar(variable_id(name.as_str())));
            Ok(())
        },
        _ => Err("Non implemented AST node".to_string()),
    }
}

} // verus!
