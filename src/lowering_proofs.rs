use vstd::prelude::*;
use crate::ast::Ast;
use crate::parser::{arms_of, lemma_arms_of, lemma_trees_of, parse_tokens, tree_of, trees_of, Tree};
use crate::token::Token;
use crate::vm::{initial_state, run_spec, step_spec, Outcome, RunEnd, VmState};
use crate::bytecode::{
    binary_ops, elifs_msg, first_match, fits_i16, items_msg, lower, lower_elifs, lower_items, lower_msg, lower_tail, name_hash, tail_msg,
    patch_jumps, yields_value, ByteOp, Value,
};

verus! {

broadcast use vstd::std_specs::vec::group_vec_axioms;

/// No value occurs twice in the constant pool.
pub open spec fn pool_distinct(c: Seq<Value>) -> bool {
    forall|i: int, j: int| 0 <= i < j < c.len() ==> c[i] != c[j]
}

/// `(c2, o2)` keeps `(c, o)` as a prefix, and keeps the pool free of repeats.
pub open spec fn extends(c: Seq<Value>, o: Seq<ByteOp>, c2: Seq<Value>, o2: Seq<ByteOp>) -> bool {
    &&& o2.len() >= o.len()
    &&& o2.subrange(0, o.len() as int) == o
    &&& c2.len() >= c.len()
    &&& c2.subrange(0, c.len() as int) == c
    &&& pool_distinct(c) ==> pool_distinct(c2)
}

proof fn lemma_extends_trans(
    c: Seq<Value>,
    o: Seq<ByteOp>,
    c1: Seq<Value>,
    o1: Seq<ByteOp>,
    c2: Seq<Value>,
    o2: Seq<ByteOp>,
)
    requires
        extends(c, o, c1, o1),
        extends(c1, o1, c2, o2),
    ensures
        extends(c, o, c2, o2),
{
    assert(o2.subrange(0, o.len() as int) =~= o2.subrange(0, o1.len() as int).subrange(0, o.len() as int));
    assert(c2.subrange(0, c.len() as int) =~= c2.subrange(0, c1.len() as int).subrange(0, c.len() as int));
}

proof fn lemma_extends_push(c: Seq<Value>, o: Seq<ByteOp>, c2: Seq<Value>, o2: Seq<ByteOp>, x: ByteOp)
    requires
        extends(c, o, c2, o2),
    ensures
        extends(c, o, c2, o2.push(x)),
{
    assert(o2.push(x).subrange(0, o.len() as int) =~= o2.subrange(0, o.len() as int));
}

proof fn lemma_extends_update(
    c: Seq<Value>,
    o: Seq<ByteOp>,
    c2: Seq<Value>,
    o2: Seq<ByteOp>,
    j: int,
    x: ByteOp,
)
    requires
        extends(c, o, c2, o2),
        o.len() <= j < o2.len(),
    ensures
        extends(c, o, c2, o2.update(j, x)),
{
    assert(o2.update(j, x).subrange(0, o.len() as int) =~= o2.subrange(0, o.len() as int));
}

proof fn lemma_extends_refl(c: Seq<Value>, o: Seq<ByteOp>)
    ensures
        extends(c, o, c, o),
{
    assert(o.subrange(0, o.len() as int) =~= o);
    assert(c.subrange(0, c.len() as int) =~= c);
}

proof fn lemma_first_match(c: Seq<Value>, v: Value, from: int)
    requires
        0 <= from,
    ensures
        first_match(c, v, from) == -1 || (from <= first_match(c, v, from) < c.len() && c[first_match(c, v, from)] == v),
        first_match(c, v, from) == -1 ==> forall|i: int| from <= i < c.len() ==> c[i] != v,
    decreases c.len() - from,
{
    if from < c.len() && c[from] != v {
        lemma_first_match(c, v, from + 1);
    }
}

/// Lowering only appends: the instructions and the pool it was given stay a
/// prefix of what it returns, and a pool without repeats stays so.
pub proof fn lemma_lower_extends(c: Seq<Value>, o: Seq<ByteOp>, a: Ast)
    ensures
        lower(c, o, a) matches Some((c2, o2)) ==> extends(c, o, c2, o2),
    decreases a, 0nat,
{
    lemma_extends_refl(c, o);
    match a {
        Ast::Number(bits) => {
            let v = Value::Number(bits);
            lemma_first_match(c, v, 0);
            let k = first_match(c, v, 0);
            lemma_extends_push(c, o, c, o, ByteOp::Load(k as u16));
            let c2 = c.push(v);
            assert(c2.subrange(0, c.len() as int) =~= c);
            assert(o.push(ByteOp::Load(c.len() as u16)).subrange(0, o.len() as int) =~= o);
            if k == -1 && pool_distinct(c) {
                assert forall|i: int, j: int| 0 <= i < j < c2.len() implies c2[i] != c2[j] by {
                    if j == c.len() {
                        assert(c2[j] == v);
                    }
                }
            }
        },
        Ast::Identifier(n) => lemma_extends_push(c, o, c, o, ByteOp::GetVar(name_hash(n@))),
        Ast::Bool(b) => {
            lemma_extends_push(c, o, c, o, ByteOp::True);
            lemma_extends_push(c, o, c, o, ByteOp::False);
        },
        Ast::Statement(e) => {
            lemma_lower_extends(c, o, *e);
            if let Some((c1, o1)) = lower(c, o, *e) {
                lemma_extends_push(c, o, c1, o1, ByteOp::Pop);
            }
        },
        Ast::Unary(op, e) => {
            lemma_lower_extends(c, o, *e);
            if let Some((c1, o1)) = lower(c, o, *e) {
                lemma_extends_push(c, o, c1, o1, ByteOp::Negate);
                lemma_extends_push(c, o, c1, o1, ByteOp::Not);
            }
        },
        Ast::Return(e) => {
            lemma_lower_extends(c, o, *e);
            if let Some((c1, o1)) = lower(c, o, *e) {
                lemma_extends_push(c, o, c1, o1, ByteOp::Return);
            }
        },
        Ast::Let(name, _, init) => {
            if let Some(e) = init {
                lemma_lower_extends(c, o, *e);
                if let Some((c1, o1)) = lower(c, o, *e) {
                    lemma_extends_push(c, o, c1, o1, ByteOp::DefVar(name_hash(name@)));
                }
            } else {
                lemma_extends_push(c, o, c, o, ByteOp::DefVar(name_hash(name@)));
            }
        },
        Ast::Binary(op, l, r) => {
            if op is Assign {
                if let Ast::Identifier(n) = *l {
                    lemma_lower_extends(c, o, *r);
                    if let Some((c1, o1)) = lower(c, o, *r) {
                        lemma_extends_push(c, o, c1, o1, ByteOp::SetVar(name_hash(n@)));
                    }
                }
            } else if let Some(tail) = binary_ops(op) {
                lemma_lower_extends(c, o, *l);
                if let Some((c1, o1)) = lower(c, o, *l) {
                    lemma_lower_extends(c1, o1, *r);
                    if let Some((c2, o2)) = lower(c1, o1, *r) {
                        lemma_extends_trans(c, o, c1, o1, c2, o2);
                        assert((o2 + tail).subrange(0, o.len() as int) =~= o2.subrange(0, o.len() as int));
                    }
                }
            }
        },
        Ast::Block(items) => {
            lemma_extends_push(c, o, c, o, ByteOp::ScopeOpen);
            lemma_items_extends(c, o.push(ByteOp::ScopeOpen), items, 0);
            if let Some((c1, o1)) = lower_items(c, o.push(ByteOp::ScopeOpen), items, 0) {
                lemma_extends_trans(c, o, c, o.push(ByteOp::ScopeOpen), c1, o1);
                lemma_extends_push(c, o, c1, o1, ByteOp::ScopeClose);
            }
        },
        Ast::While(cond, body) => {
            lemma_lower_extends(c, o, *cond);
            if let Some((c1, o1)) = lower(c, o, *cond) {
                let o1p = o1.push(ByteOp::JumpFalse(1));
                lemma_extends_push(c, o, c1, o1, ByteOp::JumpFalse(1));
                lemma_lower_extends(c1, o1p, *body);
                if let Some((c2, o2)) = lower(c1, o1p, *body) {
                    lemma_extends_trans(c, o, c1, o1p, c2, o2);
                    let back = o.len() - o2.len();
                    let fwd = o2.len() + 1 - o1.len();
                    lemma_extends_push(c, o, c2, o2, ByteOp::Jump(back as i16));
                    lemma_extends_update(c, o, c2, o2.push(ByteOp::Jump(back as i16)), o1.len() as int, ByteOp::JumpFalse(fwd as i16));
                }
            }
        },
        Ast::IfElse(cond, then, elifs, els) => {
            let followed = elifs.len() > 0 || els is Some;
            lemma_lower_extends(c, o, *cond);
            if let Some((c1, o1)) = lower(c, o, *cond) {
                let j = o1.len() as int;
                let o1p = o1.push(ByteOp::JumpFalse(1));
                lemma_extends_push(c, o, c1, o1, ByteOp::JumpFalse(1));
                lemma_lower_extends(c1, o1p, *then);
                if let Some((c2, o2)) = lower(c1, o1p, *then) {
                    lemma_extends_trans(c, o, c1, o1p, c2, o2);
                    let d = o2.len() - j + if followed { 1int } else { 0int };
                    let o3 = o2.update(j, ByteOp::JumpFalse(d as i16));
                    lemma_extends_update(c, o, c2, o2, j, ByteOp::JumpFalse(d as i16));
                    lemma_extends_push(c, o, c2, o3, ByteOp::Jump(1));
                    let (o4, ps) = if followed {
                        (o3.push(ByteOp::Jump(1)), seq![o3.len() as int])
                    } else {
                        (o3, Seq::empty())
                    };
                    let base = o.len() as int;
                    lemma_elifs_extends(c2, o4, elifs, 0, els is Some, ps, base);
                    if let Some((c5, o5, ps5)) = lower_elifs(c2, o4, elifs, 0, els is Some, ps) {
                        lemma_extends_trans(c, o, c2, o4, c5, o5);
                        lemma_tail_extends(c5, o5, ps5, els, base);
                        if let Some((c6, o6)) = lower_tail(c5, o5, ps5, els) {
                            assert(o5.subrange(0, base) == o);
                            assert(o.subrange(0, base) =~= o);
                            lemma_extends_trans(c, o, c5, o, c6, o6);
                        }
                    }
                }
            }
        },
        _ => {},
    }
}

proof fn lemma_items_extends(c: Seq<Value>, o: Seq<ByteOp>, items: Vec<Ast>, i: int)
    ensures
        lower_items(c, o, items, i) matches Some((c2, o2)) ==> extends(c, o, c2, o2),
    decreases items, items.len() - i,
{
    lemma_extends_refl(c, o);
    if 0 <= i < items.len() {
        let item = items[i];
        let r = match item {
            Ast::Statement(inner) => if *inner is Block {
                lower(c, o, *inner)
            } else {
                lower(c, o, item)
            },
            _ => if i + 1 != items.len() {
                None
            } else {
                match lower(c, o, item) {
                    Some((c1, o1)) => Some((c1, o1.push(ByteOp::Return))),
                    None => None,
                }
            },
        };
        match item {
            Ast::Statement(inner) => {
                lemma_lower_extends(c, o, *inner);
                lemma_lower_extends(c, o, item);
            },
            _ => {
                lemma_lower_extends(c, o, item);
                if let Some((c1, o1)) = lower(c, o, item) {
                    lemma_extends_push(c, o, c1, o1, ByteOp::Return);
                }
            },
        }
        if let Some((c1, o1)) = r {
            lemma_items_extends(c1, o1, items, i + 1);
            if let Some((c2, o2)) = lower_items(c1, o1, items, i + 1) {
                lemma_extends_trans(c, o, c1, o1, c2, o2);
            }
        }
    }
}

proof fn lemma_elifs_extends(
    c: Seq<Value>,
    o: Seq<ByteOp>,
    elifs: Vec<(Box<Ast>, Box<Ast>)>,
    i: int,
    has_else: bool,
    ps: Seq<int>,
    base: int,
)
    requires
        0 <= base <= o.len(),
        forall|q: int| 0 <= q < ps.len() ==> base <= #[trigger] ps[q] < o.len(),
    ensures
        lower_elifs(c, o, elifs, i, has_else, ps) matches Some((c2, o2, ps2)) ==> extends(c, o, c2, o2)
            && forall|q: int| 0 <= q < ps2.len() ==> base <= #[trigger] ps2[q] < o2.len(),
    decreases elifs, elifs.len() - i,
{
    lemma_extends_refl(c, o);
    if 0 <= i < elifs.len() {
        let followed = i + 1 < elifs.len() || has_else;
        lemma_lower_extends(c, o, *elifs[i].0);
        if let Some((c1, o1)) = lower(c, o, *elifs[i].0) {
            let j = o1.len() as int;
            let o1p = o1.push(ByteOp::JumpFalse(1));
            lemma_extends_push(c, o, c1, o1, ByteOp::JumpFalse(1));
            lemma_lower_extends(c1, o1p, *elifs[i].1);
            if let Some((c2, o2)) = lower(c1, o1p, *elifs[i].1) {
                lemma_extends_trans(c, o, c1, o1p, c2, o2);
                let d = o2.len() - j + if followed { 1int } else { 0int };
                let o3 = o2.update(j, ByteOp::JumpFalse(d as i16));
                lemma_extends_update(c, o, c2, o2, j, ByteOp::JumpFalse(d as i16));
                lemma_extends_push(c, o, c2, o3, ByteOp::Jump(1));
                let o4 = o3.push(ByteOp::Jump(1));
                let ps4 = ps.push(o3.len() as int);
                assert forall|q: int| 0 <= q < ps4.len() implies base <= #[trigger] ps4[q] < o4.len() by {
                    if q < ps.len() {
                        assert(ps4[q] == ps[q]);
                    }
                }
                lemma_elifs_extends(c2, o4, elifs, i + 1, has_else, ps4, base);
                lemma_elifs_extends(c2, o3, elifs, i + 1, has_else, ps, base);
                if let Some((c5, o5, _)) = lower_elifs(c2, o4, elifs, i + 1, has_else, ps.push(o3.len() as int)) {
                    lemma_extends_trans(c, o, c2, o4, c5, o5);
                }
                if let Some((c5, o5, _)) = lower_elifs(c2, o3, elifs, i + 1, has_else, ps) {
                    lemma_extends_trans(c, o, c2, o3, c5, o5);
                }
            }
        }
    }
}

proof fn lemma_patch_extends(o: Seq<ByteOp>, base: int, ps: Seq<int>, k: int)
    requires
        0 <= base <= o.len(),
        forall|q: int| 0 <= q < ps.len() ==> base <= #[trigger] ps[q] < o.len(),
    ensures
        patch_jumps(o, ps, k) matches Some(o2) ==> o2.len() == o.len() && o2.subrange(0, base)
            == o.subrange(0, base),
    decreases ps.len() - k,
{
    if 0 <= k < ps.len() {
        let d = o.len() - ps[k];
        let o1 = o.update(ps[k], ByteOp::Jump(d as i16));
        lemma_patch_extends(o1, base, ps, k + 1);
        assert(o1.subrange(0, base) =~= o.subrange(0, base));
    }
}

proof fn lemma_tail_extends(c: Seq<Value>, o: Seq<ByteOp>, ps: Seq<int>, els: Option<Box<Ast>>, base: int)
    requires
        0 <= base <= o.len(),
        forall|q: int| 0 <= q < ps.len() ==> base <= #[trigger] ps[q] < o.len(),
    ensures
        lower_tail(c, o, ps, els) matches Some((c2, o2)) ==> extends(c, o.subrange(0, base), c2, o2),
    decreases els, 0nat,
{
    assert(c.subrange(0, c.len() as int) =~= c);
    match els {
        Some(e) => {
            lemma_lower_extends(c, o, *e);
            if let Some((c1, o1)) = lower(c, o, *e) {
                lemma_patch_extends(o1, base, ps, 0);
                assert(o1.subrange(0, base) =~= o1.subrange(0, o.len() as int).subrange(0, base));
            }
        },
        None => {
            lemma_patch_extends(o, base, ps, 0);
        },
    }
}

/// Where the instruction `op` at index `i` jumps to, if it is a jump.
pub open spec fn target(i: int, op: ByteOp) -> Option<int> {
    match op {
        ByteOp::Jump(d) | ByteOp::JumpFalse(d) | ByteOp::JumpTrue(d) => Some(i + d),
        _ => None,
    }
}

/// Every jump at an index from `n` on lands within `n..=o.len()`.
pub open spec fn jumps_inside(o: Seq<ByteOp>, n: int) -> bool {
    forall|i: int|
        n <= i < o.len() ==> match #[trigger] target(i, o[i]) {
            Some(t) => n <= t <= o.len(),
            None => true,
        }
}

proof fn lemma_inside_empty(o: Seq<ByteOp>)
    ensures
        jumps_inside(o, o.len() as int),
{
}

proof fn lemma_inside_push(o: Seq<ByteOp>, n: int, x: ByteOp)
    requires
        jumps_inside(o, n),
        0 <= n <= o.len(),
        match target(o.len() as int, x) {
            Some(t) => n <= t <= o.len() + 1,
            None => true,
        },
    ensures
        jumps_inside(o.push(x), n),
{
    let o2 = o.push(x);
    assert forall|i: int| n <= i < o2.len() implies match #[trigger] target(i, o2[i]) {
        Some(t) => n <= t <= o2.len(),
        None => true,
    } by {
        if i < o.len() {
            assert(o2[i] == o[i]);
            assert(target(i, o[i]) == target(i, o2[i]));
        }
    }
}

proof fn lemma_inside_update(o: Seq<ByteOp>, n: int, j: int, x: ByteOp)
    requires
        jumps_inside(o, n),
        0 <= n <= j < o.len(),
        match target(j, x) {
            Some(t) => n <= t <= o.len(),
            None => true,
        },
    ensures
        jumps_inside(o.update(j, x), n),
{
    let o2 = o.update(j, x);
    assert forall|i: int| n <= i < o2.len() implies match #[trigger] target(i, o2[i]) {
        Some(t) => n <= t <= o2.len(),
        None => true,
    } by {
        if i != j {
            assert(o2[i] == o[i]);
            assert(target(i, o[i]) == target(i, o2[i]));
        }
    }
}

proof fn lemma_inside_compose(o1: Seq<ByteOp>, o2: Seq<ByteOp>, n: int)
    requires
        0 <= n <= o1.len() <= o2.len(),
        o2.subrange(0, o1.len() as int) == o1,
        jumps_inside(o1, n),
        jumps_inside(o2, o1.len() as int),
    ensures
        jumps_inside(o2, n),
{
    assert forall|i: int| n <= i < o2.len() implies match #[trigger] target(i, o2[i]) {
        Some(t) => n <= t <= o2.len(),
        None => true,
    } by {
        if i < o1.len() {
            assert(o2[i] == o2.subrange(0, o1.len() as int)[i]);
            assert(target(i, o1[i]) == target(i, o2[i]));
        }
    }
}

/// Lowering `a` adds instructions whose jumps all land within what was added,
/// its end included: no jump escapes the code of the expression it belongs to.
pub proof fn lemma_lower_jumps(c: Seq<Value>, o: Seq<ByteOp>, a: Ast)
    ensures
        lower(c, o, a) matches Some((c2, o2)) ==> jumps_inside(o2, o.len() as int),
    decreases a, 1nat,
{
    let n = o.len() as int;
    lemma_inside_empty(o);
    lemma_lower_extends(c, o, a);
    match a {
        Ast::Number(bits) => {
            lemma_inside_push(o, n, ByteOp::Load(first_match(c, Value::Number(bits), 0) as u16));
            lemma_inside_push(o, n, ByteOp::Load(c.len() as u16));
        },
        Ast::Identifier(name) => lemma_inside_push(o, n, ByteOp::GetVar(name_hash(name@))),
        Ast::Bool(b) => {
            lemma_inside_push(o, n, ByteOp::True);
            lemma_inside_push(o, n, ByteOp::False);
        },
        Ast::Statement(e) => {
            lemma_lower_jumps(c, o, *e);
            if let Some((c1, o1)) = lower(c, o, *e) {
                lemma_lower_extends(c, o, *e);
                lemma_inside_push(o1, n, ByteOp::Pop);
            }
        },
        Ast::Unary(op, e) => {
            lemma_lower_jumps(c, o, *e);
            if let Some((c1, o1)) = lower(c, o, *e) {
                lemma_lower_extends(c, o, *e);
                lemma_inside_push(o1, n, ByteOp::Negate);
                lemma_inside_push(o1, n, ByteOp::Not);
            }
        },
        Ast::Return(e) => {
            lemma_lower_jumps(c, o, *e);
            if let Some((c1, o1)) = lower(c, o, *e) {
                lemma_lower_extends(c, o, *e);
                lemma_inside_push(o1, n, ByteOp::Return);
            }
        },
        Ast::Let(name, _, init) => {
            if let Some(e) = init {
                lemma_lower_jumps(c, o, *e);
                if let Some((c1, o1)) = lower(c, o, *e) {
                    lemma_lower_extends(c, o, *e);
                    lemma_inside_push(o1, n, ByteOp::DefVar(name_hash(name@)));
                }
            } else {
                lemma_inside_push(o, n, ByteOp::DefVar(name_hash(name@)));
            }
        },
        Ast::Binary(op, l, r) => {
            if op is Assign {
                if let Ast::Identifier(name) = *l {
                    lemma_lower_jumps(c, o, *r);
                    if let Some((c1, o1)) = lower(c, o, *r) {
                        lemma_lower_extends(c, o, *r);
                        lemma_inside_push(o1, n, ByteOp::SetVar(name_hash(name@)));
                    }
                }
            } else if let Some(tail) = binary_ops(op) {
                lemma_lower_jumps(c, o, *l);
                if let Some((c1, o1)) = lower(c, o, *l) {
                    lemma_lower_extends(c, o, *l);
                    lemma_lower_jumps(c1, o1, *r);
                    lemma_lower_extends(c1, o1, *r);
                    if let Some((c2, o2)) = lower(c1, o1, *r) {
                        lemma_inside_compose(o1, o2, n);
                        if tail.len() == 1 {
                            assert(o2 + tail =~= o2.push(tail[0]));
                            lemma_inside_push(o2, n, tail[0]);
                        } else {
                            assert(o2 + tail =~= o2.push(tail[0]).push(tail[1]));
                            lemma_inside_push(o2, n, tail[0]);
                            lemma_inside_push(o2.push(tail[0]), n, tail[1]);
                        }
                    }
                }
            }
        },
        Ast::Block(items) => {
            let o1 = o.push(ByteOp::ScopeOpen);
            lemma_inside_push(o, n, ByteOp::ScopeOpen);
            lemma_items_jumps(c, o1, items, 0);
            lemma_items_extends(c, o1, items, 0);
            if let Some((c2, o2)) = lower_items(c, o1, items, 0) {
                lemma_inside_compose(o1, o2, n);
                lemma_inside_push(o2, n, ByteOp::ScopeClose);
            }
        },
        Ast::While(cond, body) => {
            lemma_lower_jumps(c, o, *cond);
            lemma_lower_extends(c, o, *cond);
            if let Some((c1, o1)) = lower(c, o, *cond) {
                let j = o1.len() as int;
                let o1p = o1.push(ByteOp::JumpFalse(1));
                lemma_inside_push(o1, n, ByteOp::JumpFalse(1));
                lemma_lower_jumps(c1, o1p, *body);
                lemma_lower_extends(c1, o1p, *body);
                if let Some((c2, o2)) = lower(c1, o1p, *body) {
                    lemma_inside_compose(o1p, o2, n);
                    let back = n - o2.len();
                    let fwd = o2.len() + 1 - j;
                    if fits_i16(back) && fits_i16(fwd) {
                        lemma_inside_push(o2, n, ByteOp::Jump(back as i16));
                        lemma_inside_update(o2.push(ByteOp::Jump(back as i16)), n, j, ByteOp::JumpFalse(fwd as i16));
                    }
                }
            }
        },
        Ast::IfElse(_, _, _, _) => lemma_if_jumps(c, o, a),
        _ => {},
    }
}

proof fn lemma_if_jumps(c: Seq<Value>, o: Seq<ByteOp>, a: Ast)
    requires
        a is IfElse,
    ensures
        lower(c, o, a) matches Some((c2, o2)) ==> jumps_inside(o2, o.len() as int),
    decreases a, 0nat,
{
    let n = o.len() as int;
    lemma_inside_empty(o);
    if let Ast::IfElse(cond, then, elifs, els) = a {
            let followed = elifs.len() > 0 || els is Some;
            lemma_lower_jumps(c, o, *cond);
            lemma_lower_extends(c, o, *cond);
            if let Some((c1, o1)) = lower(c, o, *cond) {
                let j = o1.len() as int;
                let o1p = o1.push(ByteOp::JumpFalse(1));
                lemma_inside_push(o1, n, ByteOp::JumpFalse(1));
                lemma_lower_jumps(c1, o1p, *then);
                lemma_lower_extends(c1, o1p, *then);
                if let Some((c2, o2)) = lower(c1, o1p, *then) {
                    lemma_inside_compose(o1p, o2, n);
                    let d = o2.len() - j + if followed { 1int } else { 0int };
                    if fits_i16(d) {
                        let x = ByteOp::JumpFalse(d as i16);
                        let o3 = o2.update(j, x);
                        let (o4, ps) = if followed {
                            (o3.push(ByteOp::Jump(1)), seq![o3.len() as int])
                        } else {
                            (o3, Seq::empty())
                        };
                        if followed {
                            assert(o4 =~= o2.push(ByteOp::Jump(1)).update(j, x));
                            lemma_inside_push(o2, n, ByteOp::Jump(1));
                            lemma_inside_update(o2.push(ByteOp::Jump(1)), n, j, x);
                        } else {
                            lemma_inside_update(o2, n, j, x);
                        }
                        lemma_elifs_jumps(c2, o4, elifs, 0, els is Some, ps, n);
                        lemma_elifs_extends(c2, o4, elifs, 0, els is Some, ps, n);
                        if let Some((c5, o5, ps5)) = lower_elifs(c2, o4, elifs, 0, els is Some, ps) {
                            lemma_tail_jumps(c5, o5, ps5, els, n);
                        }
                    }
                }
            }
        }
}

proof fn lemma_items_jumps(c: Seq<Value>, o: Seq<ByteOp>, items: Vec<Ast>, i: int)
    ensures
        lower_items(c, o, items, i) matches Some((c2, o2)) ==> jumps_inside(o2, o.len() as int),
    decreases items, items.len() - i,
{
    let n = o.len() as int;
    lemma_inside_empty(o);
    if 0 <= i < items.len() {
        let item = items[i];
        let r = match item {
            Ast::Statement(inner) => if *inner is Block {
                lower(c, o, *inner)
            } else {
                lower(c, o, item)
            },
            _ => if i + 1 != items.len() {
                None
            } else {
                match lower(c, o, item) {
                    Some((c1, o1)) => Some((c1, o1.push(ByteOp::Return))),
                    None => None,
                }
            },
        };
        match item {
            Ast::Statement(inner) => {
                lemma_lower_jumps(c, o, *inner);
                lemma_lower_jumps(c, o, item);
            },
            _ => {
                lemma_lower_jumps(c, o, item);
                if let Some((c1, o1)) = lower(c, o, item) {
                    lemma_lower_extends(c, o, item);
                    lemma_inside_push(o1, n, ByteOp::Return);
                }
            },
        }
        lemma_items_extends(c, o, items, i);
        if let Some((c1, o1)) = r {
            match item {
                Ast::Statement(inner) => {
                    lemma_lower_extends(c, o, *inner);
                    lemma_lower_extends(c, o, item);
                },
                _ => {
                    lemma_lower_extends(c, o, item);
                    if let Some((c0, o0)) = lower(c, o, item) {
                        lemma_extends_push(c, o, c0, o0, ByteOp::Return);
                    }
                },
            }
            lemma_items_jumps(c1, o1, items, i + 1);
            lemma_items_extends(c1, o1, items, i + 1);
            if let Some((c2, o2)) = lower_items(c1, o1, items, i + 1) {
                lemma_inside_compose(o1, o2, n);
            }
        }
    }
}

proof fn lemma_patch_jumps(o: Seq<ByteOp>, n: int, ps: Seq<int>, k: int)
    requires
        0 <= n <= o.len(),
        jumps_inside(o, n),
        forall|q: int| 0 <= q < ps.len() ==> n <= #[trigger] ps[q] < o.len(),
    ensures
        patch_jumps(o, ps, k) matches Some(o2) ==> jumps_inside(o2, n),
    decreases ps.len() - k,
{
    if 0 <= k < ps.len() {
        let d = o.len() - ps[k];
        if fits_i16(d) {
            lemma_inside_update(o, n, ps[k], ByteOp::Jump(d as i16));
            lemma_patch_jumps(o.update(ps[k], ByteOp::Jump(d as i16)), n, ps, k + 1);
        }
    }
}

proof fn lemma_elifs_jumps(
    c: Seq<Value>,
    o: Seq<ByteOp>,
    elifs: Vec<(Box<Ast>, Box<Ast>)>,
    i: int,
    has_else: bool,
    ps: Seq<int>,
    n: int,
)
    requires
        0 <= n <= o.len(),
        jumps_inside(o, n),
    ensures
        lower_elifs(c, o, elifs, i, has_else, ps) matches Some((c2, o2, _)) ==> jumps_inside(o2, n),
    decreases elifs, elifs.len() - i,
{
    if 0 <= i < elifs.len() {
        let followed = i + 1 < elifs.len() || has_else;
        lemma_lower_jumps(c, o, *elifs[i].0);
        lemma_lower_extends(c, o, *elifs[i].0);
        if let Some((c1, o1)) = lower(c, o, *elifs[i].0) {
            lemma_inside_compose(o, o1, n);
            let j = o1.len() as int;
            let o1p = o1.push(ByteOp::JumpFalse(1));
            lemma_inside_push(o1, n, ByteOp::JumpFalse(1));
            lemma_lower_jumps(c1, o1p, *elifs[i].1);
            lemma_lower_extends(c1, o1p, *elifs[i].1);
            if let Some((c2, o2)) = lower(c1, o1p, *elifs[i].1) {
                lemma_inside_compose(o1p, o2, n);
                let d = o2.len() - j + if followed { 1int } else { 0int };
                if fits_i16(d) {
                    let x = ByteOp::JumpFalse(d as i16);
                    let o3 = o2.update(j, x);
                    if followed {
                        let o4 = o3.push(ByteOp::Jump(1));
                        assert(o4 =~= o2.push(ByteOp::Jump(1)).update(j, x));
                        lemma_inside_push(o2, n, ByteOp::Jump(1));
                        lemma_inside_update(o2.push(ByteOp::Jump(1)), n, j, x);
                        lemma_elifs_jumps(c2, o4, elifs, i + 1, has_else, ps.push(o3.len() as int), n);
                    } else {
                        lemma_inside_update(o2, n, j, x);
                        lemma_elifs_jumps(c2, o3, elifs, i + 1, has_else, ps, n);
                    }
                }
            }
        }
    }
}

proof fn lemma_tail_jumps(c: Seq<Value>, o: Seq<ByteOp>, ps: Seq<int>, els: Option<Box<Ast>>, n: int)
    requires
        0 <= n <= o.len(),
        jumps_inside(o, n),
        forall|q: int| 0 <= q < ps.len() ==> n <= #[trigger] ps[q] < o.len(),
    ensures
        lower_tail(c, o, ps, els) matches Some((c2, o2)) ==> jumps_inside(o2, n),
    decreases els, 0nat,
{
    match els {
        Some(e) => {
            lemma_lower_jumps(c, o, *e);
            lemma_lower_extends(c, o, *e);
            if let Some((c1, o1)) = lower(c, o, *e) {
                lemma_inside_compose(o, o1, n);
                lemma_patch_jumps(o1, n, ps, 0);
            }
        },
        None => {
            lemma_patch_jumps(o, n, ps, 0);
        },
    }
}

/// How an instruction changes the depth of the scope stack.
pub open spec fn scope_effect(op: ByteOp) -> int {
    match op {
        ByteOp::ScopeOpen => 1,
        ByteOp::ScopeClose | ByteOp::Return => -1,
        _ => 0,
    }
}

/// The net change of scope depth over a run of instructions taken in order.
pub open spec fn scope_balance(o: Seq<ByteOp>) -> int
    decreases o.len(),
{
    if o.len() == 0 {
        0
    } else {
        scope_balance(o.drop_last()) + scope_effect(o.last())
    }
}

/// Whether a tree holds no explicit `Return` node (the parser makes none).
pub open spec fn returns_free(a: Ast) -> bool
    decreases a, 0nat,
{
    match a {
        Ast::Return(_) => false,
        Ast::Statement(e) => returns_free(*e),
        Ast::Unary(_, e) => returns_free(*e),
        Ast::Binary(_, l, r) => returns_free(*l) && returns_free(*r),
        Ast::Block(items) => items_returns_free(items, 0),
        Ast::IfElse(cond, then, elifs, els) => returns_free(*cond) && returns_free(*then)
            && elifs_returns_free(elifs, 0) && match els {
            Some(e) => returns_free(*e),
            None => true,
        },
        Ast::While(cond, body) => returns_free(*cond) && returns_free(*body),
        Ast::Let(_, _, init) => match init {
            Some(e) => returns_free(*e),
            None => true,
        },
        _ => true,
    }
}

pub open spec fn items_returns_free(items: Vec<Ast>, i: int) -> bool
    decreases items, items.len() - i,
{
    if i < 0 || i >= items.len() {
        true
    } else {
        returns_free(items[i]) && items_returns_free(items, i + 1)
    }
}

pub open spec fn elifs_returns_free(elifs: Vec<(Box<Ast>, Box<Ast>)>, i: int) -> bool
    decreases elifs, elifs.len() - i,
{
    if i < 0 || i >= elifs.len() {
        true
    } else {
        returns_free(*elifs[i].0) && returns_free(*elifs[i].1) && elifs_returns_free(elifs, i + 1)
    }
}

pub proof fn lemma_items_returns_free(items: Vec<Ast>, i: int)
    requires
        forall|k: int| i <= k < items.len() ==> returns_free(#[trigger] items@[k]),
    ensures
        items_returns_free(items, i),
    decreases items.len() - i,
{
    if 0 <= i < items.len() {
        lemma_items_returns_free(items, i + 1);
    }
}

pub proof fn lemma_elifs_returns_free(elifs: Vec<(Box<Ast>, Box<Ast>)>, i: int)
    requires
        forall|k: int| i <= k < elifs.len() ==> returns_free(*(#[trigger] elifs@[k]).0) && returns_free(*elifs@[k].1),
    ensures
        elifs_returns_free(elifs, i),
    decreases elifs.len() - i,
{
    if 0 <= i < elifs.len() {
        lemma_elifs_returns_free(elifs, i + 1);
    }
}

proof fn lemma_balance_push(o: Seq<ByteOp>, x: ByteOp)
    ensures
        scope_balance(o.push(x)) == scope_balance(o) + scope_effect(x),
{
    assert(o.push(x).drop_last() =~= o);
}

proof fn lemma_balance_update(o: Seq<ByteOp>, j: int, x: ByteOp)
    requires
        0 <= j < o.len(),
    ensures
        scope_balance(o.update(j, x)) == scope_balance(o) - scope_effect(o[j]) + scope_effect(x),
    decreases o.len(),
{
    let o2 = o.update(j, x);
    if j == o.len() - 1 {
        assert(o2.drop_last() =~= o.drop_last());
    } else {
        lemma_balance_update(o.drop_last(), j, x);
        assert(o2.drop_last() =~= o.drop_last().update(j, x));
    }
}

/// Every scope a run of lowered code opens, it closes: the instructions that
/// lowering adds for a tree without explicit `Return` nodes open as many
/// scopes as they close (a block closes its own with `ScopeClose`, or with
/// `Return` when it yields a value).
pub proof fn lemma_lower_balanced(c: Seq<Value>, o: Seq<ByteOp>, a: Ast)
    requires
        returns_free(a),
    ensures
        lower(c, o, a) matches Some((c2, o2)) ==> scope_balance(o2) == scope_balance(o),
    decreases a, 1nat,
{
    match a {
        Ast::Number(bits) => {
            lemma_balance_push(o, ByteOp::Load(first_match(c, Value::Number(bits), 0) as u16));
            lemma_balance_push(o, ByteOp::Load(c.len() as u16));
        },
        Ast::Identifier(name) => lemma_balance_push(o, ByteOp::GetVar(name_hash(name@))),
        Ast::Bool(b) => {
            lemma_balance_push(o, ByteOp::True);
            lemma_balance_push(o, ByteOp::False);
        },
        Ast::Statement(e) => {
            lemma_lower_balanced(c, o, *e);
            if let Some((c1, o1)) = lower(c, o, *e) {
                lemma_balance_push(o1, ByteOp::Pop);
            }
        },
        Ast::Unary(op, e) => {
            lemma_lower_balanced(c, o, *e);
            if let Some((c1, o1)) = lower(c, o, *e) {
                lemma_balance_push(o1, ByteOp::Negate);
                lemma_balance_push(o1, ByteOp::Not);
            }
        },
        Ast::Let(name, _, init) => {
            if let Some(e) = init {
                lemma_lower_balanced(c, o, *e);
                if let Some((c1, o1)) = lower(c, o, *e) {
                    lemma_balance_push(o1, ByteOp::DefVar(name_hash(name@)));
                }
            } else {
                lemma_balance_push(o, ByteOp::DefVar(name_hash(name@)));
            }
        },
        Ast::Binary(op, l, r) => {
            if op is Assign {
                if let Ast::Identifier(name) = *l {
                    lemma_lower_balanced(c, o, *r);
                    if let Some((c1, o1)) = lower(c, o, *r) {
                        lemma_balance_push(o1, ByteOp::SetVar(name_hash(name@)));
                    }
                }
            } else if let Some(tail) = binary_ops(op) {
                lemma_lower_balanced(c, o, *l);
                if let Some((c1, o1)) = lower(c, o, *l) {
                    lemma_lower_balanced(c1, o1, *r);
                    if let Some((c2, o2)) = lower(c1, o1, *r) {
                        if tail.len() == 1 {
                            assert(o2 + tail =~= o2.push(tail[0]));
                            lemma_balance_push(o2, tail[0]);
                        } else {
                            assert(o2 + tail =~= o2.push(tail[0]).push(tail[1]));
                            lemma_balance_push(o2, tail[0]);
                            lemma_balance_push(o2.push(tail[0]), tail[1]);
                        }
                    }
                }
            }
        },
        Ast::Block(items) => {
            let o1 = o.push(ByteOp::ScopeOpen);
            lemma_balance_push(o, ByteOp::ScopeOpen);
            lemma_items_balanced(c, o1, items, 0);
            if let Some((c2, o2)) = lower_items(c, o1, items, 0) {
                lemma_balance_push(o2, ByteOp::ScopeClose);
            }
        },
        Ast::While(cond, body) => {
            lemma_lower_balanced(c, o, *cond);
            if let Some((c1, o1)) = lower(c, o, *cond) {
                let j = o1.len() as int;
                let o1p = o1.push(ByteOp::JumpFalse(1));
                lemma_balance_push(o1, ByteOp::JumpFalse(1));
                lemma_lower_balanced(c1, o1p, *body);
                lemma_lower_extends(c1, o1p, *body);
                if let Some((c2, o2)) = lower(c1, o1p, *body) {
                    let back = o.len() - o2.len();
                    let fwd = o2.len() + 1 - j;
                    lemma_balance_push(o2, ByteOp::Jump(back as i16));
                    assert(o2[j] == o2.subrange(0, o1p.len() as int)[j]);
                    lemma_balance_update(o2.push(ByteOp::Jump(back as i16)), j, ByteOp::JumpFalse(fwd as i16));
                }
            }
        },
        Ast::IfElse(_, _, _, _) => lemma_if_balanced(c, o, a),
        _ => {},
    }
}

proof fn lemma_if_balanced(c: Seq<Value>, o: Seq<ByteOp>, a: Ast)
    requires
        a is IfElse,
        returns_free(a),
    ensures
        lower(c, o, a) matches Some((c2, o2)) ==> scope_balance(o2) == scope_balance(o),
    decreases a, 0nat,
{
    if let Ast::IfElse(cond, then, elifs, els) = a {
        let followed = elifs.len() > 0 || els is Some;
        lemma_lower_balanced(c, o, *cond);
        if let Some((c1, o1)) = lower(c, o, *cond) {
            let j = o1.len() as int;
            let o1p = o1.push(ByteOp::JumpFalse(1));
            lemma_balance_push(o1, ByteOp::JumpFalse(1));
            lemma_lower_balanced(c1, o1p, *then);
            lemma_lower_extends(c1, o1p, *then);
            if let Some((c2, o2)) = lower(c1, o1p, *then) {
                let d = o2.len() - j + if followed { 1int } else { 0int };
                if fits_i16(d) {
                    let x = ByteOp::JumpFalse(d as i16);
                    let o3 = o2.update(j, x);
                    assert(o2[j] == o2.subrange(0, o1p.len() as int)[j]);
                    lemma_balance_update(o2, j, x);
                    lemma_balance_push(o3, ByteOp::Jump(1));
                    let (o4, ps) = if followed {
                        (o3.push(ByteOp::Jump(1)), seq![o3.len() as int])
                    } else {
                        (o3, Seq::empty())
                    };
                    assert(forall|q: int| 0 <= q < ps.len() ==> 0 <= #[trigger] ps[q] < o4.len() && scope_effect(o4[ps[q]]) == 0);
                    lemma_elifs_balanced(c2, o4, elifs, 0, els is Some, ps);
                    if let Some((c5, o5, ps5)) = lower_elifs(c2, o4, elifs, 0, els is Some, ps) {
                        lemma_tail_balanced(c5, o5, ps5, els);
                    }
                }
            }
        }
    }
}

proof fn lemma_items_balanced(c: Seq<Value>, o: Seq<ByteOp>, items: Vec<Ast>, i: int)
    requires
        items_returns_free(items, i),
    ensures
        lower_items(c, o, items, i) matches Some((c2, o2)) ==> scope_balance(o2) == scope_balance(o)
            - if 0 <= i < items.len() && yields_value(items@) { 1int } else { 0int },
    decreases items, items.len() - i,
{
    if 0 <= i < items.len() {
        let item = items[i];
        let r = match item {
            Ast::Statement(inner) => if *inner is Block {
                lower(c, o, *inner)
            } else {
                lower(c, o, item)
            },
            _ => if i + 1 != items.len() {
                None
            } else {
                match lower(c, o, item) {
                    Some((c1, o1)) => Some((c1, o1.push(ByteOp::Return))),
                    None => None,
                }
            },
        };
        match item {
            Ast::Statement(inner) => {
                assert(returns_free(item));
                assert(returns_free(*inner));
                lemma_lower_balanced(c, o, *inner);
                lemma_lower_balanced(c, o, item);
            },
            _ => {
                lemma_lower_balanced(c, o, item);
                if let Some((c1, o1)) = lower(c, o, item) {
                    lemma_balance_push(o1, ByteOp::Return);
                }
            },
        }
        if let Some((c1, o1)) = r {
            lemma_items_balanced(c1, o1, items, i + 1);
            assert(items@.last() == items[items.len() - 1]);
        }
    }
}

proof fn lemma_patch_balanced(o: Seq<ByteOp>, ps: Seq<int>, k: int)
    requires
        forall|q: int| 0 <= q < ps.len() ==> 0 <= #[trigger] ps[q] < o.len() && scope_effect(o[ps[q]]) == 0,
    ensures
        patch_jumps(o, ps, k) matches Some(o2) ==> scope_balance(o2) == scope_balance(o),
    decreases ps.len() - k,
{
    if 0 <= k < ps.len() {
        let d = o.len() - ps[k];
        if fits_i16(d) {
            let o1 = o.update(ps[k], ByteOp::Jump(d as i16));
            lemma_balance_update(o, ps[k], ByteOp::Jump(d as i16));
            assert forall|q: int| 0 <= q < ps.len() implies 0 <= #[trigger] ps[q] < o1.len() && scope_effect(o1[ps[q]]) == 0 by {
                if ps[q] != ps[k] {
                    assert(o1[ps[q]] == o[ps[q]]);
                }
            }
            lemma_patch_balanced(o1, ps, k + 1);
        }
    }
}

proof fn lemma_elifs_balanced(
    c: Seq<Value>,
    o: Seq<ByteOp>,
    elifs: Vec<(Box<Ast>, Box<Ast>)>,
    i: int,
    has_else: bool,
    ps: Seq<int>,
)
    requires
        elifs_returns_free(elifs, i),
        forall|q: int| 0 <= q < ps.len() ==> 0 <= #[trigger] ps[q] < o.len() && scope_effect(o[ps[q]]) == 0,
    ensures
        lower_elifs(c, o, elifs, i, has_else, ps) matches Some((c2, o2, ps2)) ==> scope_balance(o2)
            == scope_balance(o) && forall|q: int| 0 <= q < ps2.len() ==> 0 <= #[trigger] ps2[q] < o2.len() && scope_effect(o2[ps2[q]]) == 0,
    decreases elifs, elifs.len() - i,
{
    if 0 <= i < elifs.len() {
        let followed = i + 1 < elifs.len() || has_else;
        lemma_lower_balanced(c, o, *elifs[i].0);
        lemma_lower_extends(c, o, *elifs[i].0);
        if let Some((c1, o1)) = lower(c, o, *elifs[i].0) {
            let j = o1.len() as int;
            let o1p = o1.push(ByteOp::JumpFalse(1));
            lemma_balance_push(o1, ByteOp::JumpFalse(1));
            lemma_lower_balanced(c1, o1p, *elifs[i].1);
            lemma_lower_extends(c1, o1p, *elifs[i].1);
            if let Some((c2, o2)) = lower(c1, o1p, *elifs[i].1) {
                lemma_extends_push(c, o, c1, o1, ByteOp::JumpFalse(1));
                lemma_extends_trans(c, o, c1, o1p, c2, o2);
                let d = o2.len() - j + if followed { 1int } else { 0int };
                if fits_i16(d) {
                    let x = ByteOp::JumpFalse(d as i16);
                    let o3 = o2.update(j, x);
                    assert(o2[j] == o2.subrange(0, o1p.len() as int)[j]);
                    lemma_balance_update(o2, j, x);
                    assert forall|q: int| 0 <= q < ps.len() implies 0 <= #[trigger] ps[q] < o3.len() && scope_effect(o3[ps[q]]) == 0 by {
                        assert(o2[ps[q]] == o2.subrange(0, o.len() as int)[ps[q]]);
                    }
                    if followed {
                        let o4 = o3.push(ByteOp::Jump(1));
                        let ps4 = ps.push(o3.len() as int);
                        lemma_balance_push(o3, ByteOp::Jump(1));
                        assert forall|q: int| 0 <= q < ps4.len() implies 0 <= #[trigger] ps4[q] < o4.len() && scope_effect(o4[ps4[q]]) == 0 by {
                            if q < ps.len() {
                                assert(ps4[q] == ps[q]);
                                assert(o4[ps[q]] == o3[ps[q]]);
                            }
                        }
                        lemma_elifs_balanced(c2, o4, elifs, i + 1, has_else, ps4);
                    } else {
                        lemma_elifs_balanced(c2, o3, elifs, i + 1, has_else, ps);
                    }
                }
            }
        }
    }
}

proof fn lemma_tail_balanced(c: Seq<Value>, o: Seq<ByteOp>, ps: Seq<int>, els: Option<Box<Ast>>)
    requires
        els matches Some(e) ==> returns_free(*e),
        forall|q: int| 0 <= q < ps.len() ==> 0 <= #[trigger] ps[q] < o.len() && scope_effect(o[ps[q]]) == 0,
    ensures
        lower_tail(c, o, ps, els) matches Some((c2, o2)) ==> scope_balance(o2) == scope_balance(o),
    decreases els, 0nat,
{
    match els {
        Some(e) => {
            lemma_lower_balanced(c, o, *e);
            lemma_lower_extends(c, o, *e);
            if let Some((c1, o1)) = lower(c, o, *e) {
                assert forall|q: int| 0 <= q < ps.len() implies 0 <= #[trigger] ps[q] < o1.len() && scope_effect(o1[ps[q]]) == 0 by {
                    assert(o1[ps[q]] == o1.subrange(0, o.len() as int)[ps[q]]);
                }
                lemma_patch_balanced(o1, ps, 0);
            }
        },
        None => {
            lemma_patch_balanced(o, ps, 0);
        },
    }
}

/// Lowering reads a tree only through what its `Tree` view keeps: trees
/// with the same view lower alike, and fail with the same message.
pub proof fn lemma_lower_by_tree(c: Seq<Value>, o: Seq<ByteOp>, a1: Ast, a2: Ast)
    requires
        tree_of(a1) == tree_of(a2),
    ensures
        lower(c, o, a1) == lower(c, o, a2),
        lower_msg(c, o, a1) == lower_msg(c, o, a2),
    decreases a1, 0nat,
{
    match (a1, a2) {
        (Ast::Statement(e1), Ast::Statement(e2)) => lemma_lower_by_tree(c, o, *e1, *e2),
        (Ast::Unary(_, e1), Ast::Unary(_, e2)) => lemma_lower_by_tree(c, o, *e1, *e2),
        (Ast::Return(e1), Ast::Return(e2)) => lemma_lower_by_tree(c, o, *e1, *e2),
        (Ast::Binary(op, l1, r1), Ast::Binary(_, l2, r2)) => {
            assert(tree_of(*l1) == tree_of(*l2));
            lemma_lower_by_tree(c, o, *r1, *r2);
            lemma_lower_by_tree(c, o, *l1, *l2);
            match lower(c, o, *l1) {
                Some((c1, o1)) => lemma_lower_by_tree(c1, o1, *r1, *r2),
                None => {},
            }
        },
        (Ast::Let(_, _, i1), Ast::Let(_, _, i2)) => match (i1, i2) {
            (Some(e1), Some(e2)) => lemma_lower_by_tree(c, o, *e1, *e2),
            _ => {},
        },
        (Ast::While(c1_, b1), Ast::While(c2_, b2)) => {
            lemma_lower_by_tree(c, o, *c1_, *c2_);
            match lower(c, o, *c1_) {
                Some((c1, o1)) => lemma_lower_by_tree(c1, o1.push(ByteOp::JumpFalse(1)), *b1, *b2),
                None => {},
            }
        },
        (Ast::Block(items1), Ast::Block(items2)) => {
            lemma_trees_of(items1, items1.len() as int);
            lemma_trees_of(items2, items2.len() as int);
            assert(items1.len() == items2.len());
            assert forall|k: int| 0 <= k < items1.len() implies tree_of(#[trigger] items1@[k]) == tree_of(
                items2@[k],
            ) by {
                assert(trees_of(items1, items1.len() as int)[k] == tree_of(items1@[k]));
            }
            lemma_items_by_tree(c, o.push(ByteOp::ScopeOpen), items1, items2, 0);
            if items1.len() > 0 {
                let k = items1.len() - 1;
                assert(tree_of(items1@[k]) == tree_of(items2@[k]));
                assert(items1@[k] is Statement == items2@[k] is Statement);
            }
        },
        (Ast::IfElse(cond1, then1, elifs1, els1), Ast::IfElse(cond2, then2, elifs2, els2)) => {
            lemma_arms_of(elifs1, elifs1.len() as int);
            lemma_arms_of(elifs2, elifs2.len() as int);
            assert(elifs1.len() == elifs2.len());
            assert forall|k: int| 0 <= k < elifs1.len() implies tree_of(*(#[trigger] elifs1@[k]).0) == tree_of(
                *elifs2@[k].0,
            ) && tree_of(*elifs1@[k].1) == tree_of(*elifs2@[k].1) by {
                assert(arms_of(elifs1, elifs1.len() as int)[k] == arms_of(elifs2, elifs2.len() as int)[k]);
            }
            assert(els1 is Some == els2 is Some);
            lemma_lower_by_tree(c, o, *cond1, *cond2);
            match lower(c, o, *cond1) {
                Some((c1, o1)) => {
                    let j = o1.len() as int;
                    lemma_lower_by_tree(c1, o1.push(ByteOp::JumpFalse(1)), *then1, *then2);
                    match lower(c1, o1.push(ByteOp::JumpFalse(1)), *then1) {
                        Some((c2, o2)) => {
                            let followed = elifs1.len() > 0 || els1 is Some;
                            let d = o2.len() - j + if followed { 1int } else { 0int };
                            if fits_i16(d) {
                                let o3 = o2.update(j, ByteOp::JumpFalse(d as i16));
                                let (o4, ps) = if followed {
                                    (o3.push(ByteOp::Jump(1)), seq![o3.len() as int])
                                } else {
                                    (o3, Seq::empty())
                                };
                                lemma_elifs_by_tree(c2, o4, elifs1, elifs2, 0, els1 is Some, ps);
                                match lower_elifs(c2, o4, elifs1, 0, els1 is Some, ps) {
                                    Some((c5, o5, ps5)) => lemma_tail_by_tree(c5, o5, ps5, els1, els2),
                                    None => {},
                                }
                            }
                        },
                        None => {},
                    }
                },
                None => {},
            }
        },
        _ => {},
    }
}

proof fn lemma_items_by_tree(c: Seq<Value>, o: Seq<ByteOp>, items1: Vec<Ast>, items2: Vec<Ast>, i: int)
    requires
        items1.len() == items2.len(),
        forall|k: int| 0 <= k < items1.len() ==> tree_of(#[trigger] items1@[k]) == tree_of(items2@[k]),
    ensures
        lower_items(c, o, items1, i) == lower_items(c, o, items2, i),
        items_msg(c, o, items1, i) == items_msg(c, o, items2, i),
    decreases items1, items1.len() - i,
{
    if 0 <= i < items1.len() {
        let x1 = items1[i];
        let x2 = items2[i];
        assert(tree_of(items1@[i]) == tree_of(items2@[i]));
        lemma_lower_by_tree(c, o, x1, x2);
        match (x1, x2) {
            (Ast::Statement(e1), Ast::Statement(e2)) => {
                lemma_lower_by_tree(c, o, *e1, *e2);
            },
            _ => {},
        }
        let r = match x1 {
            Ast::Statement(inner) => if *inner is Block {
                lower(c, o, *inner)
            } else {
                lower(c, o, x1)
            },
            _ => if i + 1 != items1.len() {
                None
            } else {
                match lower(c, o, x1) {
                    Some((c1, o1)) => Some((c1, o1.push(ByteOp::Return))),
                    None => None,
                }
            },
        };
        match r {
            Some((c1, o1)) => lemma_items_by_tree(c1, o1, items1, items2, i + 1),
            None => {},
        }
    }
}

proof fn lemma_elifs_by_tree(
    c: Seq<Value>,
    o: Seq<ByteOp>,
    elifs1: Vec<(Box<Ast>, Box<Ast>)>,
    elifs2: Vec<(Box<Ast>, Box<Ast>)>,
    i: int,
    has_else: bool,
    ps: Seq<int>,
)
    requires
        elifs1.len() == elifs2.len(),
        forall|k: int|
            0 <= k < elifs1.len() ==> tree_of(*(#[trigger] elifs1@[k]).0) == tree_of(*elifs2@[k].0)
                && tree_of(*elifs1@[k].1) == tree_of(*elifs2@[k].1),
    ensures
        lower_elifs(c, o, elifs1, i, has_else, ps) == lower_elifs(c, o, elifs2, i, has_else, ps),
        elifs_msg(c, o, elifs1, i, has_else, ps) == elifs_msg(c, o, elifs2, i, has_else, ps),
    decreases elifs1, elifs1.len() - i,
{
    if 0 <= i < elifs1.len() {
        let followed = i + 1 < elifs1.len() || has_else;
        assert(tree_of(*elifs1@[i].0) == tree_of(*elifs2@[i].0));
        lemma_lower_by_tree(c, o, *elifs1[i].0, *elifs2[i].0);
        match lower(c, o, *elifs1[i].0) {
            Some((c1, o1)) => {
                let j = o1.len() as int;
                lemma_lower_by_tree(c1, o1.push(ByteOp::JumpFalse(1)), *elifs1[i].1, *elifs2[i].1);
                match lower(c1, o1.push(ByteOp::JumpFalse(1)), *elifs1[i].1) {
                    Some((c2, o2)) => {
                        let d = o2.len() - j + if followed { 1int } else { 0int };
                        if fits_i16(d) {
                            let o3 = o2.update(j, ByteOp::JumpFalse(d as i16));
                            if followed {
                                lemma_elifs_by_tree(
                                    c2,
                                    o3.push(ByteOp::Jump(1)),
                                    elifs1,
                                    elifs2,
                                    i + 1,
                                    has_else,
                                    ps.push(o3.len() as int),
                                );
                            } else {
                                lemma_elifs_by_tree(c2, o3, elifs1, elifs2, i + 1, has_else, ps);
                            }
                        }
                    },
                    None => {},
                }
            },
            None => {},
        }
    }
}

proof fn lemma_tail_by_tree(c: Seq<Value>, o: Seq<ByteOp>, ps: Seq<int>, els1: Option<Box<Ast>>, els2: Option<Box<Ast>>)
    requires
        els1 is Some == els2 is Some,
        els1 matches Some(e1) ==> els2 matches Some(e2) && tree_of(*e1) == tree_of(*e2),
    ensures
        lower_tail(c, o, ps, els1) == lower_tail(c, o, ps, els2),
        tail_msg(c, o, els1) == tail_msg(c, o, els2),
    decreases els1, 0nat,
{
    match (els1, els2) {
        (Some(e1), Some(e2)) => lemma_lower_by_tree(c, o, *e1, *e2),
        _ => {},
    }
}

/// Parsing then lowering is deterministic: two parses of the same tokens
/// that succeed lower to the same constant pool and instructions, or both
/// fail to lower with the same message.
pub proof fn lemma_pipeline_deterministic(t: Seq<Token>, a1: Ast, a2: Ast)
    requires
        parse_tokens(t) == Ok::<Tree, Seq<char>>(tree_of(a1)),
        parse_tokens(t) == Ok::<Tree, Seq<char>>(tree_of(a2)),
    ensures
        lower(Seq::empty(), Seq::empty(), a1) == lower(Seq::empty(), Seq::empty(), a2),
        lower_msg(Seq::empty(), Seq::empty(), a1) == lower_msg(Seq::empty(), Seq::empty(), a2),
{
    lemma_lower_by_tree(Seq::empty(), Seq::empty(), a1, a2);
}

/// A loop whose condition and body take more than 32767 instructions cannot
/// jump back to its start with an `i16`: lowering it fails rather than
/// truncating the offset.
pub proof fn lemma_long_loop_rejected(c: Seq<Value>, o: Seq<ByteOp>, cond: Ast, body: Ast)
    requires
        lower(c, o, cond) matches Some((c1, o1)) && lower(c1, o1.push(ByteOp::JumpFalse(1)), body) matches Some((c2, o2)) && o2.len() - o.len() > 32768,
    ensures
        lower(c, o, Ast::While(Box::new(cond), Box::new(body))) is None,
{
}

/// A loop whose condition is `false` never runs its body: its code loads
/// `false`, jumps past the loop and ends with `Nil`, leaving both stacks empty.
pub proof fn lemma_while_false_is_nil(body: Ast, answers: Seq<Value>)
    requires
        lower(Seq::empty(), Seq::empty(), Ast::While(Box::new(Ast::Bool(false)), Box::new(body))) is Some,
    ensures
        ({
            let (c, o) = lower(Seq::empty(), Seq::empty(), Ast::While(Box::new(Ast::Bool(false)), Box::new(body)))->Some_0;
            let end = VmState { ip: o.len() as int, stack: Seq::empty(), scopes: Seq::empty(), pending: None };
            &&& run_spec(c, o, initial_state(), answers, 3) == RunEnd::Ended(Value::Nil)
            &&& step_spec(c, o, end) == Outcome::Halt(Value::Nil, end)
        }),
{
    let w = Ast::While(Box::new(Ast::Bool(false)), Box::new(body));
    let (c, o) = lower(Seq::empty(), Seq::empty(), w)->Some_0;
    let o1 = seq![ByteOp::False];
    assert(lower(Seq::empty(), Seq::empty(), Ast::Bool(false)) == Some((Seq::<Value>::empty(), o1)));
    let (c2, o2) = lower(Seq::empty(), o1.push(ByteOp::JumpFalse(1)), body)->Some_0;
    lemma_lower_extends(Seq::empty(), o1.push(ByteOp::JumpFalse(1)), body);
    let fwd = o2.len() + 1 - 1;
    assert(o == o2.push(ByteOp::Jump((0 - o2.len()) as i16)).update(1, ByteOp::JumpFalse(fwd as i16)));
    assert(o2.subrange(0, 2) == o1.push(ByteOp::JumpFalse(1)));
    assert(o2[0] == o2.subrange(0, 2)[0]);
    assert(o[0] == ByteOp::False);
    assert(o[1] == ByteOp::JumpFalse(fwd as i16));
    let s1 = VmState { ip: 1, stack: seq![Value::Bool(false)], scopes: Seq::empty(), pending: None };
    assert(step_spec(c, o, initial_state()) == Outcome::Next(s1));
    let end = VmState { ip: o.len() as int, stack: Seq::empty(), scopes: Seq::empty(), pending: None };
    assert(s1.stack.drop_last() =~= Seq::<Value>::empty());
    assert(step_spec(c, o, s1) == Outcome::Next(end));
    assert(step_spec(c, o, end) == Outcome::Halt(Value::Nil, end));
    reveal_with_fuel(run_spec, 4);
}

/// A conditional whose first branch takes more instructions than a forward
/// `i16` jump can skip cannot be lowered: lowering fails rather than
/// truncating the offset.
pub proof fn lemma_long_branch_rejected(
    c: Seq<Value>,
    o: Seq<ByteOp>,
    cond: Ast,
    then: Ast,
    elifs: Vec<(Box<Ast>, Box<Ast>)>,
    els: Option<Box<Ast>>,
)
    requires
        lower(c, o, cond) matches Some((c1, o1)) && lower(c1, o1.push(ByteOp::JumpFalse(1)), then) matches Some((c2, o2))
            && o2.len() - o1.len() + (if elifs.len() > 0 || els is Some { 1int } else { 0int }) > 32767,
    ensures
        lower(c, o, Ast::IfElse(Box::new(cond), Box::new(then), elifs, els)) is None,
{
}

/// The number literals of a tree, as pool values.
pub open spec fn literals(a: Ast) -> Set<Value>
    decreases a, 0nat,
{
    match a {
        Ast::Number(bits) => set![Value::Number(bits)],
        Ast::Statement(e) => literals(*e),
        Ast::Unary(_, e) => literals(*e),
        Ast::Return(e) => literals(*e),
        Ast::Binary(_, l, r) => literals(*l).union(literals(*r)),
        Ast::Block(items) => items_literals(items, 0),
        Ast::IfElse(cond, then, elifs, els) => literals(*cond).union(literals(*then)).union(
            elifs_literals(elifs, 0),
        ).union(
            match els {
                Some(e) => literals(*e),
                None => Set::empty(),
            },
        ),
        Ast::While(cond, body) => literals(*cond).union(literals(*body)),
        Ast::Let(_, _, init) => match init {
            Some(e) => literals(*e),
            None => Set::empty(),
        },
        _ => Set::empty(),
    }
}

/// The number literals of the items of a block from index `i` on.
pub open spec fn items_literals(items: Vec<Ast>, i: int) -> Set<Value>
    decreases items, items.len() - i,
{
    if i < 0 || i >= items.len() {
        Set::empty()
    } else {
        literals(items[i]).union(items_literals(items, i + 1))
    }
}

/// The number literals of the else-if arms from index `i` on.
pub open spec fn elifs_literals(elifs: Vec<(Box<Ast>, Box<Ast>)>, i: int) -> Set<Value>
    decreases elifs, elifs.len() - i,
{
    if i < 0 || i >= elifs.len() {
        Set::empty()
    } else {
        literals(*elifs[i].0).union(literals(*elifs[i].1)).union(elifs_literals(elifs, i + 1))
    }
}

/// The pool `c2` holds what `c` holds and the values `s`, and nothing else.
pub open spec fn grows(c: Seq<Value>, c2: Seq<Value>, s: Set<Value>) -> bool {
    c2.to_set() == c.to_set().union(s)
}

proof fn lemma_grows_trans(c: Seq<Value>, c1: Seq<Value>, c2: Seq<Value>, s1: Set<Value>, s2: Set<Value>)
    requires
        grows(c, c1, s1),
        grows(c1, c2, s2),
    ensures
        grows(c, c2, s1.union(s2)),
{
    assert(c2.to_set() =~= c.to_set().union(s1.union(s2)));
}

/// Lowering adds to the pool exactly the number literals of the tree.
pub proof fn lemma_lower_literals(c: Seq<Value>, o: Seq<ByteOp>, a: Ast)
    ensures
        lower(c, o, a) matches Some((c2, _)) ==> grows(c, c2, literals(a)),
    decreases a, 0nat,
{
    match a {
        Ast::Number(bits) => {
            let v = Value::Number(bits);
            lemma_first_match(c, v, 0);
            if first_match(c, v, 0) >= 0 {
                assert(c.to_set().contains(c[first_match(c, v, 0)]));
                assert(c.to_set() =~= c.to_set().union(set![v]));
            } else {
                c.lemma_push_to_set_commute(v);
                assert(c.push(v).to_set() =~= c.to_set().union(set![v]));
            }
        },
        Ast::Statement(e) => lemma_lower_literals(c, o, *e),
        Ast::Unary(_, e) => lemma_lower_literals(c, o, *e),
        Ast::Return(e) => lemma_lower_literals(c, o, *e),
        Ast::Binary(op, l, r) => {
            lemma_lower_literals(c, o, *r);
            lemma_lower_literals(c, o, *l);
            if op is Assign {
                if let Ast::Identifier(_) = *l {
                    assert(literals(*l) =~= Set::<Value>::empty());
                    assert(literals(*l).union(literals(*r)) =~= literals(*r));
                }
            } else if let Some((c1, o1)) = lower(c, o, *l) {
                lemma_lower_literals(c1, o1, *r);
                if let Some((c2, o2)) = lower(c1, o1, *r) {
                    lemma_grows_trans(c, c1, c2, literals(*l), literals(*r));
                }
            }
        },
        Ast::Block(items) => {
            lemma_items_literals(c, o.push(ByteOp::ScopeOpen), items, 0);
        },
        Ast::While(cond, body) => {
            lemma_lower_literals(c, o, *cond);
            if let Some((c1, o1)) = lower(c, o, *cond) {
                lemma_lower_literals(c1, o1.push(ByteOp::JumpFalse(1)), *body);
                if let Some((c2, o2)) = lower(c1, o1.push(ByteOp::JumpFalse(1)), *body) {
                    lemma_grows_trans(c, c1, c2, literals(*cond), literals(*body));
                }
            }
        },
        Ast::Let(_, _, init) => {
            if let Some(e) = init {
                lemma_lower_literals(c, o, *e);
            } else {
                assert(c.to_set() =~= c.to_set().union(Set::<Value>::empty()));
            }
        },
        Ast::IfElse(cond, then, elifs, els) => {
            lemma_lower_literals(c, o, *cond);
            if let Some((c1, o1)) = lower(c, o, *cond) {
                let j = o1.len() as int;
                lemma_lower_literals(c1, o1.push(ByteOp::JumpFalse(1)), *then);
                if let Some((c2, o2)) = lower(c1, o1.push(ByteOp::JumpFalse(1)), *then) {
                    lemma_grows_trans(c, c1, c2, literals(*cond), literals(*then));
                    let followed = elifs.len() > 0 || els is Some;
                    let d = o2.len() - j + if followed { 1int } else { 0int };
                    let o3 = o2.update(j, ByteOp::JumpFalse(d as i16));
                    let (o4, ps) = if followed {
                        (o3.push(ByteOp::Jump(1)), seq![o3.len() as int])
                    } else {
                        (o3, Seq::empty())
                    };
                    lemma_elifs_literals(c2, o4, elifs, 0, els is Some, ps);
                    if let Some((c5, o5, ps5)) = lower_elifs(c2, o4, elifs, 0, els is Some, ps) {
                        lemma_grows_trans(c, c2, c5, literals(*cond).union(literals(*then)), elifs_literals(elifs, 0));
                        lemma_tail_literals(c5, o5, ps5, els);
                        if let Some((c6, o6)) = lower_tail(c5, o5, ps5, els) {
                            lemma_grows_trans(
                                c,
                                c5,
                                c6,
                                literals(*cond).union(literals(*then)).union(elifs_literals(elifs, 0)),
                                match els {
                                    Some(e) => literals(*e),
                                    None => Set::empty(),
                                },
                            );
                        }
                    }
                }
            }
        },
        _ => {},
    }
}

proof fn lemma_items_literals(c: Seq<Value>, o: Seq<ByteOp>, items: Vec<Ast>, i: int)
    ensures
        lower_items(c, o, items, i) matches Some((c2, _)) ==> grows(c, c2, items_literals(items, i)),
    decreases items, items.len() - i,
{
    if 0 <= i < items.len() {
        let item = items[i];
        lemma_lower_literals(c, o, item);
        if let Ast::Statement(inner) = item {
            lemma_lower_literals(c, o, *inner);
        }
        let r = match item {
            Ast::Statement(inner) => if *inner is Block {
                lower(c, o, *inner)
            } else {
                lower(c, o, item)
            },
            _ => if i + 1 != items.len() {
                None
            } else {
                match lower(c, o, item) {
                    Some((c1, o1)) => Some((c1, o1.push(ByteOp::Return))),
                    None => None,
                }
            },
        };
        if let Some((c1, o1)) = r {
            lemma_items_literals(c1, o1, items, i + 1);
            if let Some((c2, o2)) = lower_items(c1, o1, items, i + 1) {
                lemma_grows_trans(c, c1, c2, literals(item), items_literals(items, i + 1));
            }
        }
    } else {
        assert(c.to_set() =~= c.to_set().union(Set::<Value>::empty()));
    }
}

proof fn lemma_elifs_literals(
    c: Seq<Value>,
    o: Seq<ByteOp>,
    elifs: Vec<(Box<Ast>, Box<Ast>)>,
    i: int,
    has_else: bool,
    ps: Seq<int>,
)
    ensures
        lower_elifs(c, o, elifs, i, has_else, ps) matches Some((c2, _, _)) ==> grows(c, c2, elifs_literals(elifs, i)),
    decreases elifs, elifs.len() - i,
{
    if 0 <= i < elifs.len() {
        let followed = i + 1 < elifs.len() || has_else;
        lemma_lower_literals(c, o, *elifs[i].0);
        if let Some((c1, o1)) = lower(c, o, *elifs[i].0) {
            let j = o1.len() as int;
            lemma_lower_literals(c1, o1.push(ByteOp::JumpFalse(1)), *elifs[i].1);
            if let Some((c2, o2)) = lower(c1, o1.push(ByteOp::JumpFalse(1)), *elifs[i].1) {
                lemma_grows_trans(c, c1, c2, literals(*elifs[i].0), literals(*elifs[i].1));
                let d = o2.len() - j + if followed { 1int } else { 0int };
                let o3 = o2.update(j, ByteOp::JumpFalse(d as i16));
                let (o4, ps4) = if followed {
                    (o3.push(ByteOp::Jump(1)), ps.push(o3.len() as int))
                } else {
                    (o3, ps)
                };
                lemma_elifs_literals(c2, o4, elifs, i + 1, has_else, ps4);
                if let Some((c5, o5, ps5)) = lower_elifs(c2, o4, elifs, i + 1, has_else, ps4) {
                    lemma_grows_trans(
                        c,
                        c2,
                        c5,
                        literals(*elifs[i].0).union(literals(*elifs[i].1)),
                        elifs_literals(elifs, i + 1),
                    );
                }
            }
        }
    } else {
        assert(c.to_set() =~= c.to_set().union(Set::<Value>::empty()));
    }
}

proof fn lemma_tail_literals(c: Seq<Value>, o: Seq<ByteOp>, ps: Seq<int>, els: Option<Box<Ast>>)
    ensures
        lower_tail(c, o, ps, els) matches Some((c2, _)) ==> grows(
            c,
            c2,
            match els {
                Some(e) => literals(*e),
                None => Set::empty(),
            },
        ),
    decreases els, 0nat,
{
    match els {
        Some(e) => lemma_lower_literals(c, o, *e),
        None => {
            assert(c.to_set() =~= c.to_set().union(Set::<Value>::empty()));
        },
    }
}

/// Constant-pool deduplication: lowering a whole tree puts each distinct
/// number literal of it in the pool exactly once and nothing else, so the
/// pool is as long as the tree has distinct literals.
pub proof fn lemma_pool_is_literals(a: Ast)
    requires
        lower(Seq::empty(), Seq::empty(), a) is Some,
    ensures
        ({
            let c = lower(Seq::empty(), Seq::empty(), a)->Some_0.0;
            &&& c.to_set() == literals(a)
            &&& pool_distinct(c)
            &&& c.len() == literals(a).len()
        }),
{
    let c = lower(Seq::empty(), Seq::empty(), a)->Some_0.0;
    lemma_lower_literals(Seq::empty(), Seq::empty(), a);
    lemma_lower_extends(Seq::empty(), Seq::empty(), a);
    assert(Seq::<Value>::empty().to_set() =~= Set::<Value>::empty());
    assert(c.to_set() =~= literals(a));
    assert(c.no_duplicates());
    c.unique_seq_to_set();
}

} // verus!
