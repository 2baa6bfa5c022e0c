use vstd::prelude::*;
use std::collections::HashMap;
use crate::bytecode::{ByteOp, Bytecode, Value};
use crate::lowering_proofs::scope_effect;

verus! {

broadcast use vstd::std_specs::hash::group_hash_axioms;

/// The numeric operations the VM hands to its driver. Numbers are IEEE-754
/// doubles held as bits; the driver computes the result and passes it to
/// `StackVm::supply`.
#[derive(Clone, Copy, Debug, PartialEq, Eq, Structural)]
pub enum NumOp {
    Add,
    Sub,
    Mul,
    Div,
    Equal,
    Greater,
    Less,
    Negate,
}

/// What one step of the VM came to.
#[derive(Debug)]
pub enum Step {
    /// The instruction was executed; the VM can step again.
    Running,
    /// The program ended with this value.
    Halted(Value),
    /// The instruction's preconditions failed; the message says which.
    Faulted(String),
    /// The instruction needs `NumOp` applied to these operands (the second is
    /// 0 for `Negate`); its operands have been popped.
    Compute(NumOp, u64, u64),
}

/// The VM's state as a mathematical value: instruction index, operand stack,
/// scope stack (innermost last), and whether a numeric result is awaited.
pub struct VmState {
    pub ip: int,
    pub stack: Seq<Value>,
    pub scopes: Seq<Map<u64, Value>>,
    /// The numeric operation whose result the driver is to supply, if any.
    pub pending: Option<NumOp>,
}

/// What one step does to a state, in the model.
pub enum Outcome {
    Next(VmState),
    Halt(Value, VmState),
    /// The step fails with this message and leaves the state as it was.
    Fault(Seq<char>),
    Compute(NumOp, u64, u64, VmState),
}

/// The index of the innermost scope that defines `id`, or -1.
pub open spec fn innermost(scopes: Seq<Map<u64, Value>>, id: u64) -> int
    decreases scopes.len(),
{
    if scopes.len() == 0 {
        -1
    } else if scopes.last().contains_key(id) {
        scopes.len() - 1
    } else {
        innermost(scopes.drop_last(), id)
    }
}

/// Reads resolve to the nearest enclosing definition: the scope that
/// `innermost` picks defines `id`, no scope inside it does, and where it
/// picks none, no scope defines `id`.
pub proof fn lemma_innermost(scopes: Seq<Map<u64, Value>>, id: u64)
    ensures
        -1 <= innermost(scopes, id) < scopes.len(),
        innermost(scopes, id) >= 0 ==> scopes[innermost(scopes, id)].contains_key(id),
        forall|j: int|
            innermost(scopes, id) < j < scopes.len() ==> !#[trigger] scopes[j].contains_key(id),
    decreases scopes.len(),
{
    if scopes.len() > 0 {
        let rest = scopes.drop_last();
        lemma_innermost(rest, id);
        assert forall|j: int| innermost(scopes, id) < j < scopes.len() implies !#[trigger] scopes[j].contains_key(id) by {
            if j < scopes.len() - 1 {
                assert(scopes[j] == rest[j]);
            }
        }
    }
}

/// The value of `id` in the innermost scope that defines it.
pub open spec fn lookup(scopes: Seq<Map<u64, Value>>, id: u64) -> Option<Value> {
    let k = innermost(scopes, id);
    if k >= 0 {
        Some(scopes[k][id])
    } else {
        None
    }
}

/// The scopes after `id` is given the value `v` where it is defined innermost.
pub open spec fn assign(scopes: Seq<Map<u64, Value>>, id: u64, v: Value) -> Seq<Map<u64, Value>> {
    let k = innermost(scopes, id);
    scopes.update(k, scopes[k].insert(id, v))
}

pub open spec fn num_op_of(op: ByteOp) -> Option<NumOp> {
    match op {
        ByteOp::Add => Some(NumOp::Add),
        ByteOp::Sub => Some(NumOp::Sub),
        ByteOp::Mul => Some(NumOp::Mul),
        ByteOp::Div => Some(NumOp::Div),
        ByteOp::Equal => Some(NumOp::Equal),
        ByteOp::Greater => Some(NumOp::Greater),
        ByteOp::Less => Some(NumOp::Less),
        _ => None,
    }
}

/// Moving on to the next instruction with the given stacks.
pub open spec fn advance(s: VmState, stack: Seq<Value>, scopes: Seq<Map<u64, Value>>) -> Outcome {
    Outcome::Next(VmState { ip: s.ip + 1, stack, scopes, pending: None })
}

/// Jumping by `d` from the current instruction; a target outside the
/// instructions (their end included) is a fault.
pub open spec fn jump(s: VmState, stack: Seq<Value>, d: i16, len: int) -> Outcome {
    let t = s.ip + d;
    if 0 <= t <= len {
        Outcome::Next(VmState { ip: t, stack, scopes: s.scopes, pending: None })
    } else {
        Outcome::Fault("Jump out of range"@)
    }
}

/// Why a binary numeric instruction cannot take its operands from `stack`.
pub open spec fn binary_fault(stack: Seq<Value>) -> Seq<char> {
    let n = stack.len();
    if n < 2 {
        "Binary operation needs two operands"@
    } else if stack[n - 1] is Nil || stack[n - 2] is Nil {
        "Binary operand cannot be nil"@
    } else {
        "Binary operand cannot be bool"@
    }
}

/// One step of the VM on the constants `c` and the instructions `o`. Past the
/// last instruction the program ends with the value on top of the stack, or
/// `Nil` when the stack is empty.
pub open spec fn step_spec(c: Seq<Value>, o: Seq<ByteOp>, s: VmState) -> Outcome {
    let n = s.stack.len();
    if s.pending is Some {
        Outcome::Fault("A numeric result is awaited"@)
    } else if s.ip < 0 || s.ip >= o.len() {
        Outcome::Halt(if n > 0 { s.stack[n - 1] } else { Value::Nil }, s)
    } else {
        match o[s.ip] {
            ByteOp::Load(i) => if (i as int) < c.len() {
                advance(s, s.stack.push(c[i as int]), s.scopes)
            } else {
                Outcome::Fault("Constant index out of range"@)
            },
            ByteOp::True => advance(s, s.stack.push(Value::Bool(true)), s.scopes),
            ByteOp::False => advance(s, s.stack.push(Value::Bool(false)), s.scopes),
            ByteOp::Nil => advance(s, s.stack.push(Value::Nil), s.scopes),
            ByteOp::Not => if n >= 1 && s.stack[n - 1] is Bool {
                advance(s, s.stack.drop_last().push(Value::Bool(!s.stack[n - 1]->Bool_0)), s.scopes)
            } else if n == 0 {
                Outcome::Fault("Unary not needs an operand"@)
            } else if s.stack[n - 1] is Nil {
                Outcome::Fault("Unary not value cannot be nil"@)
            } else {
                Outcome::Fault("Unary not value cannot be number"@)
            },
            ByteOp::Negate => if n >= 1 && s.stack[n - 1] is Number {
                Outcome::Compute(
                    NumOp::Negate,
                    s.stack[n - 1]->Number_0,
                    0,
                    VmState { stack: s.stack.drop_last(), pending: Some(NumOp::Negate), ..s },
                )
            } else if n == 0 {
                Outcome::Fault("Unary negate needs an operand"@)
            } else if s.stack[n - 1] is Nil {
                Outcome::Fault("Unary negate value cannot be nil"@)
            } else {
                Outcome::Fault("Unary negate value cannot be bool"@)
            },
            ByteOp::ScopeOpen => advance(s, s.stack, s.scopes.push(Map::empty())),
            ByteOp::ScopeClose => if s.scopes.len() > 0 {
                advance(s, s.stack, s.scopes.drop_last())
            } else {
                advance(s, s.stack, s.scopes)
            },
            ByteOp::DefVar(id) => if lookup(s.scopes, id) is Some {
                Outcome::Fault("Variable already defined"@)
            } else if s.scopes.len() == 0 {
                Outcome::Fault("No scope to define the variable in"@)
            } else {
                let v = if n > 0 { s.stack[n - 1] } else { Value::Nil };
                let k = s.scopes.len() - 1;
                advance(s, s.stack, s.scopes.update(k, s.scopes[k].insert(id, v)))
            },
            ByteOp::SetVar(id) => if lookup(s.scopes, id) is None {
                Outcome::Fault("Variable not defined"@)
            } else {
                let v = if n > 0 { s.stack[n - 1] } else { Value::Nil };
                advance(s, s.stack, assign(s.scopes, id, v))
            },
            ByteOp::GetVar(id) => match lookup(s.scopes, id) {
                Some(v) => advance(s, s.stack.push(v), s.scopes),
                None => Outcome::Fault("Failed to find variable in scope"@),
            },
            ByteOp::Jump(d) => jump(s, s.stack, d, o.len() as int),
            ByteOp::JumpFalse(d) => if n >= 1 && s.stack[n - 1] is Bool {
                if !s.stack[n - 1]->Bool_0 {
                    jump(s, s.stack.drop_last(), d, o.len() as int)
                } else {
                    advance(s, s.stack.drop_last(), s.scopes)
                }
            } else if n == 0 {
                Outcome::Fault("Jump on false needs an operand"@)
            } else if s.stack[n - 1] is Nil {
                Outcome::Fault("Jump on false value cannot be nil"@)
            } else {
                Outcome::Fault("Jump on false value cannot be number"@)
            },
            ByteOp::JumpTrue(d) => if n >= 1 && s.stack[n - 1] is Bool {
                if s.stack[n - 1]->Bool_0 {
                    jump(s, s.stack.drop_last(), d, o.len() as int)
                } else {
                    advance(s, s.stack.drop_last(), s.scopes)
                }
            } else if n == 0 {
                Outcome::Fault("Jump on true needs an operand"@)
            } else if s.stack[n - 1] is Nil {
                Outcome::Fault("Jump on true value cannot be nil"@)
            } else {
                Outcome::Fault("Jump on true value cannot be number"@)
            },
            ByteOp::Pop => if n > 0 {
                advance(s, s.stack.drop_last(), s.scopes)
            } else {
                advance(s, s.stack, s.scopes)
            },
            ByteOp::Return => {
                let v = if n > 0 { s.stack[n - 1] } else { Value::Nil };
                let st = if n > 0 { s.stack.drop_last() } else { s.stack };
                let sc = if s.scopes.len() > 0 { s.scopes.drop_last() } else { s.scopes };
                if sc.len() > 0 {
                    advance(s, st.push(v), sc)
                } else {
                    Outcome::Halt(v, VmState { stack: st, scopes: sc, ..s })
                }
            },
            op => match num_op_of(op) {
                Some(nop) => if n >= 2 && s.stack[n - 1] is Number && s.stack[n - 2] is Number {
                    Outcome::Compute(
                        nop,
                        s.stack[n - 2]->Number_0,
                        s.stack[n - 1]->Number_0,
                        VmState { stack: s.stack.subrange(0, n - 2), pending: Some(nop), ..s },
                    )
                } else {
                    Outcome::Fault(binary_fault(s.stack))
                },
                None => Outcome::Fault(Seq::empty()),
            },
        }
    }
}

/// Whether the step `r`, taking the VM from `before` to `after`, is the outcome `out`.
pub open spec fn step_agrees(out: Outcome, r: Step, before: VmState, after: VmState) -> bool {
    match out {
        Outcome::Next(s2) => r is Running && after == s2,
        Outcome::Halt(v, s2) => r matches Step::Halted(w) && w == v && after == s2,
        Outcome::Fault(m) => r matches Step::Faulted(w) && w@ == m && after == before,
        Outcome::Compute(op, a, b, s2) => r matches Step::Compute(op2, a2, b2) && op2 == op && a2
            == a && b2 == b && after == s2,
    }
}

/// Whether `v` is of the kind that `op` yields: a `Bool` for a comparison,
/// a `Number` otherwise.
pub open spec fn result_fits(op: NumOp, v: Value) -> bool {
    match op {
        NumOp::Equal | NumOp::Greater | NumOp::Less => v is Bool,
        _ => v is Number,
    }
}

/// Whether the state awaits a result and `v` is of the kind it awaits.
pub open spec fn accepts(s: VmState, v: Value) -> bool {
    s.pending matches Some(op) && result_fits(op, v)
}

/// The state after the driver supplies `v` as the result of a pending numeric
/// operation; a value of the wrong kind, or one that nothing awaits, changes nothing.
pub open spec fn supply_spec(s: VmState, v: Value) -> VmState {
    if accepts(s, v) {
        VmState { ip: s.ip + 1, stack: s.stack.push(v), scopes: s.scopes, pending: None }
    } else {
        s
    }
}

pub open spec fn initial_state() -> VmState {
    VmState { ip: 0, stack: Seq::empty(), scopes: Seq::empty(), pending: None }
}

/// How many operands an instruction takes from the stack and how many it puts back.
pub open spec fn stack_effect(op: ByteOp) -> (int, int) {
    match op {
        ByteOp::Load(_) | ByteOp::True | ByteOp::False | ByteOp::Nil | ByteOp::GetVar(_) => (0, 1),
        ByteOp::Add | ByteOp::Sub | ByteOp::Mul | ByteOp::Div | ByteOp::Equal | ByteOp::Greater
        | ByteOp::Less => (2, 1),
        ByteOp::Not | ByteOp::Negate | ByteOp::Return => (1, 1),
        ByteOp::JumpFalse(_) | ByteOp::JumpTrue(_) | ByteOp::Pop => (1, 0),
        _ => (0, 0),
    }
}

/// The depths after an instruction follow from the instruction alone: where
/// the stack holds the operands the instruction takes and a scope is open for
/// those that close one, a step that goes on (a numeric one once its result is
/// supplied) changes the operand stack by `stack_effect` and the scope stack
/// by `scope_effect`; a `Return` unwinds exactly one scope, and halts only
/// when it closes the last one.
pub proof fn lemma_stack_effect(c: Seq<Value>, o: Seq<ByteOp>, s: VmState, v: Value)
    requires
        s.pending is None,
        0 <= s.ip < o.len(),
        s.stack.len() >= stack_effect(o[s.ip]).0,
        scope_effect(o[s.ip]) < 0 ==> s.scopes.len() > 0,
    ensures
        match step_spec(c, o, s) {
            Outcome::Next(s2) => s2.stack.len() == s.stack.len() - stack_effect(o[s.ip]).0
                + stack_effect(o[s.ip]).1 && s2.scopes.len() == s.scopes.len() + scope_effect(
                o[s.ip],
            ),
            Outcome::Compute(_, _, _, s2) => accepts(s2, v) ==> supply_spec(s2, v).stack.len() == s.stack.len()
                - stack_effect(o[s.ip]).0 + stack_effect(o[s.ip]).1 && supply_spec(
                s2,
                v,
            ).scopes.len() == s.scopes.len() && supply_spec(s2, v).ip == s.ip + 1,
            Outcome::Halt(_, s2) => o[s.ip] is Return && s.scopes.len() == 1 && s2.scopes.len()
                == 0,
            Outcome::Fault(_) => true,
        },
{
    if let ByteOp::SetVar(id) = o[s.ip] {
        lemma_innermost(s.scopes, id);
    }
}

/// How a run ends within a number of steps.
pub enum RunEnd {
    Ended(Value),
    Faulted(Seq<char>),
    Unfinished,
}

/// Running from `s` for at most `fuel` steps, where the driver answers the
/// numeric requests with `answers`, in order.
pub open spec fn run_spec(c: Seq<Value>, o: Seq<ByteOp>, s: VmState, answers: Seq<Value>, fuel: nat) -> RunEnd
    decreases fuel,
{
    if fuel == 0 {
        RunEnd::Unfinished
    } else {
        match step_spec(c, o, s) {
            Outcome::Next(s2) => run_spec(c, o, s2, answers, (fuel - 1) as nat),
            Outcome::Halt(v, _) => RunEnd::Ended(v),
            Outcome::Fault(m) => RunEnd::Faulted(m),
            Outcome::Compute(_, _, _, s2) => if answers.len() == 0 {
                RunEnd::Unfinished
            } else {
                run_spec(c, o, supply_spec(s2, answers[0]), answers.drop_first(), (fuel - 1) as nat)
            },
        }
    }
}

/// Re-running the same bytecode from a fresh VM (`StackVm::new` gives
/// `initial_state()`, and `step` follows `step_spec`) ends the same way: once a
/// run has ended within some number of steps, every longer allowance ends it
/// with the same value or fault.
pub proof fn lemma_rerun_same(c: Seq<Value>, o: Seq<ByteOp>, answers: Seq<Value>, fuel: nat, more: nat)
    requires
        !(run_spec(c, o, initial_state(), answers, fuel) is Unfinished),
    ensures
        run_spec(c, o, initial_state(), answers, fuel + more) == run_spec(c, o, initial_state(), answers, fuel),
{
    lemma_run_extends(c, o, initial_state(), answers, fuel, more);
}

proof fn lemma_run_extends(c: Seq<Value>, o: Seq<ByteOp>, s: VmState, answers: Seq<Value>, fuel: nat, more: nat)
    requires
        !(run_spec(c, o, s, answers, fuel) is Unfinished),
    ensures
        run_spec(c, o, s, answers, fuel + more) == run_spec(c, o, s, answers, fuel),
    decreases fuel,
{
    if fuel > 0 {
        match step_spec(c, o, s) {
            Outcome::Next(s2) => {
                lemma_run_extends(c, o, s2, answers, (fuel - 1) as nat, more);
                assert((fuel + more - 1) as nat == ((fuel - 1) as nat + more) as nat);
            },
            Outcome::Compute(_, _, _, s2) => {
                if answers.len() > 0 {
                    lemma_run_extends(c, o, supply_spec(s2, answers[0]), answers.drop_first(), (fuel - 1) as nat, more);
                    assert((fuel + more - 1) as nat == ((fuel - 1) as nat + more) as nat);
                }
            },
            _ => {},
        }
    }
}

/// A stack machine with an operand stack and a stack of lexical scopes.
pub struct StackVm {
    ip_idx: usize,
    stack: Vec<Value>,
    scopes: Vec<HashMap<u64, Value>>,
    pending: Option<NumOp>,
}

pub open spec fn scope_views(v: Seq<HashMap<u64, Value>>) -> Seq<Map<u64, Value>> {
    v.map_values(|m: HashMap<u64, Value>| m@)
}

impl View for StackVm {
    type V = VmState;

    closed spec fn view(&self) -> VmState {
        VmState {
            ip: self.ip_idx as int,
            stack: self.stack@,
            scopes: scope_views(self.scopes@),
            pending: self.pending,
        }
    }
}

/// The target of a jump by `d` from `ip`, where it lies within `0..=len`.
fn jump_target(ip: usize, d: i16, len: usize) -> (r: Option<usize>)
    requires
        ip < len,
    ensures
        match r {
            Some(t) => t as int == ip + d && 0 <= t <= len,
            None => !(0 <= ip + d <= len),
        },
{
    if d >= 0 {
        let du = d as usize;
        if du <= len - ip {
            Some(ip + du)
        } else {
            None
        }
    } else {
        let du = (0 - (d as i32)) as usize;
        if du <= ip {
            Some(ip - du)
        } else {
            None
        }
    }
}

/// The index of the innermost scope that defines `id`.
fn find_scope(scopes: &Vec<HashMap<u64, Value>>, id: u64) -> (r: Option<usize>)
    ensures
        match r {
            Some(k) => k < scopes.len() && innermost(scope_views(scopes@), id) == k as int,
            None => innermost(scope_views(scopes@), id) == -1,
        },
{
    let ghost all = scope_views(scopes@);
    let mut i: usize = scopes.len();
    assert(all.subrange(0, i as int) =~= all);
    while i > 0
        invariant
            0 <= i <= scopes.len(),
            all == scope_views(scopes@),
            innermost(all, id) == innermost(all.subrange(0, i as int), id),
        decreases i,
    {
        let ghost sub = all.subrange(0, i as int);
        assert(sub.last() == scopes@[i - 1]@);
        if scopes[i - 1].contains_key(&id) {
            return Some(i - 1);
        }
        assert(sub.drop_last() =~= all.subrange(0, i - 1));
        i = i - 1;
    }
    None
}

/// The value of `id` in the innermost scope that defines it.
fn var_in_scopes(scopes: &Vec<HashMap<u64, Value>>, id: u64) -> (r: Option<Value>)
    ensures
        r == lookup(scope_views(scopes@), id),
{
    match find_scope(scopes, id) {
        Some(k) => {
            proof {
                lemma_innermost(scope_views(scopes@), id);
            }
            assert(scope_views(scopes@)[k as int] == scopes@[k as int]@);
            match scopes[k].get(&id) {
                Some(v) => Some(*v),
                None => None,
            }
        },
        None => None,
    }
}

impl StackVm {
    /// The VM's own invariant: while a numeric result is awaited, the
    /// instruction index can still advance.
    pub closed spec fn wf(&self) -> bool {
        self.pending is Some ==> self.ip_idx < usize::MAX
    }

    /// A VM at the first instruction, with empty stacks.
    pub fn new() -> (r: StackVm)
        ensures
            r.wf(),
            r@ == initial_state(),
    {
        let r = StackVm { ip_idx: 0, stack: Vec::new(), scopes: Vec::new(), pending: None };
        assert(scope_views(r.scopes@) =~= Seq::<Map<u64, Value>>::empty());
        r
    }

    /// Completes a pending numeric instruction with its result `v`: pushes it
    /// and moves to the next instruction, and answers `true`. Without a
    /// pending instruction, or with a value of another kind than the
    /// operation yields, it does nothing and answers `false`.
    pub fn supply(&mut self, v: Value) -> (r: bool)
        requires
            old(self).wf(),
        ensures
            final(self).wf(),
            final(self)@ == supply_spec(old(self)@, v),
            r == accepts(old(self)@, v),
    {
        let fits = match (self.pending, v) {
            (Some(NumOp::Equal), Value::Bool(_)) | (Some(NumOp::Greater), Value::Bool(_)) | (
                Some(NumOp::Less),
                Value::Bool(_),
            ) => true,
            (Some(NumOp::Add), Value::Number(_)) | (Some(NumOp::Sub), Value::Number(_)) | (
                Some(NumOp::Mul),
                Value::Number(_),
            ) | (Some(NumOp::Div), Value::Number(_)) | (Some(NumOp::Negate), Value::Number(_)) => true,
            _ => false,
        };
        if fits {
            self.stack.push(v);
            self.ip_idx = self.ip_idx + 1;
            self.pending = None;
        }
        fits
    }

    /// The value `distance` places below the top of the operand stack.
    pub fn stack_peek(&self, distance: usize) -> (r: Value)
        requires
            distance < self@.stack.len(),
        ensures
            r == self@.stack[self@.stack.len() - 1 - distance],
    {
        self.stack[self.stack.len() - 1 - distance]
    }

    /// Pops the two numeric operands of `nop` and asks the driver for its result.
    fn numeric(&mut self, nop: NumOp) -> (r: Step)
        requires
            old(self).pending is None,
        ensures
            ({
                let s = old(self)@;
                let n = s.stack.len();
                if n >= 2 && s.stack[n - 1] is Number && s.stack[n - 2] is Number {
                    r matches Step::Compute(op2, a2, b2) && op2 == nop && a2 == s.stack[n
                        - 2]->Number_0 && b2 == s.stack[n - 1]->Number_0 && final(self)@ == VmState {
                        stack: s.stack.subrange(0, n - 2),
                        pending: Some(nop),
                        ..s
                    }
                } else {
                    r matches Step::Faulted(m) && m@ == binary_fault(s.stack) && final(self)@ == s
                }
            }),
            final(self).ip_idx == old(self).ip_idx,
    {
        let n = self.stack.len();
        if n < 2 {
            return Step::Faulted("Binary operation needs two operands".to_string());
        }
        match (self.stack[n - 2], self.stack[n - 1]) {
            (Value::Number(a), Value::Number(b)) => {
                self.stack.pop();
                self.stack.pop();
                assert(self.stack@ =~= old(self).stack@.subrange(0, n - 2));
                self.pending = Some(nop);
                Step::Compute(nop, a, b)
            },
            (_, Value::Nil) | (Value::Nil, _) => Step::Faulted(
                "Binary operand cannot be nil".to_string(),
            ),
            _ => Step::Faulted("Binary operand cannot be bool".to_string()),
        }
    }

    /// Executes the instruction at the current index.
    ///
    /// Past the last instruction the run halts with the value on top of the
    /// operand stack, or `Nil` when it is empty, rather than always with
    /// `Nil`: a program whose outermost expression is not a block leaves its
    /// value there without any `Return`, and that value is the result.
    pub fn step(&mut self, bc: &Bytecode) -> (r: Step)
        requires
            old(self).wf(),
        ensures
            final(self).wf(),
            step_agrees(step_spec(bc.constants@, bc.ops@, old(self)@), r, old(self)@, final(self)@),
    {
        if self.pending.is_some() {
            return Step::Faulted("A numeric result is awaited".to_string());
        }
        let n = self.stack.len();
        if self.ip_idx >= bc.ops.len() {
            return Step::Halted(if n > 0 { self.stack[n - 1] } else { Value::Nil });
        }
        let ip = self.ip_idx;
        let ghost s = self@;
        match bc.ops[ip] {
            ByteOp::Load(i) => {
                if (i as usize) < bc.constants.len() {
                    self.stack.push(bc.constants[i as usize]);
                    self.ip_idx = ip + 1;
                    Step::Running
                } else {
                    Step::Faulted("Constant index out of range".to_string())
                }
            },
            ByteOp::True => {
                self.stack.push(Value::Bool(true));
                self.ip_idx = ip + 1;
                Step::Running
            },
            ByteOp::False => {
                self.stack.push(Value::Bool(false));
                self.ip_idx = ip + 1;
                Step::Running
            },
            ByteOp::Nil => {
                self.stack.push(Value::Nil);
                self.ip_idx = ip + 1;
                Step::Running
            },
            ByteOp::Add => self.numeric(NumOp::Add),
            ByteOp::Sub => self.numeric(NumOp::Sub),
            ByteOp::Mul => self.numeric(NumOp::Mul),
            ByteOp::Div => self.numeric(NumOp::Div),
            ByteOp::Equal => self.numeric(NumOp::Equal),
            ByteOp::Greater => self.numeric(NumOp::Greater),
            ByteOp::Less => self.numeric(NumOp::Less),
            ByteOp::Not => {
                if n == 0 {
                    return Step::Faulted("Unary not needs an operand".to_string());
                }
                match self.stack[n - 1] {
                    Value::Bool(b) => {
                        self.stack.set(n - 1, Value::Bool(!b));
                        assert(self.stack@ =~= s.stack.drop_last().push(Value::Bool(!b)));
                        self.ip_idx = ip + 1;
                        Step::Running
                    },
                    Value::Nil => Step::Faulted("Unary not value cannot be nil".to_string()),
                    Value::Number(_) => Step::Faulted(
                        "Unary not value cannot be number".to_string(),
                    ),
                }
            },
            ByteOp::Negate => {
                if n == 0 {
                    return Step::Faulted("Unary negate needs an operand".to_string());
                }
                match self.stack[n - 1] {
                    Value::Number(x) => {
                        self.stack.pop();
                        self.pending = Some(NumOp::Negate);
                        Step::Compute(NumOp::Negate, x, 0)
                    },
                    Value::Nil => Step::Faulted("Unary negate value cannot be nil".to_string()),
                    Value::Bool(_) => Step::Faulted(
                        "Unary negate value cannot be bool".to_string(),
                    ),
                }
            },
            ByteOp::ScopeOpen => {
                self.scopes.push(HashMap::new());
                assert(scope_views(self.scopes@) =~= s.scopes.push(Map::empty()));
                self.ip_idx = ip + 1;
                Step::Running
            },
            ByteOp::ScopeClose => {
                if self.scopes.len() > 0 {
                    self.scopes.pop();
                    assert(scope_views(self.scopes@) =~= s.scopes.drop_last());
                }
                self.ip_idx = ip + 1;
                Step::Running
            },
            ByteOp::DefVar(id) => {
                match find_scope(&self.scopes, id) {
                    Some(_) => Step::Faulted("Variable already defined".to_string()),
                    None => {
                        if self.scopes.len() == 0 {
                            return Step::Faulted("No scope to define the variable in".to_string());
                        }
                        let v = if n > 0 { self.stack[n - 1] } else { Value::Nil };
                        let k = self.scopes.len() - 1;
                        self.scopes[k].insert(id, v);
                        assert(scope_views(self.scopes@) =~= s.scopes.update(
                            k as int,
                            s.scopes[k as int].insert(id, v),
                        ));
                        self.ip_idx = ip + 1;
                        Step::Running
                    },
                }
            },
            ByteOp::SetVar(id) => {
                match find_scope(&self.scopes, id) {
                    Some(k) => {
                        let v = if n > 0 { self.stack[n - 1] } else { Value::Nil };
                        self.scopes[k].insert(id, v);
                        assert(scope_views(self.scopes@) =~= s.scopes.update(
                            k as int,
                            s.scopes[k as int].insert(id, v),
                        ));
                        self.ip_idx = ip + 1;
                        Step::Running
                    },
                    None => Step::Faulted("Variable not defined".to_string()),
                }
            },
            ByteOp::GetVar(id) => {
                match var_in_scopes(&self.scopes, id) {
                    Some(v) => {
                        self.stack.push(v);
                        self.ip_idx = ip + 1;
                        Step::Running
                    },
                    None => Step::Faulted("Failed to find variable in scope".to_string()),
                }
            },
            ByteOp::Jump(d) => {
                match jump_target(ip, d, bc.ops.len()) {
                    Some(t) => {
                        self.ip_idx = t;
                        Step::Running
                    },
                    None => Step::Faulted("Jump out of range".to_string()),
                }
            },
            ByteOp::JumpFalse(d) => {
                if n == 0 {
                    return Step::Faulted("Jump on false needs an operand".to_string());
                }
                match self.stack[n - 1] {
                    Value::Bool(b) => {
                        if !b {
                            match jump_target(ip, d, bc.ops.len()) {
                                Some(t) => {
                                    self.stack.pop();
                                    self.ip_idx = t;
                                    Step::Running
                                },
                                None => Step::Faulted("Jump out of range".to_string()),
                            }
                        } else {
                            self.stack.pop();
                            self.ip_idx = ip + 1;
                            Step::Running
                        }
                    },
                    Value::Nil => Step::Faulted("Jump on false value cannot be nil".to_string()),
                    Value::Number(_) => Step::Faulted(
                        "Jump on false value cannot be number".to_string(),
                    ),
                }
            },
            ByteOp::JumpTrue(d) => {
                if n == 0 {
                    return Step::Faulted("Jump on true needs an operand".to_string());
                }
                match self.stack[n - 1] {
                    Value::Bool(b) => {
                        if b {
                            match jump_target(ip, d, bc.ops.len()) {
                                Some(t) => {
                                    self.stack.pop();
                                    self.ip_idx = t;
                                    Step::Running
                                },
                                None => Step::Faulted("Jump out of range".to_string()),
                            }
                        } else {
                            self.stack.pop();
                            self.ip_idx = ip + 1;
                            Step::Running
                        }
                    },
                    Value::Nil => Step::Faulted("Jump on true value cannot be nil".to_string()),
                    Value::Number(_) => Step::Faulted(
                        "Jump on true value cannot be number".to_string(),
                    ),
                }
            },
            ByteOp::Pop => {
                self.stack.pop();
                self.ip_idx = ip + 1;
                Step::Running
            },
            ByteOp::Return => {
                let v = match self.stack.pop() {
                    Some(v) => v,
                    None => Value::Nil,
                };
                if self.scopes.len() > 0 {
                    self.scopes.pop();
                    assert(scope_views(self.scopes@) =~= s.scopes.drop_last());
                }
                if self.scopes.len() > 0 {
                    self.stack.push(v);
                    self.ip_idx = ip + 1;
                    Step::Running
                } else {
                    Step::Halted(v)
                }
            },
        }
    }
}

} // verus!
