use tachyon::ast::{FunctionSignature, PrimitiveType, TypeSignature};
use tachyon::bytecode::{ByteOp, Bytecode, Value};
use tachyon::vm::{NumOp, StackVm, Step};

#[test]
fn type_names_map_to_primitives() {
    assert_eq!(TypeSignature::new("Nil"), TypeSignature::Primitive(PrimitiveType::Nil));
    assert_eq!(TypeSignature::new("Bool"), TypeSignature::Primitive(PrimitiveType::Bool));
    assert_eq!(TypeSignature::new("I32"), TypeSignature::Primitive(PrimitiveType::I32));
    assert_eq!(TypeSignature::new("U64"), TypeSignature::Primitive(PrimitiveType::U64));
    assert_eq!(TypeSignature::new("Point"), TypeSignature::Custom("Point".to_string()));
    assert_eq!(TypeSignature::new("i32"), TypeSignature::Custom("i32".to_string()));
}

#[test]
fn type_predicates() {
    let i8t = TypeSignature::new("I8");
    let u16t = TypeSignature::new("U16");
    let b = TypeSignature::new("Bool");
    let nil = TypeSignature::new("Nil");
    let custom = TypeSignature::new("Thing");
    let f = TypeSignature::Function(FunctionSignature { params: vec![], return_type: None });
    assert!(i8t.is_number() && i8t.is_signed() && !i8t.is_unsigned());
    assert!(u16t.is_number() && u16t.is_unsigned() && !u16t.is_signed());
    assert!(b.is_bool() && !b.is_number() && !b.is_nil());
    assert!(nil.is_nil() && !nil.is_number() && !nil.is_bool());
    assert!(custom.is_custom() && !custom.is_function() && !custom.is_number());
    assert!(f.is_function() && !f.is_custom() && !f.is_signed());
}

fn bc(constants: Vec<Value>, ops: Vec<ByteOp>) -> Bytecode {
    Bytecode { constants, ops }
}

#[test]
fn numeric_ops_are_handed_to_the_driver() {
    let one = 1.0f64.to_bits();
    let two = 2.0f64.to_bits();
    let code = bc(
        vec![Value::Number(one), Value::Number(two)],
        vec![ByteOp::Load(0), ByteOp::Load(1), ByteOp::Sub],
    );
    let mut vm = StackVm::new();
    assert!(matches!(vm.step(&code), Step::Running));
    assert!(matches!(vm.step(&code), Step::Running));
    match vm.step(&code) {
        Step::Compute(NumOp::Sub, a, b) => {
            assert_eq!(a, one);
            assert_eq!(b, two);
        }
        _ => panic!("expected a numeric request"),
    }
    assert!(matches!(vm.step(&code), Step::Faulted(_)));
    assert!(vm.supply(Value::Number((-1.0f64).to_bits())));
    match vm.step(&code) {
        Step::Halted(v) => assert_eq!(v, Value::Number((-1.0f64).to_bits())),
        _ => panic!("expected the end"),
    }
}

#[test]
fn jump_outside_the_code_faults() {
    let code = bc(vec![], vec![ByteOp::Jump(5)]);
    let mut vm = StackVm::new();
    assert!(matches!(vm.step(&code), Step::Faulted(_)));
    let back = bc(vec![], vec![ByteOp::Nil, ByteOp::Jump(-2)]);
    let mut vm = StackVm::new();
    assert!(matches!(vm.step(&back), Step::Running));
    assert!(matches!(vm.step(&back), Step::Faulted(_)));
}

#[test]
fn load_past_the_pool_faults() {
    let code = bc(vec![], vec![ByteOp::Load(0)]);
    let mut vm = StackVm::new();
    assert!(matches!(vm.step(&code), Step::Faulted(_)));
}

#[test]
fn not_of_a_number_faults() {
    let code = bc(vec![Value::Number(0)], vec![ByteOp::Load(0), ByteOp::Not]);
    let mut vm = StackVm::new();
    vm.step(&code);
    assert!(matches!(vm.step(&code), Step::Faulted(_)));
}

#[test]
fn define_without_scope_faults() {
    let code = bc(vec![], vec![ByteOp::True, ByteOp::DefVar(9)]);
    let mut vm = StackVm::new();
    vm.step(&code);
    assert!(matches!(vm.step(&code), Step::Faulted(_)));
}

#[test]
fn inner_definition_of_an_outer_name_faults() {
    let code = bc(
        vec![],
        vec![
            ByteOp::ScopeOpen,
            ByteOp::True,
            ByteOp::DefVar(7),
            ByteOp::ScopeOpen,
            ByteOp::False,
            ByteOp::DefVar(7),
        ],
    );
    let mut vm = StackVm::new();
    for _ in 0..5 {
        assert!(matches!(vm.step(&code), Step::Running));
    }
    assert_eq!(
        match vm.step(&code) {
            Step::Faulted(m) => m,
            _ => String::new(),
        },
        "Variable already defined"
    );
}

#[test]
fn read_finds_the_enclosing_definition() {
    let code = bc(
        vec![],
        vec![
            ByteOp::ScopeOpen,
            ByteOp::True,
            ByteOp::DefVar(7),
            ByteOp::Pop,
            ByteOp::ScopeOpen,
            ByteOp::GetVar(7),
            ByteOp::Return,
            ByteOp::Return,
        ],
    );
    let mut vm = StackVm::new();
    let mut end = None;
    for _ in 0..20 {
        match vm.step(&code) {
            Step::Running => {}
            Step::Halted(v) => {
                end = Some(v);
                break;
            }
            _ => break,
        }
    }
    assert_eq!(end, Some(Value::Bool(true)));
}

#[test]
fn assignment_keeps_its_value_on_the_stack() {
    let code = bc(
        vec![],
        vec![
            ByteOp::ScopeOpen,
            ByteOp::False,
            ByteOp::DefVar(3),
            ByteOp::True,
            ByteOp::SetVar(3),
        ],
    );
    let mut vm = StackVm::new();
    let mut last = None;
    for _ in 0..10 {
        match vm.step(&code) {
            Step::Running => {}
            Step::Halted(v) => {
                last = Some(v);
                break;
            }
            _ => break,
        }
    }
    assert_eq!(last, Some(Value::Bool(true)));
}

#[test]
fn supply_without_request_changes_nothing() {
    let code = bc(vec![], vec![]);
    let mut vm = StackVm::new();
    assert!(!vm.supply(Value::Bool(true)));
    match vm.step(&code) {
        Step::Halted(v) => assert_eq!(v, Value::Nil),
        _ => panic!("expected the end"),
    }
}

#[test]
fn supply_of_the_wrong_kind_is_refused() {
    let one = 1.0f64.to_bits();
    let code = bc(vec![Value::Number(one)], vec![ByteOp::Load(0), ByteOp::Load(0), ByteOp::Less]);
    let mut vm = StackVm::new();
    assert!(matches!(vm.step(&code), Step::Running));
    assert!(matches!(vm.step(&code), Step::Running));
    assert!(matches!(vm.step(&code), Step::Compute(NumOp::Less, _, _)));
    assert!(!vm.supply(Value::Number(one)));
    match vm.step(&code) {
        Step::Faulted(m) => assert_eq!(m, "A numeric result is awaited"),
        _ => panic!("expected a fault"),
    }
    assert!(vm.supply(Value::Bool(false)));
    match vm.step(&code) {
        Step::Halted(v) => assert_eq!(v, Value::Bool(false)),
        _ => panic!("expected the end"),
    }
}

#[test]
fn stack_peek_counts_from_the_top() {
    let code = bc(vec![], vec![ByteOp::True, ByteOp::Nil]);
    let mut vm = StackVm::new();
    assert!(matches!(vm.step(&code), Step::Running));
    assert!(matches!(vm.step(&code), Step::Running));
    assert_eq!(vm.stack_peek(0), Value::Nil);
    assert_eq!(vm.stack_peek(1), Value::Bool(true));
}
