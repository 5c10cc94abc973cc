use codegen::code::{CodeError, Function};
use codegen::expr::{ExprDesc, Kind, Opr, Value};
use codegen::instr::{Instruction, OpCode};

fn with_two_locals() -> Function {
    let mut f = Function::new();
    f.enter_block(false, 0, 0, 0);
    f.declare_local("a".to_string(), 1).unwrap();
    f.declare_local("b".to_string(), 1).unwrap();
    f
}

#[test]
fn expr_desc_new_has_empty_chains() {
    let e = ExprDesc::new(Kind::Number(7));
    assert!(matches!(e.kind, Kind::Number(7)));
    assert_eq!(e.t, None);
    assert_eq!(e.f, None);
}

#[test]
fn is_numeral_only_for_pure_numbers() {
    assert!(ExprDesc::new(Kind::Number(1)).is_numeral());
    assert!(!ExprDesc::new(Kind::Nil).is_numeral());
    assert!(!ExprDesc::new(Kind::Constant(0)).is_numeral());
    let tainted = ExprDesc { kind: Kind::Number(1), t: Some(0), f: None };
    assert!(!tainted.is_numeral());
}

#[test]
fn value_equality_is_by_value() {
    assert!(Value::Nil.same(&Value::Nil));
    assert!(Value::Number(3).same(&Value::Number(3)));
    assert!(!Value::Number(3).same(&Value::Number(4)));
    assert!(Value::Str("k".to_string()).same(&Value::Str("k".to_string())));
    assert!(!Value::Str("k".to_string()).same(&Value::Nil));
    assert!(!Value::Bool(true).same(&Value::Bool(false)));
}

#[test]
fn new_function_is_empty() {
    let f = Function::new();
    assert_eq!(f.f.code.len(), 0);
    assert_eq!(f.f.constants.len(), 0);
    assert_eq!(f.free_register_count, 0);
    assert_eq!(f.active_var_count, 0);
    assert!(f.block.is_none());
    assert!(f.prev.is_none());
    assert!(f.jump_pc.is_none());
}

#[test]
fn enter_block_links_previous_scope() {
    let mut f = Function::new();
    f.enter_block(true, 3, 4, 0);
    let b = f.block.as_ref().unwrap();
    assert!(b.is_loop);
    assert_eq!(b.first_label, 3);
    assert_eq!(b.first_goto, 4);
    assert_eq!(b.active_var_count, 0);
    assert!(!b.has_upval);
    assert!(b.prev.is_none());
    f.enter_block(false, 0, 0, 0);
    assert!(f.block.as_ref().unwrap().prev.is_some());
}

#[test]
fn constant_dedup_two_identical_literals() {
    let mut f = Function::new();
    let i1 = f.add_constant(Value::Number(42), 1).unwrap();
    let i2 = f.add_constant(Value::Number(42), 1).unwrap();
    assert_eq!(i1, 0);
    assert_eq!(i2, 0);
    assert_eq!(f.f.constants.len(), 1);
    let s1 = f.add_constant(Value::Str("hi".to_string()), 1).unwrap();
    let s2 = f.add_constant(Value::Str("hi".to_string()), 1).unwrap();
    assert_eq!(s1, 1);
    assert_eq!(s2, 1);
    assert_eq!(f.f.constants.len(), 2);
    let d = f.add_constant(Value::Number(7), 1).unwrap();
    assert_eq!(d, 2);
    assert_eq!(f.f.constants.len(), 3);
}

#[test]
fn register_discipline_across_a_statement() {
    let mut f = Function::new();
    f.enter_block(false, 0, 0, 0);
    f.declare_local("x".to_string(), 1).unwrap();
    assert_eq!(f.free_register_count, f.active_var_count);
    let x = ExprDesc::new(Kind::Local(0));
    let e = f.prefix(Opr::Minus, &x, 1);
    let _m = f.expression2next_reg(&e, 1);
    let close_pc = f.f.code.len();
    f.leave_block(1);
    assert_eq!(f.free_register_count, f.active_var_count);
    assert_eq!(f.active_var_count, 0);
    assert_eq!(f.f.local_variables[0].end_pc, close_pc);
}

#[test]
fn fold_minus_literal_emits_nothing() {
    let mut f = Function::new();
    let five = ExprDesc::new(Kind::Number(5));
    let r = f.prefix(Opr::Minus, &five, 1);
    assert!(matches!(r.kind, Kind::Number(-5)));
    assert_eq!(r.t, None);
    assert_eq!(r.f, None);
    assert_eq!(f.f.code.len(), 0);
    assert_eq!(f.f.constants.len(), 0);
}

#[test]
fn minus_nonliteral_emits_materialize_and_minus() {
    let mut f = Function::new();
    let idx = f.add_constant(Value::Number(7), 1).unwrap();
    let c = ExprDesc::new(Kind::Constant(idx));
    let r = f.prefix(Opr::Minus, &c, 1);
    assert_eq!(f.f.code.len(), 2);
    assert_eq!(f.f.code[0].op, OpCode::LoadConstant);
    assert_eq!(f.f.code[0].b, idx);
    assert_eq!(f.f.code[1].op, OpCode::UnaryMinus);
    assert!(matches!(r.kind, Kind::Relocatable(1)));
}

#[test]
fn standalone_minus_three_is_pure() {
    let mut f = Function::new();
    let three = ExprDesc::new(Kind::Number(3));
    let r = f.prefix(Opr::Minus, &three, 1);
    assert!(matches!(r.kind, Kind::Number(-3)));
    assert_eq!(r.t, None);
    assert_eq!(r.f, None);
    assert_eq!(f.f.code.len(), 0);
}

#[test]
fn double_negation_restores_chains() {
    let mut f = Function::new();
    f.f.code.push(Instruction::new(OpCode::TestJump, 0, 0, 0));
    f.f.line_info.push(1);
    f.f.code.push(Instruction::new(OpCode::Jump, 0, 0, 0));
    f.f.line_info.push(1);
    let e = ExprDesc { kind: Kind::Jump(1), t: Some(0), f: None };
    let n1 = f.encode_not(&e, 1);
    assert!(matches!(n1.kind, Kind::Jump(1)));
    assert_eq!(n1.t, None);
    assert_eq!(n1.f, Some(0));
    let n2 = f.encode_not(&n1, 1);
    assert!(matches!(n2.kind, Kind::Jump(1)));
    assert_eq!(n2.t, e.t);
    assert_eq!(n2.f, e.f);
    assert_eq!(f.f.code.len(), 2);
}

#[test]
fn not_folds_constants() {
    let mut f = Function::new();
    let r1 = f.encode_not(&ExprDesc::new(Kind::Nil), 1);
    assert!(matches!(r1.kind, Kind::True));
    let r2 = f.encode_not(&ExprDesc::new(Kind::False), 1);
    assert!(matches!(r2.kind, Kind::True));
    let r3 = f.encode_not(&ExprDesc::new(Kind::True), 1);
    assert!(matches!(r3.kind, Kind::False));
    assert_eq!(f.f.code.len(), 0);
}

#[test]
fn upval_dedup_same_name_same_index() {
    let mut outer = Function::new();
    outer.enter_block(false, 0, 0, 0);
    outer.declare_local("x".to_string(), 1).unwrap();
    let mut inner = Function::new();
    inner.prev = Some(Box::new(outer));
    let name = "x".to_string();
    let i1 = inner.make_upval(&name, 1).unwrap();
    let i2 = inner.make_upval(&name, 1).unwrap();
    assert_eq!(i1, Some(0));
    assert_eq!(i2, Some(0));
    assert_eq!(inner.f.up_values.len(), 1);
    assert!(inner.f.up_values[0].is_local);
    assert_eq!(inner.f.up_values[0].index, 0);
    assert!(inner.prev.as_ref().unwrap().block.as_ref().unwrap().has_upval);
}

#[test]
fn upval_forwards_through_enclosing_chain() {
    let mut grand = Function::new();
    grand.enter_block(false, 0, 0, 0);
    grand.declare_local("y".to_string(), 1).unwrap();
    let mut middle = Function::new();
    middle.prev = Some(Box::new(grand));
    let mut inner = Function::new();
    inner.prev = Some(Box::new(middle));
    let name = "y".to_string();
    let idx = inner.make_upval(&name, 1).unwrap();
    assert_eq!(idx, Some(0));
    assert_eq!(inner.f.up_values.len(), 1);
    assert!(!inner.f.up_values[0].is_local);
    assert_eq!(inner.f.up_values[0].index, 0);
    let middle_ref = inner.prev.as_ref().unwrap();
    assert_eq!(middle_ref.f.up_values.len(), 1);
    assert!(middle_ref.f.up_values[0].is_local);
}

#[test]
fn unresolved_name_classifies_as_global() {
    let mut f = Function::new();
    let name = "nowhere".to_string();
    assert_eq!(f.make_upval(&name, 1).unwrap(), None);
    assert_eq!(f.f.up_values.len(), 0);
}

#[test]
fn patchtohere_patches_all_pending_jumps() {
    let mut f = Function::new();
    let j1 = f.jump(1);
    let j2 = f.jump(1);
    assert_eq!(j1, 0);
    assert_eq!(j2, 1);
    assert_eq!(f.jump_pc, Some(1));
    f.patchtohere();
    assert_eq!(f.jump_pc, None);
    assert_eq!(f.f.code[0].jump, Some(2));
    assert_eq!(f.f.code[1].jump, Some(2));
    assert_eq!(f.last_target, 2);
}

#[test]
fn patchtohere_with_no_pending_is_noop() {
    let mut f = Function::new();
    f.patchtohere();
    assert_eq!(f.f.code.len(), 0);
    assert_eq!(f.jump_pc, None);
    assert_eq!(f.last_target, 0);
}

#[test]
fn not_of_comparison_swaps_chains_only() {
    let mut f = with_two_locals();
    let a = ExprDesc::new(Kind::Local(0));
    let b = ExprDesc::new(Kind::Local(1));
    let c = f.postfix(Opr::Equal, &a, &b, 1);
    assert_eq!(f.f.code.len(), 2);
    assert_eq!(f.f.code[0].op, OpCode::Equal);
    assert_eq!(f.f.code[0].a, 1);
    assert_eq!(f.f.code[0].b, 0);
    assert_eq!(f.f.code[0].c, 1);
    assert_eq!(f.f.code[1].op, OpCode::Jump);
    assert!(matches!(c.kind, Kind::Jump(1)));
    let n = f.encode_not(&c, 1);
    assert_eq!(f.f.code.len(), 2);
    assert!(matches!(n.kind, Kind::Jump(1)));
    assert_eq!(n.t, c.f);
    assert_eq!(n.f, c.t);
}

#[test]
fn comparison_operand_order_and_flags() {
    let mut f = with_two_locals();
    let a = ExprDesc::new(Kind::Local(0));
    let b = ExprDesc::new(Kind::Local(1));
    let _ = f.postfix(Opr::NotEqual, &a, &b, 1);
    assert_eq!(f.f.code[0].op, OpCode::Equal);
    assert_eq!(f.f.code[0].a, 0);
    let _ = f.postfix(Opr::Greater, &a, &b, 1);
    assert_eq!(f.f.code[2].op, OpCode::LessThan);
    assert_eq!(f.f.code[2].b, 1);
    assert_eq!(f.f.code[2].c, 0);
}

#[test]
fn materializing_pending_jump_emits_two_bool_loads() {
    let mut f = with_two_locals();
    let a = ExprDesc::new(Kind::Local(0));
    let b = ExprDesc::new(Kind::Local(1));
    let c = f.postfix(Opr::Equal, &a, &b, 1);
    let m = f.expression2any_reg(&c, 1);
    assert!(matches!(m.kind, Kind::NonRelocatable(2)));
    assert_eq!(f.f.code.len(), 4);
    assert_eq!(f.f.code[2].op, OpCode::LoadBool);
    assert_eq!(f.f.code[2].b, 0);
    assert_eq!(f.f.code[2].c, 1);
    assert_eq!(f.f.code[3].op, OpCode::LoadBool);
    assert_eq!(f.f.code[3].b, 1);
    assert_eq!(f.f.code[1].jump, Some(3));
}

#[test]
fn and_emits_one_test_jump_and_merges() {
    let mut f = with_two_locals();
    let a = ExprDesc::new(Kind::Local(0));
    let l = f.infix(Opr::And, &a, 1);
    assert_eq!(f.f.code.len(), 1);
    assert_eq!(f.f.code[0].op, OpCode::TestJump);
    assert_eq!(f.f.code[0].a, 0);
    assert_eq!(f.f.code[0].b, 0);
    assert_eq!(l.t, None);
    assert_eq!(l.f, Some(0));
    let b = ExprDesc::new(Kind::Local(1));
    let r = f.postfix(Opr::And, &l, &b, 1);
    assert_eq!(f.f.code.len(), 1);
    assert!(matches!(r.kind, Kind::NonRelocatable(1)));
    assert_eq!(r.t, None);
    assert_eq!(r.f, Some(0));
}

#[test]
fn or_emits_inverted_test_jump() {
    let mut f = with_two_locals();
    let a = ExprDesc::new(Kind::Local(0));
    let l = f.infix(Opr::Or, &a, 1);
    assert_eq!(f.f.code.len(), 1);
    assert_eq!(f.f.code[0].op, OpCode::TestJump);
    assert_eq!(f.f.code[0].a, 1);
    assert_eq!(l.f, None);
    assert_eq!(l.t, Some(0));
    let b = ExprDesc::new(Kind::Local(1));
    let r = f.postfix(Opr::Or, &l, &b, 1);
    assert!(matches!(r.kind, Kind::NonRelocatable(1)));
    assert_eq!(r.t, Some(0));
    assert_eq!(r.f, None);
}

#[test]
fn fold_binary_arithmetic() {
    let mut f = Function::new();
    let two = ExprDesc::new(Kind::Number(2));
    let three = ExprDesc::new(Kind::Number(3));
    let sum = f.postfix(Opr::Add, &two, &three, 1);
    assert!(matches!(sum.kind, Kind::Number(5)));
    let diff = f.postfix(Opr::Sub, &two, &three, 1);
    assert!(matches!(diff.kind, Kind::Number(-1)));
    let prod = f.postfix(Opr::Mul, &two, &three, 1);
    assert!(matches!(prod.kind, Kind::Number(6)));
    assert_eq!(f.f.code.len(), 0);
    assert_eq!(f.f.constants.len(), 0);
}

#[test]
fn overflowing_fold_falls_back_to_instructions() {
    let mut f = Function::new();
    let big = ExprDesc::new(Kind::Number(i64::MAX));
    let one = ExprDesc::new(Kind::Number(1));
    let r = f.postfix(Opr::Add, &big, &one, 1);
    assert!(matches!(r.kind, Kind::Relocatable(_)));
    assert!(f.f.code.len() > 0);
    assert_eq!(f.f.code.last().unwrap().op, OpCode::Add);
}

#[test]
fn binary_add_on_locals_emits_one_instruction() {
    let mut f = with_two_locals();
    let a = ExprDesc::new(Kind::Local(0));
    let b = ExprDesc::new(Kind::Local(1));
    let r = f.postfix(Opr::Add, &a, &b, 1);
    assert_eq!(f.f.code.len(), 1);
    assert_eq!(f.f.code[0].op, OpCode::Add);
    assert_eq!(f.f.code[0].b, 0);
    assert_eq!(f.f.code[0].c, 1);
    assert!(matches!(r.kind, Kind::Relocatable(0)));
    assert_eq!(f.free_register_count, f.active_var_count);
}

#[test]
fn concat_encodes_instruction() {
    let mut f = with_two_locals();
    let a = ExprDesc::new(Kind::Local(0));
    let b = ExprDesc::new(Kind::Local(1));
    let r = f.postfix(Opr::Concat, &a, &b, 1);
    assert_eq!(f.f.code.len(), 1);
    assert_eq!(f.f.code[0].op, OpCode::Concat);
    assert!(matches!(r.kind, Kind::Relocatable(0)));
}

#[test]
fn leave_block_emits_close_upvalues_for_captured_scope() {
    let mut outer = Function::new();
    outer.enter_block(false, 0, 0, 0);
    outer.declare_local("x".to_string(), 1).unwrap();
    let mut inner = Function::new();
    inner.prev = Some(Box::new(outer));
    let name = "x".to_string();
    inner.make_upval(&name, 1).unwrap();
    let mut outer = *inner.prev.take().unwrap();
    outer.leave_block(2);
    assert_eq!(outer.f.code.len(), 1);
    assert_eq!(outer.f.code[0].op, OpCode::CloseUpValues);
    assert_eq!(outer.f.code[0].a, 0);
    assert_eq!(outer.free_register_count, 0);
    assert_eq!(outer.active_var_count, 0);
    assert!(outer.block.is_none());
}

#[test]
fn leave_block_without_captures_emits_nothing() {
    let mut f = Function::new();
    f.enter_block(false, 0, 0, 0);
    f.declare_local("x".to_string(), 1).unwrap();
    f.leave_block(1);
    assert_eq!(f.f.code.len(), 0);
    assert_eq!(f.active_var_count, 0);
    assert_eq!(f.free_register_count, 0);
    assert_eq!(f.f.local_variables.len(), 1);
    assert_eq!(f.f.local_variables[0].end_pc, 0);
}

#[test]
fn and_of_comparison_threads_the_pending_jump() {
    let mut f = with_two_locals();
    let a = ExprDesc::new(Kind::Local(0));
    let b = ExprDesc::new(Kind::Local(1));
    let c = f.postfix(Opr::Equal, &a, &b, 1);
    let l = f.infix(Opr::And, &c, 1);
    assert_eq!(f.f.code.len(), 2);
    assert_eq!(l.t, None);
    assert_eq!(l.f, Some(1));
    let r = f.postfix(Opr::And, &l, &ExprDesc::new(Kind::Local(0)), 1);
    assert!(matches!(r.kind, Kind::NonRelocatable(0)));
    assert_eq!(r.f, Some(1));
    let m = f.expression2next_reg(&r, 1);
    assert!(matches!(m.kind, Kind::NonRelocatable(2)));
    assert_eq!(f.f.code.len(), 6);
    assert_eq!(f.f.code[2].op, OpCode::Move);
    assert_eq!(f.f.code[3].op, OpCode::Jump);
    assert_eq!(f.f.code[3].jump, Some(6));
    assert_eq!(f.f.code[4].op, OpCode::LoadBool);
    assert_eq!(f.f.code[4].b, 0);
    assert_eq!(f.f.code[5].op, OpCode::LoadBool);
    assert_eq!(f.f.code[5].b, 1);
    assert_eq!(f.f.code[1].jump, Some(4));
}

#[test]
fn too_many_locals_error() {
    let mut f = Function::new();
    f.enter_block(false, 0, 0, 0);
    for i in 0..255 {
        f.declare_local(format!("v{}", i), 1).unwrap();
    }
    assert_eq!(f.declare_local("overflow".to_string(), 7), Err(CodeError::TooManyLocals { line: 7 }));
}

#[test]
fn too_many_upvalues_error() {
    let mut outer = Function::new();
    outer.enter_block(false, 0, 0, 0);
    outer.declare_local("z".to_string(), 1).unwrap();
    let mut inner = Function::new();
    inner.prev = Some(Box::new(outer));
    for i in 0..255 {
        inner.f.up_values.push(codegen::code::UpValueDesc {
            name: format!("u{}", i),
            is_local: false,
            index: i,
        });
    }
    let name = "z".to_string();
    assert_eq!(inner.make_upval(&name, 3), Err(CodeError::TooManyUpValues { line: 3 }));
}

#[test]
fn too_many_constants_error() {
    let mut f = Function::new();
    for i in 0..262144 {
        f.f.constants.push(Value::Number(i as i64));
    }
    assert_eq!(f.add_constant(Value::Number(-1), 9), Err(CodeError::TooManyConstants { line: 9 }));
    assert_eq!(f.f.constants.len(), 262144);
}

#[test]
fn locals_pass_through_materialization() {
    let mut f = with_two_locals();
    let a = ExprDesc::new(Kind::Local(0));
    let r = f.expression2any_reg(&a, 1);
    assert!(matches!(r.kind, Kind::Local(0)));
    assert_eq!(f.f.code.len(), 0);
    let r2 = f.expression2next_reg(&a, 1);
    assert!(matches!(r2.kind, Kind::NonRelocatable(2)));
    assert_eq!(f.f.code.len(), 1);
    assert_eq!(f.f.code[0].op, OpCode::Move);
    assert_eq!(f.f.code[0].a, 2);
    assert_eq!(f.f.code[0].b, 0);
}

#[test]
fn upvalue_read_discharges_to_instruction() {
    let mut f = Function::new();
    f.f.up_values.push(codegen::code::UpValueDesc {
        name: "u".to_string(),
        is_local: true,
        index: 0,
    });
    let u = ExprDesc::new(Kind::UpValue(0));
    let r = f.expression2next_reg(&u, 1);
    assert_eq!(f.f.code.len(), 1);
    assert_eq!(f.f.code[0].op, OpCode::GetUpValue);
    assert_eq!(f.f.code[0].b, 0);
    assert_eq!(f.f.code[0].a, 0);
    assert!(matches!(r.kind, Kind::NonRelocatable(0)));
}

#[test]
fn indexed_read_discharges_to_instruction() {
    let mut f = with_two_locals();
    let e = ExprDesc::new(Kind::Indexed(codegen::expr::TableType::Local, 0, 1));
    let r = f.expression2next_reg(&e, 1);
    assert_eq!(f.f.code.len(), 1);
    assert_eq!(f.f.code[0].op, OpCode::GetIndexed);
    assert_eq!(f.f.code[0].b, 0);
    assert_eq!(f.f.code[0].c, 1);
    assert_eq!(f.f.code[0].a, 2);
    assert!(matches!(r.kind, Kind::NonRelocatable(2)));
}

#[test]
fn pending_jumps_thread_through_the_stream() {
    let mut f = Function::new();
    let j1 = f.jump(1);
    let j2 = f.jump(1);
    assert_eq!(f.f.code[j2].jump, Some(j1));
    assert_eq!(f.f.code[j1].jump, None);
    assert_eq!(f.jump_pc, Some(j2));
}

#[test]
fn max_stack_size_tracks_high_water() {
    let mut f = Function::new();
    let one = ExprDesc::new(Kind::Number(1));
    let m = f.expression2next_reg(&one, 1);
    assert!(matches!(m.kind, Kind::NonRelocatable(0)));
    assert_eq!(f.f.max_stack_size, 1);
    let two = ExprDesc::new(Kind::Number(2));
    let _ = f.expression2next_reg(&two, 1);
    assert_eq!(f.f.max_stack_size, 2);
}
