use jvmclass::class::{ConstantInfo, ConstantPool};
use jvmclass::code::{lift_code, Code};
use jvmclass::decomp::{compute, Args, ExList, ExStack, Expression, ExpressionType};
use jvmclass::error::ParseError;

fn lifted(bytes: &[u8]) -> Code {
    let (code, code_chunks) = lift_code(bytes).unwrap();
    Code { max_stack: 4, max_locals: 4, code, code_chunks, exception_table: Vec::new(), attribute_info: Vec::new() }
}

fn leaf(op: u8, ex: ExpressionType) -> Box<Expression> {
    Box::new(Expression { op, ex })
}

fn empty_pool() -> ConstantPool {
    ConstantPool(Vec::new())
}

#[test]
fn lift_one_plus_two() {
    let code = lifted(&[0x04, 0x05, 0x60, 0xAC]);
    let lists = compute(&code, &empty_pool()).unwrap();
    assert_eq!(lists.len(), 1);
    let expected = Expression {
        op: 0xAC,
        ex: ExpressionType::ReturnValueEx {
            value: Box::new(Expression {
                op: 0x60,
                ex: ExpressionType::OperatorEx {
                    left: leaf(0x04, ExpressionType::ConstantEx),
                    right: leaf(0x05, ExpressionType::ConstantEx),
                },
            }),
        },
    };
    assert_eq!(lists[0].list, vec![expected]);
}

#[test]
fn store_and_increment_statements() {
    // bipush 7; istore_1; iinc 1 2; return
    let code = lifted(&[0x10, 0x07, 0x3C, 0x84, 0x01, 0x02, 0xB1]);
    let lists = compute(&code, &empty_pool()).unwrap();
    assert_eq!(lists[0].list.len(), 3);
    assert_eq!(
        lists[0].list[0].ex,
        ExpressionType::StoreVarEx { var: 1, value: leaf(0x10, ExpressionType::NumberConstant { number: 7 }) }
    );
    assert_eq!(lists[0].list[1].ex, ExpressionType::IncrementEx { var: 1, amount: 2 });
    assert_eq!(lists[0].list[2].ex, ExpressionType::ReturnEx);
}

#[test]
fn branches_name_blocks() {
    // iload_0; ifeq +7; iconst_0; goto +3; iconst_1; ireturn
    let code = lifted(&[0x1A, 0x99, 0x00, 0x07, 0x03, 0xA7, 0x00, 0x03, 0x04, 0xAC]);
    let lists = compute(&code, &empty_pool()).unwrap();
    assert_eq!(lists.len(), 3);
    assert_eq!(
        lists[0].list[0].ex,
        ExpressionType::If0Ex { value: leaf(0x15, ExpressionType::LoadVarEx { var: 0 }), true_block: 2, false_block: 1 }
    );
    assert_eq!(lists[1].list[0].ex, ExpressionType::GotoEx { target_block: 2 });
    assert_eq!(lists[2].list.len(), 1);
}

#[test]
fn stack_operations() {
    // iconst_1; iconst_2; swap; pop; dup; iadd; ireturn
    let code = lifted(&[0x04, 0x05, 0x5F, 0x57, 0x59, 0x60, 0xAC]);
    let lists = compute(&code, &empty_pool()).unwrap();
    let two = leaf(0x05, ExpressionType::ConstantEx);
    assert_eq!(
        lists[0].list[0].ex,
        ExpressionType::ReturnValueEx {
            value: leaf(0x60, ExpressionType::OperatorEx { left: two.clone_tree(), right: two }),
        }
    );
}

trait CloneTree {
    fn clone_tree(&self) -> Self;
}

impl CloneTree for Box<Expression> {
    fn clone_tree(&self) -> Self {
        Box::new(self.duplicate())
    }
}

#[test]
fn stack_underflow() {
    let code = lifted(&[0x60, 0xAC]);
    assert!(matches!(compute(&code, &empty_pool()), Err(ParseError::StackUnderflow)));
    let code = lifted(&[0x57, 0xB1]);
    assert!(matches!(compute(&code, &empty_pool()), Err(ParseError::StackUnderflow)));
}

#[test]
fn unsupported_stack_form() {
    // dup2_x2 is not modelled
    let code = lifted(&[0x04, 0x04, 0x04, 0x04, 0x5E, 0xB1]);
    assert!(matches!(compute(&code, &empty_pool()), Err(ParseError::UnsupportedOpcode)));
}

fn call_pool(descriptor: &str) -> ConstantPool {
    ConstantPool(vec![
        ConstantInfo::Method { class_index: 2, name_and_type_index: 3 },
        ConstantInfo::Class { name_index: 4 },
        ConstantInfo::NameAndType { name_index: 4, descriptor_index: 5 },
        ConstantInfo::UTF8 { text: "f".to_string() },
        ConstantInfo::UTF8 { text: descriptor.to_string() },
    ])
}

#[test]
fn virtual_call_with_result() {
    // aload_0; iload_1; iload_2; invokevirtual #1; ireturn
    let code = lifted(&[0x2A, 0x1B, 0x1C, 0xB6, 0x00, 0x01, 0xAC]);
    let lists = compute(&code, &call_pool("(II)I")).unwrap();
    let call = Expression {
        op: 0xB6,
        ex: ExpressionType::InvokeEx {
            pool_pos: 1,
            receiver: Some(leaf(0x19, ExpressionType::LoadVarEx { var: 0 })),
            args: Box::new(Args::Cons {
                head: leaf(0x15, ExpressionType::LoadVarEx { var: 1 }),
                tail: Box::new(Args::Cons { head: leaf(0x15, ExpressionType::LoadVarEx { var: 2 }), tail: Box::new(Args::Nil) }),
            }),
        },
    };
    assert_eq!(lists[0].list, vec![Expression { op: 0xAC, ex: ExpressionType::ReturnValueEx { value: Box::new(call) } }]);
}

#[test]
fn static_void_call_is_a_statement() {
    // iconst_3; invokestatic #1; return
    let code = lifted(&[0x06, 0xB8, 0x00, 0x01, 0xB1]);
    let lists = compute(&code, &call_pool("(I)V")).unwrap();
    assert_eq!(lists[0].list.len(), 2);
    assert_eq!(
        lists[0].list[0].ex,
        ExpressionType::InvokeEx {
            pool_pos: 1,
            receiver: None,
            args: Box::new(Args::Cons { head: leaf(0x06, ExpressionType::ConstantEx), tail: Box::new(Args::Nil) }),
        }
    );
}

#[test]
fn call_errors() {
    let code = lifted(&[0xB8, 0x00, 0x01, 0xB1]);
    assert!(matches!(compute(&code, &call_pool("(I)V")), Err(ParseError::StackUnderflow)));
    assert!(matches!(compute(&code, &call_pool("(Q)V")), Err(ParseError::InvalidDescriptor)));
    assert!(matches!(compute(&code, &empty_pool()), Err(ParseError::InvalidPoolIndex)));
}

#[test]
fn create_and_stack_primitives() {
    let code = lifted(&[0x12, 0x09]);
    let mut stack = ExStack { stack: Vec::new() };
    let mut list = ExList { list: Vec::new() };
    Expression::create(&code.code[0], &mut stack, &mut list, &empty_pool(), 0, 0).unwrap();
    assert!(list.list.is_empty());
    let top = stack.pull().unwrap();
    assert_eq!(top.ex, ExpressionType::PoolConstantEx { pool_pos: 9 });
    assert!(stack.pull().is_none());
    stack.push(&code.code[0], ExpressionType::NewEx { pool_pos: 3 });
    assert_eq!(stack.stack.len(), 1);
    list.add(&code.code[0], ExpressionType::ReturnEx);
    assert_eq!(list.list.len(), 1);
}

#[test]
fn value_left_at_return() {
    let code = lifted(&[0x04, 0xB1]);
    assert!(matches!(compute(&code, &empty_pool()), Err(ParseError::StackNotEmpty)));
}

#[test]
fn failed_step_keeps_state() {
    let code = lifted(&[0x60]);
    let mut stack = ExStack { stack: Vec::new() };
    let mut list = ExList { list: Vec::new() };
    stack.push(&code.code[0], ExpressionType::ConstantEx);
    let r = Expression::create(&code.code[0], &mut stack, &mut list, &empty_pool(), 0, 0);
    assert!(matches!(r, Err(ParseError::StackUnderflow)));
    assert_eq!(stack.stack.len(), 1);
    assert!(list.list.is_empty());
}
