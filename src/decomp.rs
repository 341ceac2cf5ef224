//! Symbolic evaluation of the operand stack: turns the instructions of a
//! basic block into expression trees and statements.
use vstd::prelude::*;

use crate::class::{method_descriptor_index, utf8_entry, ConstantPool, EntryView};
use crate::code::{lemma_chunks_sorted, Code, CodeChunkTarget, Instruction, Op, INVOKEDYNAMIC, INVOKESTATIC, RETURN};
use crate::error::ParseError;
use crate::types::{lemma_void_letter, method_shape, Type};

verus! {

/// A node of an expression tree, with the opcode that produced it.
#[derive(Debug, PartialEq, Eq)]
pub struct Expression {
    pub op: u8,
    pub ex: ExpressionType,
}

/// The arguments of a call, first argument first.
#[derive(Debug, PartialEq, Eq)]
pub enum Args {
    Nil,
    Cons { head: Box<Expression>, tail: Box<Args> },
}

/// The shape of an expression or a statement.
#[derive(Debug, PartialEq, Eq)]
pub enum ExpressionType {
    ConstantEx,
    PoolConstantEx { pool_pos: u16 },
    NumberConstant { number: i16 },
    OperatorEx { left: Box<Expression>, right: Box<Expression> },
    ConvertEx { value: Box<Expression> },
    IncrementEx { var: u16, amount: u8 },
    LoadVarEx { var: u16 },
    StoreVarEx { var: u16, value: Box<Expression> },
    ArrayLoadEx { array: Box<Expression>, index: Box<Expression> },
    ArrayStoreEx { array: Box<Expression>, index: Box<Expression>, value: Box<Expression> },
    CompareEx { left: Box<Expression>, right: Box<Expression> },
    InstanceOfEx { value: Box<Expression>, pool_pos: u16 },
    IfEx { left: Box<Expression>, right: Box<Expression>, true_block: u32, false_block: u32 },
    If0Ex { value: Box<Expression>, true_block: u32, false_block: u32 },
    GotoEx { target_block: u32 },
    NewEx { pool_pos: u16 },
    NewPrimArrayEx { array_type: u8 },
    MonitorEx { value: Box<Expression> },
    CastEx { value: Box<Expression>, pool_pos: u16 },
    ReturnEx,
    ReturnValueEx { value: Box<Expression> },
    ThrowEx { throwable: Box<Expression> },
    GetFieldEx { object: Box<Expression>, pool_pos: u16 },
    PutFieldEx { object: Box<Expression>, value: Box<Expression>, pool_pos: u16 },
    GetStaticFieldEx { pool_pos: u16 },
    PutStaticFieldEx { value: Box<Expression>, pool_pos: u16 },
    InvokeEx { pool_pos: u16, receiver: Option<Box<Expression>>, args: Box<Args> },
    ArrayLengthEx { array: Box<Expression> },
}

impl Expression {
    /// A copy of the whole tree.
    pub fn duplicate(&self) -> (r: Expression)
        ensures
            r == *self,
        decreases self,
    {
        Expression { op: self.op, ex: self.ex.duplicate() }
    }
}

impl Args {
    pub fn duplicate(&self) -> (r: Args)
        ensures
            r == *self,
        decreases self,
    {
        match self {
            Args::Nil => Args::Nil,
            Args::Cons { head, tail } => Args::Cons { head: Box::new(head.duplicate()), tail: Box::new(tail.duplicate()) },
        }
    }
}

impl ExpressionType {
    pub fn duplicate(&self) -> (r: ExpressionType)
        ensures
            r == *self,
        decreases self,
    {
        match self {
            ExpressionType::ConstantEx => ExpressionType::ConstantEx,
            ExpressionType::PoolConstantEx { pool_pos } => ExpressionType::PoolConstantEx { pool_pos: *pool_pos },
            ExpressionType::NumberConstant { number } => ExpressionType::NumberConstant { number: *number },
            ExpressionType::OperatorEx { left, right } => ExpressionType::OperatorEx {
                left: Box::new(left.duplicate()),
                right: Box::new(right.duplicate()),
            },
            ExpressionType::ConvertEx { value } => ExpressionType::ConvertEx { value: Box::new(value.duplicate()) },
            ExpressionType::IncrementEx { var, amount } => ExpressionType::IncrementEx { var: *var, amount: *amount },
            ExpressionType::LoadVarEx { var } => ExpressionType::LoadVarEx { var: *var },
            ExpressionType::StoreVarEx { var, value } => ExpressionType::StoreVarEx { var: *var, value: Box::new(value.duplicate()) },
            ExpressionType::ArrayLoadEx { array, index } => ExpressionType::ArrayLoadEx {
                array: Box::new(array.duplicate()),
                index: Box::new(index.duplicate()),
            },
            ExpressionType::ArrayStoreEx { array, index, value } => ExpressionType::ArrayStoreEx {
                array: Box::new(array.duplicate()),
                index: Box::new(index.duplicate()),
                value: Box::new(value.duplicate()),
            },
            ExpressionType::CompareEx { left, right } => ExpressionType::CompareEx {
                left: Box::new(left.duplicate()),
                right: Box::new(right.duplicate()),
            },
            ExpressionType::InstanceOfEx { value, pool_pos } => ExpressionType::InstanceOfEx {
                value: Box::new(value.duplicate()),
                pool_pos: *pool_pos,
            },
            ExpressionType::IfEx { left, right, true_block, false_block } => ExpressionType::IfEx {
                left: Box::new(left.duplicate()),
                right: Box::new(right.duplicate()),
                true_block: *true_block,
                false_block: *false_block,
            },
            ExpressionType::If0Ex { value, true_block, false_block } => ExpressionType::If0Ex {
                value: Box::new(value.duplicate()),
                true_block: *true_block,
                false_block: *false_block,
            },
            ExpressionType::GotoEx { target_block } => ExpressionType::GotoEx { target_block: *target_block },
            ExpressionType::NewEx { pool_pos } => ExpressionType::NewEx { pool_pos: *pool_pos },
            ExpressionType::NewPrimArrayEx { array_type } => ExpressionType::NewPrimArrayEx { array_type: *array_type },
            ExpressionType::MonitorEx { value } => ExpressionType::MonitorEx { value: Box::new(value.duplicate()) },
            ExpressionType::CastEx { value, pool_pos } => ExpressionType::CastEx { value: Box::new(value.duplicate()), pool_pos: *pool_pos },
            ExpressionType::ReturnEx => ExpressionType::ReturnEx,
            ExpressionType::ReturnValueEx { value } => ExpressionType::ReturnValueEx { value: Box::new(value.duplicate()) },
            ExpressionType::ThrowEx { throwable } => ExpressionType::ThrowEx { throwable: Box::new(throwable.duplicate()) },
            ExpressionType::GetFieldEx { object, pool_pos } => ExpressionType::GetFieldEx {
                object: Box::new(object.duplicate()),
                pool_pos: *pool_pos,
            },
            ExpressionType::PutFieldEx { object, value, pool_pos } => ExpressionType::PutFieldEx {
                object: Box::new(object.duplicate()),
                value: Box::new(value.duplicate()),
                pool_pos: *pool_pos,
            },
            ExpressionType::GetStaticFieldEx { pool_pos } => ExpressionType::GetStaticFieldEx { pool_pos: *pool_pos },
            ExpressionType::PutStaticFieldEx { value, pool_pos } => ExpressionType::PutStaticFieldEx {
                value: Box::new(value.duplicate()),
                pool_pos: *pool_pos,
            },
            ExpressionType::InvokeEx { pool_pos, receiver, args } => ExpressionType::InvokeEx {
                pool_pos: *pool_pos,
                receiver: match receiver {
                    Some(x) => Some(Box::new(x.duplicate())),
                    None => None,
                },
                args: Box::new(args.duplicate()),
            },
            ExpressionType::ArrayLengthEx { array } => ExpressionType::ArrayLengthEx { array: Box::new(array.duplicate()) },
        }
    }
}

/// The operand stack of the lifter; its top is the last element.
pub struct ExStack {
    pub stack: Vec<Expression>,
}

/// The statements that a block emits, in order.
pub struct ExList {
    pub list: Vec<Expression>,
}

impl ExStack {
    /// Pushes the expression `ex`, produced by `op`.
    pub fn push(&mut self, op: &Op, ex: ExpressionType)
        ensures
            final(self).stack@ == old(self).stack@.push(Expression { op: op.op, ex }),
    {
        self.stack.push(Expression { op: op.op, ex });
    }

    /// Pops the top expression; `None` on an empty stack.
    pub fn pull(&mut self) -> (r: Option<Expression>)
        ensures
            old(self).stack.len() == 0 ==> r is None && final(self).stack@ == old(self).stack@,
            old(self).stack.len() > 0 ==> r == Some(old(self).stack@.last())
                && final(self).stack@ == old(self).stack@.drop_last(),
    {
        self.stack.pop()
    }
}

impl ExList {
    /// Appends the statement `ex`, produced by `op`.
    pub fn add(&mut self, op: &Op, ex: ExpressionType)
        ensures
            final(self).list@ == old(self).list@.push(Expression { op: op.op, ex }),
    {
        self.list.push(Expression { op: op.op, ex });
    }
}

/// The expression `ex` produced by the instruction `o`.
pub open spec fn node(o: Op, ex: ExpressionType) -> Expression {
    Expression { op: o.op, ex }
}

/// The call arguments `sq`, first one first.
pub open spec fn args_from(sq: Seq<Expression>) -> Args
    decreases sq.len(),
{
    if sq.len() == 0 {
        Args::Nil
    } else {
        Args::Cons { head: Box::new(sq[0]), tail: Box::new(args_from(sq.skip(1))) }
    }
}

/// The number of parameters of the method that pool entry `pos` refers
/// to, and whether it returns void; or why it cannot be known.
pub open spec fn invoke_shape(pool: Seq<EntryView>, pos: u16) -> Result<(int, bool), ParseError> {
    match method_descriptor_index(pool, pos as int) {
        None => Err(ParseError::InvalidPoolIndex),
        Some(d) => {
            let text = utf8_entry(pool, d)->Some_0;
            match method_shape(text) {
                None => Err(ParseError::InvalidDescriptor),
                Some((starts, f)) => Ok((starts.len() as int, text[f] == 86)),
            }
        },
    }
}

/// Stack `s` without its top `k` values.
pub open spec fn below(s: Seq<Expression>, k: int) -> Seq<Expression> {
    s.subrange(0, s.len() - k)
}

/// The value `k` places below the top of `s` (the top is `at(s, 0)`).
pub open spec fn at(s: Seq<Expression>, k: int) -> Expression {
    s[s.len() - 1 - k]
}

/// What the stack operations (`pop`, `pop2`, `dup`, `dup_x1`, `dup2`,
/// `swap`) do; the other ones of the family are not handled.
pub open spec fn stack_step(op: u8, s: Seq<Expression>) -> Result<Seq<Expression>, ParseError> {
    let need = if op == 87 || op == 89 { 1int } else { 2int };
    if !(op == 87 || op == 88 || op == 89 || op == 90 || op == 92 || op == 95) {
        Err(ParseError::UnsupportedOpcode)
    } else if s.len() < need {
        Err(ParseError::StackUnderflow)
    } else if op == 87 {
        Ok(below(s, 1))
    } else if op == 88 {
        Ok(below(s, 2))
    } else if op == 89 {
        Ok(s.push(at(s, 0)))
    } else if op == 90 {
        Ok(below(s, 2).push(at(s, 0)).push(at(s, 1)).push(at(s, 0)))
    } else if op == 92 {
        Ok(s.push(at(s, 1)).push(at(s, 0)))
    } else {
        Ok(below(s, 2).push(at(s, 0)).push(at(s, 1)))
    }
}

/// Push `e` and emit nothing.
pub open spec fn pushed(s: Seq<Expression>, e: Expression) -> Result<(Seq<Expression>, Option<Expression>), ParseError> {
    Ok((s.push(e), None))
}

/// Replace the top `k` values of `s` by `e`, or underflow.
pub open spec fn replaced(s: Seq<Expression>, k: int, e: Expression) -> Result<(Seq<Expression>, Option<Expression>), ParseError> {
    if s.len() < k { Err(ParseError::StackUnderflow) } else { Ok((below(s, k).push(e), None)) }
}

/// Pop the top `k` values of `s` and emit the statement `e`, or underflow.
pub open spec fn emitted(s: Seq<Expression>, k: int, e: Expression) -> Result<(Seq<Expression>, Option<Expression>), ParseError> {
    if s.len() < k { Err(ParseError::StackUnderflow) } else { Ok((below(s, k), Some(e))) }
}

#[verifier::opaque]
/// One step of the lifter: the stack after instruction `o` and the
/// statement it emits, if any. `true_block` and `false_block` are the
/// blocks that a branch at the end of the current block leads to.
pub open spec fn lift_step(o: Op, s: Seq<Expression>, pool: Seq<EntryView>, true_block: u32, false_block: u32)
    -> Result<(Seq<Expression>, Option<Expression>), ParseError>
{
    match o.inst {
        Instruction::Nop => Ok((s, None)),
        Instruction::Value => pushed(s, node(o, ExpressionType::ConstantEx)),
        Instruction::GetArrayLength => replaced(s, 1, node(o, ExpressionType::ArrayLengthEx { array: Box::new(at(s, 0)) })),
        Instruction::Stack => match stack_step(o.op, s) {
            Ok(s2) => Ok((s2, None)),
            Err(e) => Err(e),
        },
        Instruction::Math => replaced(s, 2, node(o, ExpressionType::OperatorEx { left: Box::new(at(s, 1)), right: Box::new(at(s, 0)) })),
        Instruction::Conventions => replaced(s, 1, node(o, ExpressionType::ConvertEx { value: Box::new(at(s, 0)) })),
        Instruction::Return => if o.op == RETURN {
            Ok((s, Some(node(o, ExpressionType::ReturnEx))))
        } else {
            emitted(s, 1, node(o, ExpressionType::ReturnValueEx { value: Box::new(at(s, 0)) }))
        },
        Instruction::Throw { .. } => emitted(s, 1, node(o, ExpressionType::ThrowEx { throwable: Box::new(at(s, 0)) })),
        Instruction::ConstantPool { pool } => pushed(s, node(o, ExpressionType::PoolConstantEx { pool_pos: pool as u16 })),
        Instruction::ConstantPoolWide { pool } => pushed(s, node(o, ExpressionType::PoolConstantEx { pool_pos: pool })),
        Instruction::PushByte { value } => pushed(s, node(o, ExpressionType::NumberConstant { number: value as i16 })),
        Instruction::PushShort { value } => pushed(s, node(o, ExpressionType::NumberConstant { number: value })),
        Instruction::Increment { var, amount } => Ok((s, Some(node(o, ExpressionType::IncrementEx { var, amount })))),
        Instruction::Load { var } => pushed(s, node(o, ExpressionType::LoadVarEx { var })),
        Instruction::Store { var } => emitted(s, 1, node(o, ExpressionType::StoreVarEx { var, value: Box::new(at(s, 0)) })),
        Instruction::ArrayLoad => replaced(s, 2, node(o, ExpressionType::ArrayLoadEx { array: Box::new(at(s, 1)), index: Box::new(at(s, 0)) })),
        Instruction::ArrayStore => emitted(s, 3, node(o, ExpressionType::ArrayStoreEx {
            array: Box::new(at(s, 2)),
            index: Box::new(at(s, 1)),
            value: Box::new(at(s, 0)),
        })),
        Instruction::Comparison => replaced(s, 2, node(o, ExpressionType::CompareEx { left: Box::new(at(s, 1)), right: Box::new(at(s, 0)) })),
        Instruction::Cast { pool_pos } => replaced(s, 1, node(o, ExpressionType::CastEx { value: Box::new(at(s, 0)), pool_pos })),
        Instruction::Instanceof { pool_pos } => replaced(s, 1, node(o, ExpressionType::InstanceOfEx { value: Box::new(at(s, 0)), pool_pos })),
        Instruction::ComparisonJump { .. } => emitted(s, 2, node(o, ExpressionType::IfEx {
            left: Box::new(at(s, 1)),
            right: Box::new(at(s, 0)),
            true_block,
            false_block,
        })),
        Instruction::ZeroComparisonJump { .. } => emitted(s, 1, node(o, ExpressionType::If0Ex { value: Box::new(at(s, 0)), true_block, false_block })),
        Instruction::SwitchJump { .. } => Err(ParseError::UnsupportedOpcode),
        Instruction::Jump { .. } => Ok((s, Some(node(o, ExpressionType::GotoEx { target_block: true_block })))),
        Instruction::New { pool_pos } => pushed(s, node(o, ExpressionType::NewEx { pool_pos })),
        Instruction::NewPrimitiveArray { array_type } => pushed(s, node(o, ExpressionType::NewPrimArrayEx { array_type })),
        Instruction::GetField { pool_pos } => replaced(s, 1, node(o, ExpressionType::GetFieldEx { object: Box::new(at(s, 0)), pool_pos })),
        Instruction::GetStaticField { pool_pos } => pushed(s, node(o, ExpressionType::GetStaticFieldEx { pool_pos })),
        Instruction::PutField { pool_pos } => emitted(s, 2, node(o, ExpressionType::PutFieldEx {
            object: Box::new(at(s, 1)),
            value: Box::new(at(s, 0)),
            pool_pos,
        })),
        Instruction::PutStaticField { pool_pos } => emitted(s, 1, node(o, ExpressionType::PutStaticFieldEx { value: Box::new(at(s, 0)), pool_pos })),
        Instruction::InvokeMethod { pool_pos } => match invoke_shape(pool, pool_pos) {
            Err(e) => Err(e),
            Ok((n, is_void)) => {
                let has_receiver = o.op != INVOKESTATIC && o.op != INVOKEDYNAMIC;
                let k = if has_receiver { n + 1 } else { n };
                if s.len() < k {
                    Err(ParseError::StackUnderflow)
                } else {
                    let call = node(o, ExpressionType::InvokeEx {
                        pool_pos,
                        receiver: if has_receiver { Some(Box::new(at(s, n))) } else { None },
                        args: Box::new(args_from(s.subrange(s.len() - n, s.len() as int))),
                    });
                    if is_void { Ok((below(s, k), Some(call))) } else { Ok((below(s, k).push(call), None)) }
                }
            },
        },
        Instruction::Monitor => emitted(s, 1, node(o, ExpressionType::MonitorEx { value: Box::new(at(s, 0)) })),
    }
}

impl ExStack {
    fn take(&mut self) -> (r: Expression)
        requires
            old(self).stack.len() > 0,
        ensures
            r == old(self).stack@.last(),
            final(self).stack@ == old(self).stack@.drop_last(),
    {
        self.stack.pop().unwrap()
    }
}

/// Whether the stack of `ex_stack` holds at least `k` values.
fn depth_at_least(ex_stack: &ExStack, k: usize) -> (r: bool)
    ensures
        r == (ex_stack.stack.len() >= k),
{
    ex_stack.stack.len() >= k
}

proof fn lemma_args_step(s: Seq<Expression>, lo: int)
    requires
        0 < lo <= s.len(),
    ensures
        args_from(s.subrange(lo - 1, s.len() as int)) == (Args::Cons {
            head: Box::new(s[lo - 1]),
            tail: Box::new(args_from(s.subrange(lo, s.len() as int))),
        }),
{
    assert(s.subrange(lo - 1, s.len() as int).skip(1) =~= s.subrange(lo, s.len() as int));
}

impl Expression {
    fn new(op: &Op, ex: ExpressionType) -> (r: Expression)
        ensures
            r == node(*op, ex),
    {
        Expression { op: op.op, ex }
    }

    /// Runs instruction `op` on the symbolic stack, pushing the expression
    /// it produces or adding the statement it emits. A branch at the end of
    /// a block leads to `true_block`, and a conditional one falls through to
    /// `false_block`.
    pub fn create(op: &Op, ex_stack: &mut ExStack, ex_list: &mut ExList, const_pool: &ConstantPool, true_block: u32, false_block: u32) -> (r: Result<(), ParseError>)
        ensures
            match lift_step(*op, old(ex_stack).stack@, const_pool@, true_block, false_block) {
                Ok((s2, st)) => r is Ok && final(ex_stack).stack@ == s2 && final(ex_list).list@ == match st {
                    Some(e) => old(ex_list).list@.push(e),
                    None => old(ex_list).list@,
                },
                Err(e) => r == Err::<(), ParseError>(e) && final(ex_stack).stack@ == old(ex_stack).stack@
                    && final(ex_list).list@ == old(ex_list).list@,
            },
    {
        reveal(lift_step);
        let ghost s = ex_stack.stack@;
        match &op.inst {
            Instruction::Nop => {},
            Instruction::Value => ex_stack.push(op, ExpressionType::ConstantEx),
            Instruction::GetArrayLength => {
                if !depth_at_least(ex_stack, 1) { return Err(ParseError::StackUnderflow); }
                let array = ex_stack.take();
                ex_stack.push(op, ExpressionType::ArrayLengthEx { array: Box::new(array) });
            },
            Instruction::Stack => {
                let code = op.op;
                if !(code == 87 || code == 88 || code == 89 || code == 90 || code == 92 || code == 95) {
                    return Err(ParseError::UnsupportedOpcode);
                }
                let need: usize = if code == 87 || code == 89 { 1 } else { 2 };
                if !depth_at_least(ex_stack, need) { return Err(ParseError::StackUnderflow); }
                if code == 87 {
                    ex_stack.take();
                } else if code == 88 {
                    ex_stack.take();
                    ex_stack.take();
                    assert(ex_stack.stack@ =~= below(s, 2));
                } else if code == 89 {
                    let v1 = ex_stack.take();
                    let copy = v1.duplicate();
                    ex_stack.stack.push(v1);
                    ex_stack.stack.push(copy);
                    assert(ex_stack.stack@ =~= s.push(at(s, 0)));
                } else if code == 90 {
                    let v1 = ex_stack.take();
                    let v2 = ex_stack.take();
                    let copy = v1.duplicate();
                    ex_stack.stack.push(copy);
                    ex_stack.stack.push(v2);
                    ex_stack.stack.push(v1);
                    assert(ex_stack.stack@ =~= below(s, 2).push(at(s, 0)).push(at(s, 1)).push(at(s, 0)));
                } else if code == 92 {
                    let v1 = ex_stack.take();
                    let v2 = ex_stack.take();
                    let c2 = v2.duplicate();
                    let c1 = v1.duplicate();
                    ex_stack.stack.push(v2);
                    ex_stack.stack.push(v1);
                    ex_stack.stack.push(c2);
                    ex_stack.stack.push(c1);
                    assert(ex_stack.stack@ =~= s.push(at(s, 1)).push(at(s, 0)));
                } else {
                    let v1 = ex_stack.take();
                    let v2 = ex_stack.take();
                    ex_stack.stack.push(v1);
                    ex_stack.stack.push(v2);
                    assert(ex_stack.stack@ =~= below(s, 2).push(at(s, 0)).push(at(s, 1)));
                }
            },
            Instruction::Math => {
                if !depth_at_least(ex_stack, 2) { return Err(ParseError::StackUnderflow); }
                let right = ex_stack.take();
                let left = ex_stack.take();
                assert(ex_stack.stack@ =~= below(s, 2));
                ex_stack.push(op, ExpressionType::OperatorEx { left: Box::new(left), right: Box::new(right) });
            },
            Instruction::Conventions => {
                if !depth_at_least(ex_stack, 1) { return Err(ParseError::StackUnderflow); }
                let value = ex_stack.take();
                ex_stack.push(op, ExpressionType::ConvertEx { value: Box::new(value) });
            },
            Instruction::Return => {
                if op.op == RETURN {
                    ex_list.add(op, ExpressionType::ReturnEx);
                } else {
                    if !depth_at_least(ex_stack, 1) { return Err(ParseError::StackUnderflow); }
                    let value = ex_stack.take();
                    ex_list.add(op, ExpressionType::ReturnValueEx { value: Box::new(value) });
                }
            },
            Instruction::Throw { .. } => {
                if !depth_at_least(ex_stack, 1) { return Err(ParseError::StackUnderflow); }
                let throwable = ex_stack.take();
                ex_list.add(op, ExpressionType::ThrowEx { throwable: Box::new(throwable) });
            },
            Instruction::ConstantPool { pool } => ex_stack.push(op, ExpressionType::PoolConstantEx { pool_pos: *pool as u16 }),
            Instruction::ConstantPoolWide { pool } => ex_stack.push(op, ExpressionType::PoolConstantEx { pool_pos: *pool }),
            Instruction::PushByte { value } => ex_stack.push(op, ExpressionType::NumberConstant { number: *value as i16 }),
            Instruction::PushShort { value } => ex_stack.push(op, ExpressionType::NumberConstant { number: *value }),
            Instruction::Increment { var, amount } => ex_list.add(op, ExpressionType::IncrementEx { var: *var, amount: *amount }),
            Instruction::Load { var } => ex_stack.push(op, ExpressionType::LoadVarEx { var: *var }),
            Instruction::Store { var } => {
                if !depth_at_least(ex_stack, 1) { return Err(ParseError::StackUnderflow); }
                let value = ex_stack.take();
                ex_list.add(op, ExpressionType::StoreVarEx { var: *var, value: Box::new(value) });
            },
            Instruction::ArrayLoad => {
                if !depth_at_least(ex_stack, 2) { return Err(ParseError::StackUnderflow); }
                let index = ex_stack.take();
                let array = ex_stack.take();
                assert(ex_stack.stack@ =~= below(s, 2));
                ex_stack.push(op, ExpressionType::ArrayLoadEx { array: Box::new(array), index: Box::new(index) });
            },
            Instruction::ArrayStore => {
                if !depth_at_least(ex_stack, 3) { return Err(ParseError::StackUnderflow); }
                let value = ex_stack.take();
                let index = ex_stack.take();
                let array = ex_stack.take();
                assert(ex_stack.stack@ =~= below(s, 3));
                ex_list.add(op, ExpressionType::ArrayStoreEx { array: Box::new(array), index: Box::new(index), value: Box::new(value) });
            },
            Instruction::Comparison => {
                if !depth_at_least(ex_stack, 2) { return Err(ParseError::StackUnderflow); }
                let right = ex_stack.take();
                let left = ex_stack.take();
                assert(ex_stack.stack@ =~= below(s, 2));
                ex_stack.push(op, ExpressionType::CompareEx { left: Box::new(left), right: Box::new(right) });
            },
            Instruction::Cast { pool_pos } => {
                if !depth_at_least(ex_stack, 1) { return Err(ParseError::StackUnderflow); }
                let value = ex_stack.take();
                ex_stack.push(op, ExpressionType::CastEx { value: Box::new(value), pool_pos: *pool_pos });
            },
            Instruction::Instanceof { pool_pos } => {
                if !depth_at_least(ex_stack, 1) { return Err(ParseError::StackUnderflow); }
                let value = ex_stack.take();
                ex_stack.push(op, ExpressionType::InstanceOfEx { value: Box::new(value), pool_pos: *pool_pos });
            },
            Instruction::ComparisonJump { .. } => {
                if !depth_at_least(ex_stack, 2) { return Err(ParseError::StackUnderflow); }
                let right = ex_stack.take();
                let left = ex_stack.take();
                assert(ex_stack.stack@ =~= below(s, 2));
                ex_list.add(op, ExpressionType::IfEx { left: Box::new(left), right: Box::new(right), true_block, false_block });
            },
            Instruction::ZeroComparisonJump { .. } => {
                if !depth_at_least(ex_stack, 1) { return Err(ParseError::StackUnderflow); }
                let value = ex_stack.take();
                ex_list.add(op, ExpressionType::If0Ex { value: Box::new(value), true_block, false_block });
            },
            Instruction::SwitchJump { .. } => {
                return Err(ParseError::UnsupportedOpcode);
            },
            Instruction::Jump { .. } => ex_list.add(op, ExpressionType::GotoEx { target_block: true_block }),
            Instruction::New { pool_pos } => ex_stack.push(op, ExpressionType::NewEx { pool_pos: *pool_pos }),
            Instruction::NewPrimitiveArray { array_type } => ex_stack.push(op, ExpressionType::NewPrimArrayEx { array_type: *array_type }),
            Instruction::GetField { pool_pos } => {
                if !depth_at_least(ex_stack, 1) { return Err(ParseError::StackUnderflow); }
                let object = ex_stack.take();
                ex_stack.push(op, ExpressionType::GetFieldEx { object: Box::new(object), pool_pos: *pool_pos });
            },
            Instruction::GetStaticField { pool_pos } => ex_stack.push(op, ExpressionType::GetStaticFieldEx { pool_pos: *pool_pos }),
            Instruction::PutField { pool_pos } => {
                if !depth_at_least(ex_stack, 2) { return Err(ParseError::StackUnderflow); }
                let value = ex_stack.take();
                let object = ex_stack.take();
                assert(ex_stack.stack@ =~= below(s, 2));
                ex_list.add(op, ExpressionType::PutFieldEx { object: Box::new(object), value: Box::new(value), pool_pos: *pool_pos });
            },
            Instruction::PutStaticField { pool_pos } => {
                if !depth_at_least(ex_stack, 1) { return Err(ParseError::StackUnderflow); }
                let value = ex_stack.take();
                ex_list.add(op, ExpressionType::PutStaticFieldEx { value: Box::new(value), pool_pos: *pool_pos });
            },
            Instruction::InvokeMethod { pool_pos } => {
                return Expression::invoke(op, *pool_pos, ex_stack, ex_list, const_pool);
            },
            Instruction::Monitor => {
                if !depth_at_least(ex_stack, 1) { return Err(ParseError::StackUnderflow); }
                let value = ex_stack.take();
                ex_list.add(op, ExpressionType::MonitorEx { value: Box::new(value) });
            },
        }
        Ok(())
    }

    /// The call that `op` makes through pool entry `pool_pos`.
    fn invoke(op: &Op, pool_pos: u16, ex_stack: &mut ExStack, ex_list: &mut ExList, const_pool: &ConstantPool) -> (r: Result<(), ParseError>)
        requires
            op.inst == (Instruction::InvokeMethod { pool_pos }),
        ensures
            match lift_step(*op, old(ex_stack).stack@, const_pool@, 0, 0) {
                Ok((s2, st)) => r is Ok && final(ex_stack).stack@ == s2 && final(ex_list).list@ == match st {
                    Some(e) => old(ex_list).list@.push(e),
                    None => old(ex_list).list@,
                },
                Err(e) => r == Err::<(), ParseError>(e) && final(ex_stack).stack@ == old(ex_stack).stack@
                    && final(ex_list).list@ == old(ex_list).list@,
            },
    {
        reveal(lift_step);
        let ghost s = ex_stack.stack@;
        let md = match const_pool.called_method_descriptor(pool_pos) {
            Ok(md) => md,
            Err(e) => return Err(e),
        };
        let ghost text = utf8_entry(const_pool@, method_descriptor_index(const_pool@, pool_pos as int)->Some_0)->Some_0;
        let ghost f = method_shape(text)->Some_0.1;
        let n = md.params.len();
        let has_receiver = op.op != INVOKESTATIC && op.op != INVOKEDYNAMIC;
        let short = if has_receiver { ex_stack.stack.len() <= n } else { ex_stack.stack.len() < n };
        if short {
            return Err(ParseError::StackUnderflow);
        }
        let len = ex_stack.stack.len();
        let mut args = Args::Nil;
        let mut i: usize = 0;
        assert(s.subrange(len as int, len as int) =~= Seq::<Expression>::empty());
        while i < n
            invariant
                len == s.len(),
                i <= n <= len,
                ex_stack.stack@ == s.subrange(0, len - i),
                args == args_from(s.subrange(len - i, len as int)),
            decreases n - i,
        {
            let a = ex_stack.take();
            proof {
                lemma_args_step(s, len - i);
            }
            args = Args::Cons { head: Box::new(a), tail: Box::new(args) };
            i = i + 1;
            assert(ex_stack.stack@ =~= s.subrange(0, len - i));
        }
        let receiver = if has_receiver {
            let x = ex_stack.take();
            assert(ex_stack.stack@ =~= s.subrange(0, len - n - 1));
            Some(Box::new(x))
        } else {
            None
        };
        let is_void = match md.return_type {
            Type::Void => true,
            _ => false,
        };
        proof {
            lemma_void_letter(md.return_type, text, f, text.len() as int);
        }
        let call = ExpressionType::InvokeEx { pool_pos, receiver, args: Box::new(args) };
        if is_void {
            ex_list.add(op, call);
        } else {
            ex_stack.push(op, call);
        }
        Ok(())
    }
}

/// The statement `o` as a sequence of zero or one statements.
pub open spec fn opt_seq(o: Option<Expression>) -> Seq<Expression> {
    match o {
        Some(e) => seq![e],
        None => Seq::empty(),
    }
}

/// Lifting instructions `[i, stop)` of `ops` from stack `s`, after the
/// statements `st`: the final stack and statements, or the first error.
pub open spec fn lift_run(ops: Seq<Op>, i: int, stop: int, s: Seq<Expression>, st: Seq<Expression>, pool: Seq<EntryView>, true_block: u32, false_block: u32)
    -> Result<(Seq<Expression>, Seq<Expression>), ParseError>
    decreases stop - i,
{
    if i >= stop {
        Ok((s, st))
    } else {
        match lift_step(ops[i], s, pool, true_block, false_block) {
            Err(e) => Err(e),
            Ok((s2, o)) => lift_run(ops, i + 1, stop, s2, st + opt_seq(o), pool, true_block, false_block),
        }
    }
}

/// The blocks that the branch ending block `c` leads to: the target, and
/// the next block for a conditional's false edge.
pub open spec fn branch_blocks(t: CodeChunkTarget, c: int) -> (u32, u32) {
    match t {
        CodeChunkTarget::Condition { true_chunk_pos } => (true_chunk_pos, (c + 1) as u32),
        CodeChunkTarget::Goto { chunk_pos } => (chunk_pos, 0u32),
        _ => (0u32, 0u32),
    }
}

/// The lift of block `c` of `code`, each block starting from an empty stack.
pub open spec fn block_lift(code: Code, c: int, pool: Seq<EntryView>) -> Result<(Seq<Expression>, Seq<Expression>), ParseError> {
    let chunk = code.code_chunks@[c];
    let (tb, fb) = branch_blocks(chunk.target, c);
    lift_run(code.code@, chunk.start as int, chunk.stop as int, Seq::empty(), Seq::empty(), pool, tb, fb)
}

/// Lifts the instructions `[start, stop)` of `ops` from an empty stack.
pub fn lift_block(ops: &Vec<Op>, start: usize, stop: usize, const_pool: &ConstantPool, true_block: u32, false_block: u32) -> (r: Result<(ExList, ExStack), ParseError>)
    requires
        start <= stop <= ops.len(),
    ensures
        match lift_run(ops@, start as int, stop as int, Seq::empty(), Seq::empty(), const_pool@, true_block, false_block) {
            Ok((stk, st)) => r matches Ok((l, s)) && l.list@ == st && s.stack@ == stk,
            Err(e) => r == Err::<(ExList, ExStack), ParseError>(e),
        },
{
    let mut stack = ExStack { stack: Vec::new() };
    let mut list = ExList { list: Vec::new() };
    let mut i = start;
    while i < stop
        invariant
            start <= i <= stop <= ops.len(),
            lift_run(ops@, start as int, stop as int, Seq::empty(), Seq::empty(), const_pool@, true_block, false_block)
                == lift_run(ops@, i as int, stop as int, stack.stack@, list.list@, const_pool@, true_block, false_block),
        decreases stop - i,
    {
        let ghost s0 = stack.stack@;
        let ghost l0 = list.list@;
        let ghost step = lift_step(ops@[i as int], s0, const_pool@, true_block, false_block);
        match Expression::create(&ops[i], &mut stack, &mut list, const_pool, true_block, false_block) {
            Ok(()) => {
                proof {
                    if let Ok((s2, o)) = step {
                        assert(list.list@ =~= l0 + opt_seq(o));
                    }
                }
            },
            Err(e) => {
                return Err(e);
            },
        }
        i = i + 1;
    }
    Ok((list, stack))
}

/// A block with this exit must leave the symbolic stack empty.
pub open spec fn exit_needs_empty(t: CodeChunkTarget) -> bool {
    t is Return || t is Throw || t is Switch
}

/// The statements of block `c` of `code`, or why it cannot be lifted: an
/// error of a step, or values left on the stack at a return, a throw or a
/// switch.
pub open spec fn block_outcome(code: Code, c: int, pool: Seq<EntryView>) -> Result<Seq<Expression>, ParseError> {
    match block_lift(code, c, pool) {
        Err(e) => Err(e),
        Ok((stk, st)) => if exit_needs_empty(code.code_chunks@[c].target) && stk.len() > 0 {
            Err(ParseError::StackNotEmpty)
        } else {
            Ok(st)
        },
    }
}

/// Block `c` of `code` lifts without error to the statements of `l`.
pub open spec fn lifted_to(code: Code, c: int, pool: Seq<EntryView>, l: ExList) -> bool {
    block_outcome(code, c, pool) == Ok::<Seq<Expression>, ParseError>(l.list@)
}

/// Lifts every block of a method body to the statements it emits, starting
/// each block from an empty stack. A block that returns, throws or switches
/// must end with an empty stack.
pub fn compute(code: &Code, const_pool: &ConstantPool) -> (r: Result<Vec<ExList>, ParseError>)
    requires
        code.wf(),
    ensures
        match r {
            Ok(lists) => lists.len() == code.code_chunks.len() && forall|c: int| 0 <= c < lists.len() ==>
                lifted_to(*code, c, const_pool@, #[trigger] lists@[c]),
            Err(e) => exists|c: int| 0 <= c < code.code_chunks.len() && #[trigger] block_outcome(*code, c, const_pool@) == Err::<Seq<Expression>, ParseError>(e),
        },
{
    let n = code.code_chunks.len();
    let mut lists: Vec<ExList> = Vec::new();
    let mut c: usize = 0;
    while c < n
        invariant
            n == code.code_chunks.len(),
            code.wf(),
            c <= n,
            lists.len() == c,
            forall|k: int| 0 <= k < c ==> lifted_to(*code, k, const_pool@, #[trigger] lists@[k]),
        decreases n - c,
    {
        let chunk = &code.code_chunks[c];
        let (tb, fb): (u32, u32) = match &chunk.target {
            CodeChunkTarget::Condition { true_chunk_pos } => (*true_chunk_pos, (c + 1) as u32),
            CodeChunkTarget::Goto { chunk_pos } => (*chunk_pos, 0),
            _ => (0, 0),
        };
        proof {
            if c + 1 < n {
                lemma_chunks_sorted(code.code_chunks@, code.code.len() as int, c as int, n - 1);
                assert(code.code_chunks@[n - 1].start < code.code_chunks@[n - 1].stop);
            }
            assert(chunk.start < chunk.stop);
            assert(branch_blocks(chunk.target, c as int) == (tb, fb));
            assert(block_lift(*code, c as int, const_pool@) == lift_run(code.code@, chunk.start as int, chunk.stop as int,
                Seq::empty(), Seq::empty(), const_pool@, tb, fb));
        }
        let (list, stack) = match lift_block(&code.code, chunk.start as usize, chunk.stop as usize, const_pool, tb, fb) {
            Ok(x) => x,
            Err(e) => {
                assert(block_outcome(*code, c as int, const_pool@) == Err::<Seq<Expression>, ParseError>(e));
                return Err(e);
            },
        };
        let must_be_empty = match &chunk.target {
            CodeChunkTarget::Return | CodeChunkTarget::Throw | CodeChunkTarget::Switch { .. } => true,
            _ => false,
        };
        if must_be_empty && stack.stack.len() > 0 {
            assert(block_outcome(*code, c as int, const_pool@) == Err::<Seq<Expression>, ParseError>(ParseError::StackNotEmpty));
            return Err(ParseError::StackNotEmpty);
        }
        let ghost before = lists@;
        let ghost lv = list.list@;
        assert(block_outcome(*code, c as int, const_pool@) == Ok::<Seq<Expression>, ParseError>(lv));
        lists.push(list);
        proof {
            assert(lists@[c as int].list@ == lv);
            assert forall|k: int| 0 <= k < c + 1 implies lifted_to(*code, k, const_pool@, #[trigger] lists@[k]) by {
                if k < c {
                    assert(lists@[k] == before[k]);
                    assert(lifted_to(*code, k, const_pool@, before[k]));
                }
            }
        }
        c = c + 1;
    }
    Ok(lists)
}

} // verus!
