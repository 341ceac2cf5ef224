//! Instructions of a method body, and their decoding from bytes.
use vstd::prelude::*;

use crate::class::{AttributeException, AttributeInfo};
use crate::error::ParseError;
use crate::reader::{be16, be32, fits, read_i16, read_i32, read_i8, read_u16, read_u8, signed};

verus! {

pub const ILOAD: u8 = 21;
pub const ILOAD_0: u8 = 26;
pub const ISTORE: u8 = 54;
pub const ISTORE_0: u8 = 59;
pub const RETURN: u8 = 177;
pub const INVOKESTATIC: u8 = 184;
pub const INVOKEINTERFACE: u8 = 185;
pub const INVOKEDYNAMIC: u8 = 186;

/// A branch operand: a byte offset relative to the branch opcode until the
/// method is lifted, then the index of the instruction it leads to.
#[derive(Debug, Clone, Copy, PartialEq, Eq)]
pub enum JumpUnion {
    Offset { jump_offset: i32 },
    Pos { jump_pos: u32 },
}

#[derive(Debug, Clone, Copy, PartialEq, Eq)]
pub struct JumpValue {
    pub union: JumpUnion,
}

impl JumpValue {
    pub fn new(offset: i32) -> (r: JumpValue)
        ensures
            r.union == (JumpUnion::Offset { jump_offset: offset }),
    {
        JumpValue { union: JumpUnion::Offset { jump_offset: offset } }
    }

    /// The instruction index of a resolved branch; `None` before resolution.
    pub fn get_pos(&self) -> (r: Option<u32>)
        ensures
            r == (match self.union {
                JumpUnion::Pos { jump_pos } => Some(jump_pos),
                JumpUnion::Offset { .. } => None::<u32>,
            }),
    {
        match self.union {
            JumpUnion::Pos { jump_pos } => Some(jump_pos),
            JumpUnion::Offset { .. } => None,
        }
    }
}

/// One instruction, grouped by the shape of its operands.
#[derive(Debug, Clone, PartialEq, Eq)]
pub enum Instruction {
    Nop,
    Value,
    GetArrayLength,
    Stack,
    Math,
    Conventions,
    Return,
    /// `athrow`, which has no operand bytes; `pool_pos` is always 0.
    Throw { pool_pos: u16 },
    ConstantPool { pool: u8 },
    ConstantPoolWide { pool: u16 },
    PushByte { value: i8 },
    PushShort { value: i16 },
    Increment { var: u16, amount: u8 },
    Load { var: u16 },
    ArrayLoad,
    Store { var: u16 },
    ArrayStore,
    Comparison,
    Cast { pool_pos: u16 },
    Instanceof { pool_pos: u16 },
    ComparisonJump { jump: JumpValue },
    ZeroComparisonJump { jump: JumpValue },
    /// The switch instructions are not decoded, so this variant never
    /// comes out of the decoder.
    SwitchJump { jumps: Vec<JumpValue> },
    Jump { jump: JumpValue },
    New { pool_pos: u16 },
    NewPrimitiveArray { array_type: u8 },
    GetField { pool_pos: u16 },
    GetStaticField { pool_pos: u16 },
    PutField { pool_pos: u16 },
    PutStaticField { pool_pos: u16 },
    InvokeMethod { pool_pos: u16 },
    Monitor,
}

/// A decoded instruction with its opcode byte (the canonical one for the
/// indexed load and store families) and its encoded length in bytes.
#[derive(Debug, Clone, PartialEq, Eq)]
pub struct Op {
    pub op: u8,
    pub inst: Instruction,
    pub length: u8,
}

/// An instruction with no operand bytes.
pub open spec fn bare(inst: Instruction, op: u8) -> Result<(Instruction, u8, u8), ParseError> {
    Ok((inst, 0u8, op))
}

/// The decoding of the operands that follow opcode `op`, with `pos` at the
/// first operand byte: the instruction, the number of operand bytes and the
/// opcode that is recorded for it.
pub open spec fn spec_instruction(b: Seq<u8>, pos: int, op: u8) -> Result<(Instruction, u8, u8), ParseError> {
    let u8op = if fits(b, pos, 1) { Ok(b[pos]) } else { Err(ParseError::UnexpectedEof) };
    let u16op = if fits(b, pos, 2) { Ok(be16(b, pos) as u16) } else { Err(ParseError::UnexpectedEof) };
    let i16op = if fits(b, pos, 2) { Ok(signed(be16(b, pos), 65536) as i32) } else { Err(ParseError::UnexpectedEof) };
    if op == 0 {
        bare(Instruction::Nop, op)
    } else if 1 <= op <= 15 {
        bare(Instruction::Value, op)
    } else if op == 16 {
        if fits(b, pos, 1) {
            Ok((Instruction::PushByte { value: signed(b[pos] as int, 256) as i8 }, 1u8, op))
        } else {
            Err(ParseError::UnexpectedEof)
        }
    } else if op == 17 {
        match i16op { Ok(v) => Ok((Instruction::PushShort { value: v as i16 }, 2u8, op)), Err(e) => Err(e) }
    } else if op == 18 {
        match u8op { Ok(v) => Ok((Instruction::ConstantPool { pool: v }, 1u8, op)), Err(e) => Err(e) }
    } else if op == 19 || op == 20 {
        match u16op { Ok(v) => Ok((Instruction::ConstantPoolWide { pool: v }, 2u8, op)), Err(e) => Err(e) }
    } else if 21 <= op <= 25 {
        match u8op { Ok(v) => Ok((Instruction::Load { var: v as u16 }, 1u8, op)), Err(e) => Err(e) }
    } else if 26 <= op <= 45 {
        bare(Instruction::Load { var: ((op - 26) % 4) as u16 }, (ILOAD + (op - 26) / 4) as u8)
    } else if 46 <= op <= 53 {
        bare(Instruction::ArrayLoad, op)
    } else if 54 <= op <= 58 {
        match u8op { Ok(v) => Ok((Instruction::Store { var: v as u16 }, 1u8, op)), Err(e) => Err(e) }
    } else if 59 <= op <= 78 {
        bare(Instruction::Store { var: ((op - 59) % 4) as u16 }, (ISTORE + (op - 59) / 4) as u8)
    } else if 79 <= op <= 86 {
        bare(Instruction::ArrayStore, op)
    } else if 87 <= op <= 95 {
        bare(Instruction::Stack, op)
    } else if 96 <= op <= 131 {
        bare(Instruction::Math, op)
    } else if op == 132 {
        if fits(b, pos, 2) {
            Ok((Instruction::Increment { var: b[pos] as u16, amount: b[pos + 1] }, 2u8, op))
        } else {
            Err(ParseError::UnexpectedEof)
        }
    } else if 133 <= op <= 147 {
        bare(Instruction::Conventions, op)
    } else if 148 <= op <= 152 {
        bare(Instruction::Comparison, op)
    } else if 153 <= op <= 158 || op == 198 || op == 199 {
        match i16op {
            Ok(v) => Ok((Instruction::ZeroComparisonJump { jump: JumpValue { union: JumpUnion::Offset { jump_offset: v } } }, 2u8, op)),
            Err(e) => Err(e),
        }
    } else if 159 <= op <= 166 {
        match i16op {
            Ok(v) => Ok((Instruction::ComparisonJump { jump: JumpValue { union: JumpUnion::Offset { jump_offset: v } } }, 2u8, op)),
            Err(e) => Err(e),
        }
    } else if op == 167 || op == 168 {
        match i16op {
            Ok(v) => Ok((Instruction::Jump { jump: JumpValue { union: JumpUnion::Offset { jump_offset: v } } }, 2u8, op)),
            Err(e) => Err(e),
        }
    } else if op == 200 || op == 201 {
        if fits(b, pos, 4) {
            Ok((Instruction::Jump { jump: JumpValue { union: JumpUnion::Offset { jump_offset: signed(be32(b, pos), 4294967296) as i32 } } }, 4u8, op))
        } else {
            Err(ParseError::UnexpectedEof)
        }
    } else if 172 <= op <= 177 {
        bare(Instruction::Return, op)
    } else if op == 178 {
        match u16op { Ok(v) => Ok((Instruction::GetStaticField { pool_pos: v }, 2u8, op)), Err(e) => Err(e) }
    } else if op == 179 {
        match u16op { Ok(v) => Ok((Instruction::PutStaticField { pool_pos: v }, 2u8, op)), Err(e) => Err(e) }
    } else if op == 180 {
        match u16op { Ok(v) => Ok((Instruction::GetField { pool_pos: v }, 2u8, op)), Err(e) => Err(e) }
    } else if op == 181 {
        match u16op { Ok(v) => Ok((Instruction::PutField { pool_pos: v }, 2u8, op)), Err(e) => Err(e) }
    } else if 182 <= op <= 184 {
        match u16op { Ok(v) => Ok((Instruction::InvokeMethod { pool_pos: v }, 2u8, op)), Err(e) => Err(e) }
    } else if op == 185 || op == 186 {
        if fits(b, pos, 4) {
            Ok((Instruction::InvokeMethod { pool_pos: be16(b, pos) as u16 }, 4u8, op))
        } else {
            Err(ParseError::UnexpectedEof)
        }
    } else if op == 187 || op == 189 {
        match u16op { Ok(v) => Ok((Instruction::New { pool_pos: v }, 2u8, op)), Err(e) => Err(e) }
    } else if op == 188 {
        match u8op { Ok(v) => Ok((Instruction::NewPrimitiveArray { array_type: v }, 1u8, op)), Err(e) => Err(e) }
    } else if op == 190 {
        bare(Instruction::GetArrayLength, op)
    } else if op == 191 {
        bare(Instruction::Throw { pool_pos: 0 }, op)
    } else if op == 192 {
        match u16op { Ok(v) => Ok((Instruction::Cast { pool_pos: v }, 2u8, op)), Err(e) => Err(e) }
    } else if op == 193 {
        match u16op { Ok(v) => Ok((Instruction::Instanceof { pool_pos: v }, 2u8, op)), Err(e) => Err(e) }
    } else if op == 194 || op == 195 {
        bare(Instruction::Monitor, op)
    } else if 169 <= op <= 171 || op == 196 || op == 197 {
        Err(ParseError::UnsupportedOpcode)
    } else {
        Err(ParseError::UnknownOpcode)
    }
}

/// The instruction that starts at byte `pos`, and the position after it.
pub open spec fn spec_op(b: Seq<u8>, pos: int) -> Result<(Op, int), ParseError> {
    if !fits(b, pos, 1) {
        Err(ParseError::UnexpectedEof)
    } else {
        match spec_instruction(b, pos + 1, b[pos]) {
            Ok((inst, n, op)) => Ok((Op { op, inst, length: (n + 1) as u8 }, pos + 1 + n)),
            Err(e) => Err(e),
        }
    }
}

fn jump_offset(b: &[u8], pos: usize) -> (r: Result<JumpValue, ParseError>)
    ensures
        r == (if fits(b@, pos as int, 2) {
            Ok(JumpValue { union: JumpUnion::Offset { jump_offset: signed(be16(b@, pos as int), 65536) as i32 } })
        } else {
            Err(ParseError::UnexpectedEof)
        }),
{
    let (v, _) = read_i16(b, pos)?;
    Ok(JumpValue::new(v as i32))
}

fn pool_u16(b: &[u8], pos: usize) -> (r: Result<u16, ParseError>)
    ensures
        r == (if fits(b@, pos as int, 2) { Ok(be16(b@, pos as int) as u16) } else { Err(ParseError::UnexpectedEof) }),
{
    let (v, _) = read_u16(b, pos)?;
    Ok(v)
}

fn operand_u8(b: &[u8], pos: usize) -> (r: Result<u8, ParseError>)
    ensures
        r == (if fits(b@, pos as int, 1) { Ok(b@[pos as int]) } else { Err(ParseError::UnexpectedEof) }),
{
    let (v, _) = read_u8(b, pos)?;
    Ok(v)
}

impl Instruction {
    /// Decodes the operands of opcode `op`, which start at `pos`. Returns the
    /// instruction, the number of operand bytes and the opcode to record.
    pub fn parse(b: &[u8], pos: usize, op: u8) -> (r: Result<(Instruction, u8, u8), ParseError>)
        requires
            pos <= b.len(),
        ensures
            r == spec_instruction(b@, pos as int, op),
    {
        if op == 0 {
            Ok((Instruction::Nop, 0, op))
        } else if 1 <= op && op <= 15 {
            Ok((Instruction::Value, 0, op))
        } else if op == 16 {
            let (v, _) = read_i8(b, pos)?;
            Ok((Instruction::PushByte { value: v }, 1, op))
        } else if op == 17 {
            let (v, _) = read_i16(b, pos)?;
            Ok((Instruction::PushShort { value: v }, 2, op))
        } else if op == 18 {
            let v = operand_u8(b, pos)?;
            Ok((Instruction::ConstantPool { pool: v }, 1, op))
        } else if op == 19 || op == 20 {
            let v = pool_u16(b, pos)?;
            Ok((Instruction::ConstantPoolWide { pool: v }, 2, op))
        } else if 21 <= op && op <= 25 {
            let v = operand_u8(b, pos)?;
            Ok((Instruction::Load { var: v as u16 }, 1, op))
        } else if 26 <= op && op <= 45 {
            let k = op - ILOAD_0;
            Ok((Instruction::Load { var: (k % 4) as u16 }, 0, ILOAD + k / 4))
        } else if 46 <= op && op <= 53 {
            Ok((Instruction::ArrayLoad, 0, op))
        } else if 54 <= op && op <= 58 {
            let v = operand_u8(b, pos)?;
            Ok((Instruction::Store { var: v as u16 }, 1, op))
        } else if 59 <= op && op <= 78 {
            let k = op - ISTORE_0;
            Ok((Instruction::Store { var: (k % 4) as u16 }, 0, ISTORE + k / 4))
        } else if 79 <= op && op <= 86 {
            Ok((Instruction::ArrayStore, 0, op))
        } else if 87 <= op && op <= 95 {
            Ok((Instruction::Stack, 0, op))
        } else if 96 <= op && op <= 131 {
            Ok((Instruction::Math, 0, op))
        } else if op == 132 {
            let (var, p) = read_u8(b, pos)?;
            let (amount, _) = read_u8(b, p)?;
            Ok((Instruction::Increment { var: var as u16, amount }, 2, op))
        } else if 133 <= op && op <= 147 {
            Ok((Instruction::Conventions, 0, op))
        } else if 148 <= op && op <= 152 {
            Ok((Instruction::Comparison, 0, op))
        } else if (153 <= op && op <= 158) || op == 198 || op == 199 {
            let jump = jump_offset(b, pos)?;
            Ok((Instruction::ZeroComparisonJump { jump }, 2, op))
        } else if 159 <= op && op <= 166 {
            let jump = jump_offset(b, pos)?;
            Ok((Instruction::ComparisonJump { jump }, 2, op))
        } else if op == 167 || op == 168 {
            let jump = jump_offset(b, pos)?;
            Ok((Instruction::Jump { jump }, 2, op))
        } else if op == 200 || op == 201 {
            let (v, _) = read_i32(b, pos)?;
            Ok((Instruction::Jump { jump: JumpValue::new(v) }, 4, op))
        } else if 172 <= op && op <= 177 {
            Ok((Instruction::Return, 0, op))
        } else if op == 178 {
            let v = pool_u16(b, pos)?;
            Ok((Instruction::GetStaticField { pool_pos: v }, 2, op))
        } else if op == 179 {
            let v = pool_u16(b, pos)?;
            Ok((Instruction::PutStaticField { pool_pos: v }, 2, op))
        } else if op == 180 {
            let v = pool_u16(b, pos)?;
            Ok((Instruction::GetField { pool_pos: v }, 2, op))
        } else if op == 181 {
            let v = pool_u16(b, pos)?;
            Ok((Instruction::PutField { pool_pos: v }, 2, op))
        } else if 182 <= op && op <= 184 {
            let v = pool_u16(b, pos)?;
            Ok((Instruction::InvokeMethod { pool_pos: v }, 2, op))
        } else if op == INVOKEINTERFACE || op == INVOKEDYNAMIC {
            // two bytes of pool index, then two bytes that the call site does not need
            let (v, p) = read_u16(b, pos)?;
            let _ = read_u16(b, p)?;
            Ok((Instruction::InvokeMethod { pool_pos: v }, 4, op))
        } else if op == 187 || op == 189 {
            let v = pool_u16(b, pos)?;
            Ok((Instruction::New { pool_pos: v }, 2, op))
        } else if op == 188 {
            let v = operand_u8(b, pos)?;
            Ok((Instruction::NewPrimitiveArray { array_type: v }, 1, op))
        } else if op == 190 {
            Ok((Instruction::GetArrayLength, 0, op))
        } else if op == 191 {
            Ok((Instruction::Throw { pool_pos: 0 }, 0, op))
        } else if op == 192 {
            let v = pool_u16(b, pos)?;
            Ok((Instruction::Cast { pool_pos: v }, 2, op))
        } else if op == 193 {
            let v = pool_u16(b, pos)?;
            Ok((Instruction::Instanceof { pool_pos: v }, 2, op))
        } else if op == 194 || op == 195 {
            Ok((Instruction::Monitor, 0, op))
        } else if (169 <= op && op <= 171) || op == 196 || op == 197 {
            Err(ParseError::UnsupportedOpcode)
        } else {
            Err(ParseError::UnknownOpcode)
        }
    }
}

impl Op {
    /// Decodes the instruction that starts at `pos`; returns it with the
    /// position just after it.
    pub fn parse(b: &[u8], pos: usize) -> (r: Result<(Op, usize), ParseError>)
        ensures
            match r {
                Ok((o, end)) => spec_op(b@, pos as int) == Ok::<(Op, int), ParseError>((o, end as int)),
                Err(e) => spec_op(b@, pos as int) == Err::<(Op, int), ParseError>(e),
            },
    {
        let (op, p) = read_u8(b, pos)?;
        let (inst, n, op) = Instruction::parse(b, p, op)?;
        Ok((Op { op, inst, length: n + 1 }, p + n as usize))
    }
}

/// The instructions of `b` from `pos` to its end, each with its start
/// offset, decoded one after another; the first error where one fails, with
/// running out of bytes mid-instruction reported as truncated code.
pub open spec fn code_walk(b: Seq<u8>, pos: int) -> Result<Seq<(int, Op)>, ParseError>
    decreases b.len() - pos,
{
    if pos < 0 || pos >= b.len() {
        Ok(Seq::empty())
    } else {
        match spec_instruction(b, pos + 1, b[pos]) {
            Err(e) => Err(if e == ParseError::UnexpectedEof { ParseError::TruncatedCode } else { e }),
            Ok((inst, n, op)) => prepend(
                seq![(pos, Op { op, inst, length: (n + 1) as u8 })],
                code_walk(b, pos + 1 + n),
            ),
        }
    }
}

pub open spec fn prepend(w: Seq<(int, Op)>, r: Result<Seq<(int, Op)>, ParseError>) -> Result<Seq<(int, Op)>, ParseError> {
    match r {
        Ok(rest) => Ok(w + rest),
        Err(e) => Err(e),
    }
}

/// `starts` and `ops` list the decoded instructions `w` in order.
pub open spec fn lists_walk(w: Seq<(int, Op)>, starts: Seq<u32>, ops: Seq<Op>) -> bool {
    &&& starts.len() == w.len()
    &&& ops.len() == w.len()
    &&& forall|k: int| 0 <= k < w.len() ==> starts[k] as int == w[k].0 && ops[k] == w[k].1
}

/// `map` sends every byte of the code to the index of the instruction that
/// covers it.
pub open spec fn byte_map_exact(map: Seq<u32>, starts: Seq<u32>, ops: Seq<Op>) -> bool {
    &&& forall|k: int| 0 <= k < ops.len() ==> #[trigger] starts[k] + ops[k].length <= map.len()
    &&& forall|k: int, j: int| #![trigger starts[k], map[j]]
        0 <= k < ops.len() && starts[k] <= j < starts[k] + ops[k].length ==> map[j] == k
}

/// `map` names for every byte an instruction that covers it.
pub open spec fn byte_map_covers(map: Seq<u32>, starts: Seq<u32>, ops: Seq<Op>) -> bool {
    forall|j: int| 0 <= j < map.len() ==> #[trigger] map[j] < ops.len()
        && starts[map[j] as int] <= j < starts[map[j] as int] + ops[map[j] as int].length
}

/// The byte map of a code of `n` instructions: non-decreasing, starting at
/// zero, and reaching `n - 1` at its last byte.
pub open spec fn byte_map_shape(map: Seq<u32>, n: int) -> bool {
    &&& forall|i: int, j: int| 0 <= i <= j < map.len() ==> map[i] <= map[j]
    &&& forall|i: int| 0 <= i < map.len() ==> map[i] < n
    &&& map.len() > 0 ==> map[0] == 0 && map[map.len() - 1] == n - 1
}

/// Decodes a whole method body. Returns the start offset of each
/// instruction, the instructions, and the map from each byte of the code to
/// the index of the instruction that covers it.
pub fn decode_code(code: &[u8]) -> (r: Result<(Vec<u32>, Vec<Op>, Vec<u32>), ParseError>)
    requires
        code.len() <= u32::MAX,
    ensures
        match r {
            Ok((starts, ops, map)) => {
                &&& code_walk(code@, 0) matches Ok(w) && lists_walk(w, starts@, ops@)
                &&& map.len() == code.len()
                &&& ops.len() <= code.len()
                &&& byte_map_exact(map@, starts@, ops@)
                &&& byte_map_covers(map@, starts@, ops@)
                &&& byte_map_shape(map@, ops.len() as int)
            },
            Err(e) => code_walk(code@, 0) == Err::<Seq<(int, Op)>, ParseError>(e),
        },
{
    let mut starts: Vec<u32> = Vec::new();
    let mut ops: Vec<Op> = Vec::new();
    let mut map: Vec<u32> = Vec::new();
    let mut pos: usize = 0;
    let ghost mut done: Seq<(int, Op)> = Seq::empty();
    while pos < code.len()
        invariant
            pos <= code.len() <= u32::MAX,
            map.len() == pos,
            lists_walk(done, starts@, ops@),
            code_walk(code@, 0) == prepend(done, code_walk(code@, pos as int)),
            byte_map_exact(map@, starts@, ops@),
            byte_map_covers(map@, starts@, ops@),
            byte_map_shape(map@, ops.len() as int),
            ops.len() <= pos,
            ops.len() > 0 ==> starts@[ops.len() - 1] + ops@[ops.len() - 1].length == pos,
            ops.len() == 0 ==> pos == 0,
            forall|k: int| 0 <= k < ops.len() ==> ops@[k].length >= 1,
        decreases code.len() - pos,
    {
        let ghost before = code_walk(code@, pos as int);
        let (op, end) = match Op::parse(code, pos) {
            Ok(x) => x,
            Err(e) => {
                return Err(if e == ParseError::UnexpectedEof { ParseError::TruncatedCode } else { e });
            },
        };
        let n = ops.len();
        let len = op.length;
        let ghost map0 = map@;
        let mut j: u8 = 0;
        while j < len
            invariant
                0 <= j <= len,
                len == op.length,
                end == pos + len,
                map.len() == pos + j,
                pos + len <= code.len() <= u32::MAX,
                ops.len() == n,
                starts.len() == n,
                n <= pos,
                map0.len() == pos,
                map@.subrange(0, pos as int) == map0,
                byte_map_exact(map0, starts@, ops@),
                byte_map_covers(map0, starts@, ops@),
                forall|i: int| pos <= i < pos + j ==> map@[i] == n,
                forall|i: int| 0 <= i < pos ==> map@[i] < n,
                forall|i: int, k: int| 0 <= i <= k < pos ==> map@[i] <= map@[k],
                pos > 0 ==> map@[0] == 0 && map@[pos - 1] == n - 1,
                pos == 0 ==> n == 0,
            decreases len - j,
        {
            map.push(n as u32);
            j = j + 1;
            assert(map@.subrange(0, pos as int) =~= map0);
        }
        proof {
            assert(done + (seq![(pos as int, op)] + code_walk(code@, end as int)->Ok_0)
                =~= (done + seq![(pos as int, op)]) + code_walk(code@, end as int)->Ok_0);
            done = done + seq![(pos as int, op)];
        }
        let ghost starts0 = starts@;
        let ghost ops0 = ops@;
        assert(byte_map_exact(map0, starts0, ops0));
        starts.push(pos as u32);
        ops.push(op);
        proof {
            assert forall|i: int| 0 <= i < map.len() implies #[trigger] map@[i] < ops.len()
                && starts@[map@[i] as int] <= i < starts@[map@[i] as int] + ops@[map@[i] as int].length by {
                if i < pos {
                    assert(map@.subrange(0, pos as int)[i] == map@[i]);
                    assert(map0[i] == map@[i]);
                    let c = map0[i] as int;
                    assert(starts0[c] == starts@[c] && ops0[c] == ops@[c]);
                }
            }
            assert forall|k: int| 0 <= k < ops.len() implies #[trigger] starts@[k] + ops@[k].length <= map.len() by {
                if k < n {
                    assert(starts0[k] == starts@[k] && ops0[k] == ops@[k]);
                }
            }
            assert forall|k: int, i: int| #![trigger starts@[k], map@[i]]
                0 <= k < ops.len() && starts@[k] <= i < starts@[k] + ops@[k].length implies map@[i] == k by {
                if k < n {
                    assert(starts0[k] == starts@[k] && ops0[k] == ops@[k]);
                    assert(starts0[k] + ops0[k].length <= map0.len());
                    assert(map0[i] == k);
                    assert(map@.subrange(0, pos as int)[i] == map@[i]);
                }
            }
        }
        pos = end;
    }
    Ok((starts, ops, map))
}

/// The branch of a conditional or unconditional jump.
pub open spec fn jump_of(inst: Instruction) -> Option<JumpValue> {
    match inst {
        Instruction::ComparisonJump { jump } => Some(jump),
        Instruction::ZeroComparisonJump { jump } => Some(jump),
        Instruction::Jump { jump } => Some(jump),
        _ => None,
    }
}

pub open spec fn is_conditional(inst: Instruction) -> bool {
    inst is ComparisonJump || inst is ZeroComparisonJump
}

/// What resolving a branch written at byte `op_byte` gives, with `map` the
/// byte-to-instruction map of the code.
pub open spec fn spec_apply(u: JumpUnion, op_byte: int, map: Seq<u32>) -> Result<JumpUnion, ParseError> {
    match u {
        JumpUnion::Offset { jump_offset } => {
            let t = op_byte + jump_offset;
            if 0 <= t < map.len() {
                Ok(JumpUnion::Pos { jump_pos: map[t] })
            } else {
                Err(ParseError::JumpOutOfRange)
            }
        },
        JumpUnion::Pos { .. } => Ok(u),
    }
}

impl JumpUnion {
    /// Turns a byte offset taken at byte `op_byte` into the index of the
    /// instruction that covers the byte it reaches.
    pub fn apply(&mut self, op_byte: u32, op_byte_to_op: &Vec<u32>) -> (r: Result<(), ParseError>)
        requires
            op_byte_to_op.len() <= u32::MAX,
        ensures
            match spec_apply(*old(self), op_byte as int, op_byte_to_op@) {
                Ok(u) => r is Ok && *final(self) == u,
                Err(e) => r == Err::<(), ParseError>(e) && *final(self) == *old(self),
            },
    {
        match *self {
            JumpUnion::Offset { jump_offset } => {
                let t: i64 = op_byte as i64 + jump_offset as i64;
                if 0 <= t && t < op_byte_to_op.len() as i64 {
                    *self = JumpUnion::Pos { jump_pos: op_byte_to_op[t as usize] };
                    Ok(())
                } else {
                    Err(ParseError::JumpOutOfRange)
                }
            },
            JumpUnion::Pos { .. } => Ok(()),
        }
    }
}

/// The instruction at index `k` of `n`, which starts at byte `op_byte`, with
/// its branch resolved. A conditional branch needs an instruction after it
/// for its false edge.
pub open spec fn spec_resolve(inst: Instruction, op_byte: int, map: Seq<u32>, k: int, n: int) -> Result<Instruction, ParseError> {
    match inst {
        Instruction::ComparisonJump { jump } => if k + 1 >= n {
            Err(ParseError::JumpOutOfRange)
        } else {
            match spec_apply(jump.union, op_byte, map) {
                Ok(u) => Ok(Instruction::ComparisonJump { jump: JumpValue { union: u } }),
                Err(e) => Err(e),
            }
        },
        Instruction::ZeroComparisonJump { jump } => if k + 1 >= n {
            Err(ParseError::JumpOutOfRange)
        } else {
            match spec_apply(jump.union, op_byte, map) {
                Ok(u) => Ok(Instruction::ZeroComparisonJump { jump: JumpValue { union: u } }),
                Err(e) => Err(e),
            }
        },
        Instruction::Jump { jump } => match spec_apply(jump.union, op_byte, map) {
            Ok(u) => Ok(Instruction::Jump { jump: JumpValue { union: u } }),
            Err(e) => Err(e),
        },
        Instruction::SwitchJump { .. } => Err(ParseError::UnsupportedOpcode),
        _ => Ok(inst),
    }
}

/// The instruction `o` at index `k` of a code of `n` instructions has its
/// branch resolved, and a conditional branch has an instruction after it.
pub open spec fn resolved_at(o: Op, k: int, n: int) -> bool {
    &&& !(o.inst is SwitchJump)
    &&& (jump_of(o.inst) matches Some(j) ==> j.union matches JumpUnion::Pos { jump_pos } && jump_pos < n)
    &&& (is_conditional(o.inst) ==> k + 1 < n)
}

/// Branches in `ops` are resolved to instruction indices below `n`, and no
/// switch is left.
pub open spec fn jumps_resolved(ops: Seq<Op>, n: int) -> bool {
    forall|k: int| 0 <= k < ops.len() ==> resolved_at(#[trigger] ops[k], k, n)
}

proof fn lemma_resolve_resolved(o: Op, out: Instruction, op_byte: int, map: Seq<u32>, k: int, n: int)
    requires
        spec_resolve(o.inst, op_byte, map, k, n) == Ok::<Instruction, ParseError>(out),
        forall|i: int| 0 <= i < map.len() ==> map[i] < n,
        unresolved(o.inst),
    ensures
        resolved_at(Op { op: o.op, inst: out, length: o.length }, k, n),
{
    if let Some(j) = jump_of(o.inst) {
        if let JumpUnion::Offset { jump_offset } = j.union {
            let t = op_byte + jump_offset;
            if 0 <= t < map.len() {
                assert(map[t] < n);
            }
        }
    }
}

/// The branch of `inst`, if it has one, is not resolved yet.
pub open spec fn unresolved(inst: Instruction) -> bool {
    jump_of(inst) matches Some(j) ==> j.union is Offset
}

/// No branch of `ops` is resolved yet.
pub open spec fn all_unresolved(ops: Seq<Op>) -> bool {
    forall|k: int| 0 <= k < ops.len() ==> unresolved(#[trigger] ops[k].inst)
}

/// Resolves every branch of the decoded code in place: `starts` and `map`
/// are those that `decode_code` returned with `ops`.
pub fn resolve_jumps(starts: &Vec<u32>, ops: &mut Vec<Op>, map: &Vec<u32>) -> (r: Result<(), ParseError>)
    requires
        starts.len() == old(ops).len(),
        map.len() <= u32::MAX,
        all_unresolved(old(ops)@),
        forall|i: int| 0 <= i < map.len() ==> map@[i] < old(ops).len(),
    ensures
        final(ops).len() == old(ops).len(),
        match r {
            Ok(()) => {
                &&& forall|k: int| 0 <= k < old(ops).len() ==>
                    spec_resolve(#[trigger] old(ops)@[k].inst, starts@[k] as int, map@, k, old(ops).len() as int)
                        == Ok::<Instruction, ParseError>(final(ops)@[k].inst)
                        && final(ops)@[k].op == old(ops)@[k].op && final(ops)@[k].length == old(ops)@[k].length
                &&& jumps_resolved(final(ops)@, old(ops).len() as int)
            },
            Err(e) => exists|k: int| 0 <= k < old(ops).len()
                && spec_resolve(#[trigger] old(ops)@[k].inst, starts@[k] as int, map@, k, old(ops).len() as int)
                    == Err::<Instruction, ParseError>(e),
        },
{
    let n = ops.len();
    let ghost ops0 = ops@;
    let mut k: usize = 0;
    while k < n
        invariant
            n == ops.len() == ops0.len() == starts.len(),
            ops0 == old(ops)@,
            k <= n,
            map.len() <= u32::MAX,
            forall|i: int| 0 <= i < map.len() ==> map@[i] < n,
            forall|i: int| 0 <= i < k ==>
                spec_resolve(#[trigger] ops0[i].inst, starts@[i] as int, map@, i, n as int)
                    == Ok::<Instruction, ParseError>(ops@[i].inst)
                    && ops@[i].op == ops0[i].op && ops@[i].length == ops0[i].length,
            forall|i: int| k <= i < n ==> #[trigger] ops@[i] == ops0[i],
            all_unresolved(ops0),
            forall|i: int| 0 <= i < k ==> resolved_at(#[trigger] ops@[i], i, n as int),
        decreases n - k,
    {
        let at = starts[k];
        let last = k + 1 >= n;
        let res = match &mut ops[k].inst {
            Instruction::ComparisonJump { jump } => {
                if last { Err(ParseError::JumpOutOfRange) } else { jump.union.apply(at, map) }
            },
            Instruction::ZeroComparisonJump { jump } => {
                if last { Err(ParseError::JumpOutOfRange) } else { jump.union.apply(at, map) }
            },
            Instruction::Jump { jump } => jump.union.apply(at, map),
            Instruction::SwitchJump { .. } => Err(ParseError::UnsupportedOpcode),
            _ => Ok(()),
        };
        if let Err(e) = res {
            assert(spec_resolve(ops0[k as int].inst, starts@[k as int] as int, map@, k as int, n as int)
                == Err::<Instruction, ParseError>(e));
            assert(exists|i: int| 0 <= i < ops0.len()
                && spec_resolve(#[trigger] ops0[i].inst, starts@[i] as int, map@, i, ops0.len() as int)
                    == Err::<Instruction, ParseError>(e));
            return Err(e);
        }
        proof {
            lemma_resolve_resolved(ops0[k as int], ops@[k as int].inst, starts@[k as int] as int, map@, k as int, n as int);
            assert(ops@[k as int] == Op { op: ops0[k as int].op, inst: ops@[k as int].inst, length: ops0[k as int].length });
        }
        k = k + 1;
    }
    Ok(())
}

/// A basic block: the instructions `[start, stop)`, the blocks that can pass
/// control to it, and how control leaves it.
pub struct CodeChunk {
    pub start: u32,
    pub stop: u32,
    pub source: Vec<u32>,
    pub target: CodeChunkTarget,
}

/// How control leaves a block. A conditional's false edge, like a
/// fall-through, goes to the next block.
#[derive(Debug, Clone, PartialEq, Eq)]
pub enum CodeChunkTarget {
    Basic,
    Return,
    Throw,
    Condition { true_chunk_pos: u32 },
    Goto { chunk_pos: u32 },
    Switch { targets: Vec<u32> },
}

/// Instruction `j` makes `i` the first instruction of a block: `i` follows
/// a branch, a return or a throw, or a branch leads to `i`.
pub open spec fn splits_at(ops: Seq<Op>, j: int, i: int) -> bool {
    match ops[j].inst {
        Instruction::Return => i == j + 1,
        Instruction::Throw { .. } => i == j + 1,
        _ => match jump_of(ops[j].inst) {
            Some(jv) => i == j + 1 || (jv.union matches JumpUnion::Pos { jump_pos } && jump_pos == i),
            None => false,
        },
    }
}

/// `i` is a block boundary of the code `ops`: its start, its end, or a split point.
pub open spec fn is_split(ops: Seq<Op>, i: int) -> bool {
    i == 0 || i == ops.len() || exists|j: int| 0 <= j < ops.len() && #[trigger] splits_at(ops, j, i)
}

/// Marks every block boundary of `ops` in a vector of `ops.len() + 1` flags.
pub fn split_marks(ops: &Vec<Op>) -> (marks: Vec<bool>)
    requires
        ops.len() < u32::MAX,
        jumps_resolved(ops@, ops.len() as int),
    ensures
        marks.len() == ops.len() + 1,
        forall|i: int| 0 <= i <= ops.len() ==> marks@[i] == is_split(ops@, i),
{
    let n = ops.len();
    let mut marks: Vec<bool> = vec![false; n + 1];
    marks.set(0, true);
    marks.set(n, true);
    let mut j: usize = 0;
    while j < n
        invariant
            n == ops.len() < u32::MAX,
            j <= n,
            marks.len() == n + 1,
            jumps_resolved(ops@, n as int),
            forall|i: int| 0 <= i <= n ==> marks@[i] == (i == 0 || i == n
                || exists|j2: int| 0 <= j2 < j && #[trigger] splits_at(ops@, j2, i)),
        decreases n - j,
    {
        let ghost before = marks@;
        match &ops[j].inst {
            Instruction::Return | Instruction::Throw { .. } => {
                marks.set(j + 1, true);
            },
            Instruction::ComparisonJump { jump } | Instruction::ZeroComparisonJump { jump } | Instruction::Jump { jump } => {
                marks.set(j + 1, true);
                if let JumpUnion::Pos { jump_pos } = jump.union {
                    marks.set(jump_pos as usize, true);
                }
            },
            _ => {},
        }
        proof {
            assert(resolved_at(ops@[j as int], j as int, n as int));
            assert forall|i: int| 0 <= i <= n implies marks@[i] == (i == 0 || i == n
                || exists|j2: int| 0 <= j2 < j + 1 && #[trigger] splits_at(ops@, j2, i)) by {
                if splits_at(ops@, j as int, i) {
                    assert(marks@[i]);
                } else {
                    assert(marks@[i] == before[i]);
                    if exists|j2: int| 0 <= j2 < j + 1 && #[trigger] splits_at(ops@, j2, i) {
                        let j2 = choose|j2: int| 0 <= j2 < j + 1 && #[trigger] splits_at(ops@, j2, i);
                        assert(j2 < j);
                    }
                }
            }
        }
        j = j + 1;
    }
    marks
}

/// The blocks cover `[0, n)` in order, each one non-empty and each starting
/// where the one before it stops.
pub open spec fn chunks_partition(chunks: Seq<CodeChunk>, n: int) -> bool {
    &&& (n == 0 <==> chunks.len() == 0)
    &&& chunks.len() > 0 ==> chunks[0].start == 0 && chunks[chunks.len() - 1].stop == n
    &&& forall|k: int| 0 <= k < chunks.len() ==> #[trigger] chunks[k].start < chunks[k].stop
    &&& forall|k: int| 0 <= k < chunks.len() - 1 ==> #[trigger] chunks[k].stop == chunks[k + 1].start
}

/// `to_chunk` sends each of the `n` instructions to the block that holds it.
pub open spec fn chunk_map(chunks: Seq<CodeChunk>, to_chunk: Seq<u32>, n: int) -> bool {
    &&& to_chunk.len() == n
    &&& forall|i: int| 0 <= i < n ==> #[trigger] to_chunk[i] < chunks.len()
        && chunks[to_chunk[i] as int].start <= i < chunks[to_chunk[i] as int].stop
}

/// The blocks start exactly at the marked instructions.
pub open spec fn starts_at_marks(chunks: Seq<CodeChunk>, marks: Seq<bool>, n: int) -> bool {
    forall|i: int| 0 <= i < n ==> (marks[i] <==> exists|k: int| 0 <= k < chunks.len() && #[trigger] chunks[k].start == i)
}

/// Cuts the `n` instructions into blocks at the marked positions; every
/// block leaves by falling through and has no predecessor yet.
pub fn build_chunks(n: usize, marks: &Vec<bool>) -> (r: (Vec<CodeChunk>, Vec<u32>))
    requires
        n < u32::MAX,
        marks.len() == n + 1,
        marks@[0],
        marks@[n as int],
    ensures
        r.0.len() <= n,
        chunks_partition(r.0@, n as int),
        chunk_map(r.0@, r.1@, n as int),
        starts_at_marks(r.0@, marks@, n as int),
        forall|k: int| 0 <= k < r.0.len() ==> (#[trigger] r.0@[k]).source@.len() == 0 && r.0@[k].target is Basic,
{
    let mut chunks: Vec<CodeChunk> = Vec::new();
    let mut to_chunk: Vec<u32> = Vec::new();
    let mut last: u32 = 0;
    let mut i: usize = 1;
    while i <= n
        invariant
            n < u32::MAX,
            marks.len() == n + 1,
            marks@[0],
            marks@[n as int],
            1 <= i <= n + 1,
            to_chunk.len() == i - 1,
            last <= i - 1,
            chunks.len() <= last,
            chunks.len() == 0 ==> last == 0,
            chunks.len() > 0 ==> chunks@[0].start == 0 && chunks@[chunks.len() - 1].stop == last,
            forall|k: int| 0 <= k < chunks.len() ==> #[trigger] chunks@[k].start < chunks@[k].stop,
            forall|k: int| 0 <= k < chunks.len() - 1 ==> #[trigger] chunks@[k].stop == chunks@[k + 1].start,
            forall|k: int| 0 <= k < chunks.len() ==> marks@[#[trigger] chunks@[k].start as int],
            forall|k: int, m: int| #![trigger chunks@[k], marks@[m]] 0 <= k < chunks.len() && chunks@[k].start < m < chunks@[k].stop ==> !marks@[m],
            forall|m: int| last < m < i ==> !(#[trigger] marks@[m]),
            marks@[last as int],
            forall|m: int| 0 <= m < i - 1 ==> {
                &&& #[trigger] to_chunk@[m] <= chunks.len()
                &&& to_chunk@[m] < chunks.len() ==> chunks@[to_chunk@[m] as int].start <= m < chunks@[to_chunk@[m] as int].stop
                &&& to_chunk@[m] == chunks.len() ==> last <= m
            },
            forall|k: int| 0 <= k < chunks.len() ==> (#[trigger] chunks@[k]).source@.len() == 0 && chunks@[k].target is Basic,
        decreases n + 1 - i,
    {
        to_chunk.push(chunks.len() as u32);
        if marks[i] {
            chunks.push(CodeChunk { start: last, stop: i as u32, source: Vec::new(), target: CodeChunkTarget::Basic });
            last = i as u32;
        }
        i = i + 1;
    }
    proof {
        assert forall|m: int| 0 <= m < n implies (marks@[m] <==> exists|k: int| 0 <= k < chunks.len() && #[trigger] chunks@[k].start == m) by {
            let c = to_chunk@[m] as int;
            if marks@[m] {
                assert(chunks@[c].start == m);
            }
        }
    }
    (chunks, to_chunk)
}

/// The exit of block `c` follows from its last instruction: a branch leads
/// to the block that starts at its target, and a conditional block has a
/// next block for its false edge.
pub open spec fn exit_matches(chunks: Seq<CodeChunk>, ops: Seq<Op>, c: int) -> bool {
    let inst = ops[chunks[c].stop - 1].inst;
    match inst {
        Instruction::Return => chunks[c].target is Return,
        Instruction::Throw { .. } => chunks[c].target is Throw,
        _ => match jump_of(inst) {
            Some(jv) => match jv.union {
                JumpUnion::Pos { jump_pos } => if is_conditional(inst) {
                    &&& chunks[c].target matches CodeChunkTarget::Condition { true_chunk_pos }
                        && true_chunk_pos < chunks.len() && chunks[true_chunk_pos as int].start == jump_pos
                    &&& c + 1 < chunks.len()
                } else {
                    chunks[c].target matches CodeChunkTarget::Goto { chunk_pos }
                        && chunk_pos < chunks.len() && chunks[chunk_pos as int].start == jump_pos
                },
                JumpUnion::Offset { .. } => false,
            },
            None => chunks[c].target is Basic,
        },
    }
}

/// Block `s` is a successor of block `p` by the exit of `p`.
pub open spec fn successor(chunks: Seq<CodeChunk>, p: int, s: int) -> bool {
    match chunks[p].target {
        CodeChunkTarget::Basic => s == p + 1,
        CodeChunkTarget::Return => false,
        CodeChunkTarget::Throw => false,
        CodeChunkTarget::Condition { true_chunk_pos } => s == true_chunk_pos || s == p + 1,
        CodeChunkTarget::Goto { chunk_pos } => s == chunk_pos,
        CodeChunkTarget::Switch { targets } => targets@.contains(s as u32),
    }
}

/// The predecessor list of each block holds, once each, exactly the blocks
/// that it is a successor of.
pub open spec fn preds_exact(chunks: Seq<CodeChunk>) -> bool {
    &&& forall|s: int| 0 <= s < chunks.len() ==> (#[trigger] chunks[s]).source@.no_duplicates()
    &&& forall|s: int, q: int| #![trigger chunks[s].source@[q]]
        0 <= s < chunks.len() && 0 <= q < chunks[s].source@.len() ==> chunks[s].source@[q] < chunks.len()
    &&& forall|s: int, p: int| #![trigger chunks[s].source@.contains(p as u32), successor(chunks, p, s)]
        0 <= s < chunks.len() && 0 <= p < chunks.len()
        ==> (chunks[s].source@.contains(p as u32) <==> successor(chunks, p, s))
}

/// A lifted method body: its instructions, with every branch resolved to
/// an instruction index, and its basic blocks.
pub struct Code {
    pub max_stack: u16,
    pub max_locals: u16,
    pub code: Vec<Op>,
    pub code_chunks: Vec<CodeChunk>,
    pub exception_table: Vec<AttributeException>,
    pub attribute_info: Vec<AttributeInfo>,
}

impl Code {
    /// The instructions and blocks form a lifted body.
    pub open spec fn wf(&self) -> bool {
        lifted(self.code@, self.code_chunks@)
    }

    /// Records block `from` as a predecessor of block `to`, unless it was
    /// the last one recorded there.
    pub fn add_source(chunks: &mut Vec<CodeChunk>, from: u32, to: u32)
        requires
            to < old(chunks).len(),
        ensures
            final(chunks).len() == old(chunks).len(),
            forall|k: int| 0 <= k < old(chunks).len() && k != to ==> #[trigger] final(chunks)@[k] == old(chunks)@[k],
            final(chunks)@[to as int].start == old(chunks)@[to as int].start,
            final(chunks)@[to as int].stop == old(chunks)@[to as int].stop,
            final(chunks)@[to as int].target == old(chunks)@[to as int].target,
            final(chunks)@[to as int].source@ == if old(chunks)@[to as int].source@.len() > 0
                && old(chunks)@[to as int].source@.last() == from {
                old(chunks)@[to as int].source@
            } else {
                old(chunks)@[to as int].source@.push(from)
            },
    {
        let t = to as usize;
        let n = chunks[t].source.len();
        if n > 0 && chunks[t].source[n - 1] == from {
            return;
        }
        chunks[t].source.push(from);
    }
}

/// The blocks start exactly at the block boundaries of `ops`.
pub open spec fn starts_at_splits(chunks: Seq<CodeChunk>, ops: Seq<Op>) -> bool {
    forall|i: int| 0 <= i < ops.len() ==> (is_split(ops, i) <==> exists|k: int| 0 <= k < chunks.len() && #[trigger] chunks[k].start == i)
}

/// In a partition, an earlier block stops no later than a later one starts.
pub proof fn lemma_chunks_sorted(chunks: Seq<CodeChunk>, n: int, i: int, j: int)
    requires
        chunks_partition(chunks, n),
        0 <= i < j < chunks.len(),
    ensures
        chunks[i].stop <= chunks[j].start,
    decreases j - i,
{
    if j > i + 1 {
        lemma_chunks_sorted(chunks, n, i, j - 1);
        assert(chunks[j - 1].start < chunks[j - 1].stop);
        assert(chunks[j - 1].stop == chunks[j].start);
    } else {
        assert(chunks[i].stop == chunks[i + 1].start);
    }
}

/// The block that holds the start of block `k` is block `k`.
proof fn lemma_chunk_unique(chunks: Seq<CodeChunk>, n: int, c: int, k: int)
    requires
        chunks_partition(chunks, n),
        0 <= c < chunks.len(),
        0 <= k < chunks.len(),
        chunks[c].start <= chunks[k].start < chunks[c].stop,
    ensures
        c == k,
{
    if c < k {
        lemma_chunks_sorted(chunks, n, c, k);
    } else if k < c {
        lemma_chunks_sorted(chunks, n, k, c);
        assert(chunks[k].start < chunks[k].stop);
    }
}

/// The block that starts at instruction `t`, found through `to_chunk`.
proof fn lemma_chunk_at(chunks: Seq<CodeChunk>, ops: Seq<Op>, to_chunk: Seq<u32>, t: int)
    requires
        chunks_partition(chunks, ops.len() as int),
        chunk_map(chunks, to_chunk, ops.len() as int),
        starts_at_splits(chunks, ops),
        0 <= t < ops.len(),
        is_split(ops, t),
    ensures
        chunks[to_chunk[t] as int].start == t,
{
    let k = choose|k: int| 0 <= k < chunks.len() && #[trigger] chunks[k].start == t;
    lemma_chunk_unique(chunks, ops.len() as int, to_chunk[t] as int, k);
}

/// Blocks `chunks` and `old` have the same instruction ranges.
pub open spec fn same_ranges(chunks: Seq<CodeChunk>, old: Seq<CodeChunk>) -> bool {
    &&& chunks.len() == old.len()
    &&& forall|k: int| 0 <= k < chunks.len() ==> (#[trigger] chunks[k]).start == old[k].start && chunks[k].stop == old[k].stop
}

proof fn lemma_same_ranges_keeps(chunks: Seq<CodeChunk>, orig: Seq<CodeChunk>, ops: Seq<Op>)
    requires
        same_ranges(chunks, orig),
        chunks_partition(orig, ops.len() as int),
        starts_at_splits(orig, ops),
    ensures
        chunks_partition(chunks, ops.len() as int),
        starts_at_splits(chunks, ops),
{
    assert forall|k: int| 0 <= k < chunks.len() implies #[trigger] chunks[k].start == orig[k].start
        && chunks[k].stop == orig[k].stop by {}
    assert forall|i: int| 0 <= i < ops.len() implies (is_split(ops, i) <==> exists|k: int| 0 <= k < chunks.len() && #[trigger] chunks[k].start == i) by {
        if is_split(ops, i) {
            let k = choose|k: int| 0 <= k < orig.len() && #[trigger] orig[k].start == i;
            assert(chunks[k].start == i);
        }
        if exists|k: int| 0 <= k < chunks.len() && #[trigger] chunks[k].start == i {
            let k = choose|k: int| 0 <= k < chunks.len() && #[trigger] chunks[k].start == i;
            assert(orig[k].start == i);
        }
    }
}

/// Gives every block its exit, read from its last instruction.
pub fn set_exits(ops: &Vec<Op>, chunks: &mut Vec<CodeChunk>, to_chunk: &Vec<u32>)
    requires
        ops.len() < u32::MAX,
        jumps_resolved(ops@, ops.len() as int),
        chunks_partition(old(chunks)@, ops.len() as int),
        chunk_map(old(chunks)@, to_chunk@, ops.len() as int),
        starts_at_splits(old(chunks)@, ops@),
    ensures
        same_ranges(final(chunks)@, old(chunks)@),
        chunks_partition(final(chunks)@, ops.len() as int),
        starts_at_splits(final(chunks)@, ops@),
        forall|k: int| 0 <= k < final(chunks).len() ==> (#[trigger] final(chunks)@[k]).source@ == old(chunks)@[k].source@,
        forall|c: int| 0 <= c < final(chunks).len() ==> exit_matches(final(chunks)@, ops@, c),
{
    let ghost orig = chunks@;
    let n = ops.len();
    let len = chunks.len();
    let mut c: usize = 0;
    while c < len
        invariant
            n == ops.len() < u32::MAX,
            len == chunks.len() == orig.len(),
            orig == old(chunks)@,
            c <= len,
            jumps_resolved(ops@, n as int),
            chunks_partition(orig, n as int),
            chunk_map(orig, to_chunk@, n as int),
            starts_at_splits(orig, ops@),
            same_ranges(chunks@, orig),
            forall|k: int| 0 <= k < len ==> (#[trigger] chunks@[k]).source@ == orig[k].source@,
            forall|k: int| 0 <= k < c ==> exit_matches(chunks@, ops@, k),
        decreases len - c,
    {
        let last = (chunks[c].stop - 1) as usize;
        proof {
            assert(orig[c as int].start < orig[c as int].stop);
            if c + 1 < len {
                assert(orig[c as int].stop == orig[c + 1].start);
            }
            assert(last < n) by {
                if c + 1 < len {
                    lemma_chunks_sorted(orig, n as int, c as int, len - 1);
                }
            }
            assert(resolved_at(ops@[last as int], last as int, n as int));
        }
        let target = match &ops[last].inst {
            Instruction::Return => CodeChunkTarget::Return,
            Instruction::Throw { .. } => CodeChunkTarget::Throw,
            Instruction::ComparisonJump { jump } | Instruction::ZeroComparisonJump { jump } => match jump.union {
                JumpUnion::Pos { jump_pos } => {
                    proof {
                        assert(splits_at(ops@, last as int, jump_pos as int));
                        lemma_chunk_at(orig, ops@, to_chunk@, jump_pos as int);
                        assert(splits_at(ops@, last as int, last + 1));
                        let k = choose|k: int| 0 <= k < orig.len() && #[trigger] orig[k].start == last + 1;
                        if c + 1 >= len {
                            assert(k < c + 1);
                            if k < c {
                                lemma_chunks_sorted(orig, n as int, k, c as int);
                            }
                        }
                    }
                    CodeChunkTarget::Condition { true_chunk_pos: to_chunk[jump_pos as usize] }
                },
                JumpUnion::Offset { .. } => CodeChunkTarget::Basic,
            },
            Instruction::Jump { jump } => match jump.union {
                JumpUnion::Pos { jump_pos } => {
                    proof {
                        assert(splits_at(ops@, last as int, jump_pos as int));
                        lemma_chunk_at(orig, ops@, to_chunk@, jump_pos as int);
                    }
                    CodeChunkTarget::Goto { chunk_pos: to_chunk[jump_pos as usize] }
                },
                JumpUnion::Offset { .. } => CodeChunkTarget::Basic,
            },
            _ => CodeChunkTarget::Basic,
        };
        let ghost prev = chunks@;
        chunks[c].target = target;
        proof {
            assert forall|k: int| 0 <= k < c + 1 implies exit_matches(chunks@, ops@, k) by {
                if k < c {
                    assert(exit_matches(prev, ops@, k));
                    assert(chunks@[k] == prev[k]);
                    assert(forall|t: int| 0 <= t < len ==> #[trigger] chunks@[t].start == prev[t].start);
                }
            }
        }
        c = c + 1;
    }
    proof {
        lemma_same_ranges_keeps(chunks@, orig, ops@);
    }
}

/// `chunks` keeps the ranges and exits of `old`.
pub open spec fn same_shape(chunks: Seq<CodeChunk>, old: Seq<CodeChunk>) -> bool {
    &&& same_ranges(chunks, old)
    &&& forall|k: int| 0 <= k < chunks.len() ==> (#[trigger] chunks[k]).target == old[k].target
}

/// The exit of block `c` of `len` blocks names blocks that exist and is no switch.
pub open spec fn exit_shape(chunk: CodeChunk, c: int, len: int) -> bool {
    match chunk.target {
        CodeChunkTarget::Condition { true_chunk_pos } => true_chunk_pos < len && c + 1 < len,
        CodeChunkTarget::Goto { chunk_pos } => chunk_pos < len,
        CodeChunkTarget::Switch { .. } => false,
        _ => true,
    }
}

proof fn lemma_exit_shape(chunks: Seq<CodeChunk>, ops: Seq<Op>, c: int)
    requires
        0 <= c < chunks.len(),
        exit_matches(chunks, ops, c),
    ensures
        exit_shape(chunks[c], c, chunks.len() as int),
{
}

/// Fills the predecessor list of every block from the exits of all blocks.
pub fn set_sources(chunks: &mut Vec<CodeChunk>)
    requires
        old(chunks).len() < u32::MAX,
        forall|k: int| 0 <= k < old(chunks).len() ==> (#[trigger] old(chunks)@[k]).source@.len() == 0,
        forall|k: int| 0 <= k < old(chunks).len() ==> exit_shape(#[trigger] old(chunks)@[k], k, old(chunks).len() as int),
    ensures
        same_shape(final(chunks)@, old(chunks)@),
        preds_exact(final(chunks)@),
{
    let ghost orig = chunks@;
    let len = chunks.len();
    let mut p: usize = 0;
    while p < len
        invariant
            len == chunks.len() == orig.len() < u32::MAX,
            orig == old(chunks)@,
            p <= len,
            same_shape(chunks@, orig),
            forall|k: int| 0 <= k < len ==> exit_shape(#[trigger] orig[k], k, len as int),
            forall|s: int| 0 <= s < len ==> (#[trigger] chunks@[s]).source@.no_duplicates(),
            forall|s: int, q: int| #![trigger chunks@[s].source@[q]]
                0 <= s < len && 0 <= q < chunks@[s].source@.len() ==> chunks@[s].source@[q] < p,
            forall|s: int, q: int| #![trigger chunks@[s].source@.contains(q as u32), successor(orig, q, s)]
                0 <= s < len && 0 <= q < len
                ==> (chunks@[s].source@.contains(q as u32) <==> (q < p && successor(orig, q, s))),
        decreases len - p,
    {
        let (first, second): (Option<u32>, Option<u32>) = match &chunks[p].target {
            CodeChunkTarget::Basic => if p + 1 < len { (Some((p + 1) as u32), None) } else { (None, None) },
            CodeChunkTarget::Condition { true_chunk_pos } => (Some(*true_chunk_pos), Some((p + 1) as u32)),
            CodeChunkTarget::Goto { chunk_pos } => (Some(*chunk_pos), None),
            _ => (None, None),
        };
        let ghost before = chunks@;
        proof {
            assert forall|s: int| 0 <= s < len implies (successor(orig, p as int, s) <==> (first == Some(s as u32) || second == Some(s as u32))) by {}
        }
        if let Some(t) = first {
            Code::add_source(chunks, p as u32, t);
        }
        let ghost middle = chunks@;
        if let Some(t) = second {
            Code::add_source(chunks, p as u32, t);
        }
        proof {
            assert forall|s: int| 0 <= s < len implies (#[trigger] chunks@[s]).source@.no_duplicates()
                && (forall|q: int| 0 <= q < chunks@[s].source@.len() ==> #[trigger] chunks@[s].source@[q] < p + 1)
                && (forall|q: int| 0 <= q < len ==> (#[trigger] chunks@[s].source@.contains(q as u32) <==> (q < p + 1 && successor(orig, q, s))))
                by {
                let b = before[s].source@;
                let m = middle[s].source@;
                let f = chunks@[s].source@;
                assert(forall|q: int| 0 <= q < b.len() ==> b[q] < p);
                assert(!b.contains(p as u32));
                assert(m == b || m == b.push(p as u32));
                assert(f == m || f == m.push(p as u32));
                assert(f == b || f == b.push(p as u32));
                if f == b.push(p as u32) {
                    assert forall|q: int| 0 <= q < f.len() implies f[q] < p + 1 by {
                        if q < b.len() { assert(f[q] == b[q]); }
                    }
                    assert forall|i: int, j: int| 0 <= i < f.len() && 0 <= j < f.len() && i != j implies f[i] != f[j] by {
                        if i < b.len() && j < b.len() { assert(f[i] == b[i] && f[j] == b[j]); }
                        else if i < b.len() { assert(f[i] == b[i]); }
                        else if j < b.len() { assert(f[j] == b[j]); }
                    }
                    assert forall|q: int| 0 <= q < len implies (f.contains(q as u32) <==> (q < p + 1 && successor(orig, q, s))) by {
                        if f.contains(q as u32) {
                            let i = choose|i: int| 0 <= i < f.len() && f[i] == q as u32;
                            if i < b.len() { assert(b.contains(q as u32)); }
                        }
                        if q < p && successor(orig, q, s) {
                            assert(b.contains(q as u32));
                            let i = choose|i: int| 0 <= i < b.len() && b[i] == q as u32;
                            assert(f[i] == q as u32);
                        }
                        if q == p && successor(orig, q, s) {
                            assert(f[b.len() as int] == q as u32);
                        }
                    }
                } else {
                    assert forall|q: int| 0 <= q < len implies (f.contains(q as u32) <==> (q < p + 1 && successor(orig, q, s))) by {
                        if q == p && successor(orig, q, s) {
                            assert(first == Some(s as u32) || second == Some(s as u32));
                        }
                        if q == p && f.contains(q as u32) {
                            assert(b.contains(p as u32));
                        }
                    }
                }
            }
        }
        p = p + 1;
    }
    proof {
        assert forall|s: int, q: int| #![trigger chunks@[s].source@.contains(q as u32), successor(chunks@, q, s)]
            0 <= s < len && 0 <= q < len implies (chunks@[s].source@.contains(q as u32) <==> successor(chunks@, q, s)) by {
            assert(chunks@[q].target == orig[q].target);
            assert(successor(chunks@, q, s) == successor(orig, q, s));
            assert(chunks@[s].source@.contains(q as u32) <==> (q < p && successor(orig, q, s)));
        }
    }
}

/// Instruction `c` of the walk `w` covers byte `t`.
pub open spec fn covers(w: Seq<(int, Op)>, c: int, t: int) -> bool {
    0 <= c < w.len() && w[c].0 <= t < w[c].0 + w[c].1.length
}

/// The branch of instruction `k` of the walk `w` lands inside the `len`
/// bytes of the code, and a conditional one is not the last instruction.
pub open spec fn lands(w: Seq<(int, Op)>, k: int, len: int) -> bool {
    &&& !(w[k].1.inst is SwitchJump)
    &&& (jump_of(w[k].1.inst) matches Some(jv) ==> jv.union matches JumpUnion::Offset { jump_offset }
        && 0 <= w[k].0 + jump_offset < len)
    &&& (is_conditional(w[k].1.inst) ==> k + 1 < w.len())
}

/// `o` is instruction `k` of the walk `w` with its branch resolved to the
/// instruction that covers the byte the branch reaches.
pub open spec fn resolved_from(o: Op, w: Seq<(int, Op)>, k: int) -> bool {
    &&& o.op == w[k].1.op
    &&& o.length == w[k].1.length
    &&& match jump_of(w[k].1.inst) {
        Some(jv) => match jv.union {
            JumpUnion::Offset { jump_offset } => jump_of(o.inst) matches Some(ov)
                && ov.union matches JumpUnion::Pos { jump_pos } && covers(w, jump_pos as int, w[k].0 + jump_offset)
                && (o.inst is Jump <==> w[k].1.inst is Jump)
                && (o.inst is ComparisonJump <==> w[k].1.inst is ComparisonJump),
            JumpUnion::Pos { .. } => false,
        },
        None => o.inst == w[k].1.inst,
    }
}

/// A lifted body: resolved branches, blocks that partition the
/// instructions and start exactly at the block boundaries, exits read from
/// the last instruction of each block, and exact predecessor lists.
pub open spec fn lifted(ops: Seq<Op>, chunks: Seq<CodeChunk>) -> bool {
    &&& ops.len() < u32::MAX
    &&& jumps_resolved(ops, ops.len() as int)
    &&& chunks_partition(chunks, ops.len() as int)
    &&& starts_at_splits(chunks, ops)
    &&& forall|c: int| 0 <= c < chunks.len() ==> exit_matches(chunks, ops, c)
    &&& preds_exact(chunks)
}

proof fn lemma_walk_unresolved(b: Seq<u8>, pos: int)
    requires
        code_walk(b, pos) is Ok,
    ensures
        forall|k: int| 0 <= k < code_walk(b, pos)->Ok_0.len() ==> unresolved(#[trigger] code_walk(b, pos)->Ok_0[k].1.inst)
            && !(code_walk(b, pos)->Ok_0[k].1.inst is SwitchJump),
    decreases b.len() - pos,
{
    if 0 <= pos < b.len() {
        if let Ok((inst, n, op)) = spec_instruction(b, pos + 1, b[pos]) {
            lemma_walk_unresolved(b, pos + 1 + n);
            let w = code_walk(b, pos)->Ok_0;
            let rest = code_walk(b, pos + 1 + n)->Ok_0;
            assert forall|k: int| 0 <= k < w.len() implies unresolved(#[trigger] w[k].1.inst) && !(w[k].1.inst is SwitchJump) by {
                if k > 0 {
                    assert(w[k] == rest[k - 1]);
                }
            }
        }
    }
}

proof fn lemma_same_shape_keeps(chunks: Seq<CodeChunk>, exited: Seq<CodeChunk>, ops: Seq<Op>)
    requires
        same_shape(chunks, exited),
        chunks_partition(exited, ops.len() as int),
        starts_at_splits(exited, ops),
        forall|c: int| 0 <= c < exited.len() ==> exit_matches(exited, ops, c),
    ensures
        chunks_partition(chunks, ops.len() as int),
        starts_at_splits(chunks, ops),
        forall|c: int| 0 <= c < chunks.len() ==> exit_matches(chunks, ops, c),
{
    assert forall|k: int| 0 <= k < chunks.len() implies #[trigger] chunks[k].start == exited[k].start
        && chunks[k].stop == exited[k].stop && chunks[k].target == exited[k].target by {}
    assert forall|c: int| 0 <= c < chunks.len() implies exit_matches(chunks, ops, c) by {
        assert(exit_matches(exited, ops, c));
    }
    assert forall|i: int| 0 <= i < ops.len() implies (is_split(ops, i) <==> exists|k: int| 0 <= k < chunks.len() && #[trigger] chunks[k].start == i) by {
        if is_split(ops, i) {
            let k = choose|k: int| 0 <= k < exited.len() && #[trigger] exited[k].start == i;
            assert(chunks[k].start == i);
        }
        if exists|k: int| 0 <= k < chunks.len() && #[trigger] chunks[k].start == i {
            let k = choose|k: int| 0 <= k < chunks.len() && #[trigger] chunks[k].start == i;
            assert(exited[k].start == i);
        }
    }
}

proof fn lemma_resolved_walk(w: Seq<(int, Op)>, decoded: Seq<Op>, starts: Seq<u32>, map: Seq<u32>, ops: Seq<Op>, len: int)
    requires
        lists_walk(w, starts, decoded),
        map.len() == len,
        byte_map_covers(map, starts, decoded),
        ops.len() == decoded.len(),
        forall|k: int| 0 <= k < decoded.len() ==>
            spec_resolve(#[trigger] decoded[k].inst, starts[k] as int, map, k, decoded.len() as int)
                == Ok::<Instruction, ParseError>(ops[k].inst)
                && ops[k].op == decoded[k].op && ops[k].length == decoded[k].length,
        all_unresolved(decoded),
    ensures
        forall|k: int| 0 <= k < w.len() ==> #[trigger] lands(w, k, len),
        forall|k: int| 0 <= k < w.len() ==> resolved_from(#[trigger] ops[k], w, k),
{
    assert forall|k: int| 0 <= k < w.len() implies #[trigger] lands(w, k, len) && resolved_from(ops[k], w, k) by {
        assert(decoded[k] == w[k].1 && starts[k] as int == w[k].0);
        assert(unresolved(decoded[k].inst));
        assert(spec_resolve(decoded[k].inst, starts[k] as int, map, k, decoded.len() as int)
            == Ok::<Instruction, ParseError>(ops[k].inst));
        assert(!(w[k].1.inst is SwitchJump));
        if let Some(jv) = jump_of(w[k].1.inst) {
            if let JumpUnion::Offset { jump_offset } = jv.union {
                let t = w[k].0 + jump_offset;
                assert(0 <= t < map.len());
                let c = map[t] as int;
                assert(decoded[c] == w[c].1 && starts[c] as int == w[c].0);
                assert(covers(w, c, t));
            }
        }
    }
    assert forall|k: int| 0 <= k < w.len() implies resolved_from(#[trigger] ops[k], w, k) by {
        assert(lands(w, k, len));
    }
}

/// `ops` and `chunks` are the lifting of the code bytes `code`: each
/// instruction as decoded, with its branch resolved, and the linked blocks.
pub open spec fn lift_ok(code: Seq<u8>, ops: Seq<Op>, chunks: Seq<CodeChunk>) -> bool {
    &&& code_walk(code, 0) matches Ok(w) && ops.len() == w.len()
        && (forall|k: int| 0 <= k < w.len() ==> #[trigger] lands(w, k, code.len() as int))
        && (forall|k: int| 0 <= k < w.len() ==> resolved_from(#[trigger] ops[k], w, k))
    &&& lifted(ops, chunks)
}

/// The code bytes `code` lift without error: every instruction decodes and
/// every branch lands inside the code.
pub open spec fn lift_succeeds(code: Seq<u8>) -> bool {
    code_walk(code, 0) matches Ok(w) && forall|k: int| 0 <= k < w.len() ==> #[trigger] lands(w, k, code.len() as int)
}

/// Lifts a method body: decodes its instructions, resolves every branch to
/// an instruction index, cuts the code into basic blocks and links them.
pub fn lift_code(code: &[u8]) -> (r: Result<(Vec<Op>, Vec<CodeChunk>), ParseError>)
    requires
        code.len() < u32::MAX,
    ensures
        r is Ok <==> lift_succeeds(code@),
        code_walk(code@, 0) is Ok && r is Err ==> r == Err::<(Vec<Op>, Vec<CodeChunk>), ParseError>(ParseError::JumpOutOfRange),
        match r {
            Ok((ops, chunks)) => lift_ok(code@, ops@, chunks@),
            Err(e) => match code_walk(code@, 0) {
                Ok(w) => exists|k: int| 0 <= k < w.len() && !lands(w, k, code.len() as int)
                    && (e == ParseError::JumpOutOfRange || (e == ParseError::UnsupportedOpcode && w[k].1.inst is SwitchJump)),
                Err(e2) => e == e2,
            },
        },
{
    let (starts, mut ops, map) = decode_code(code)?;
    let ghost w = code_walk(code@, 0)->Ok_0;
    proof {
        lemma_walk_unresolved(code@, 0);
        assert forall|k: int| 0 <= k < ops.len() implies unresolved(#[trigger] ops@[k].inst) by {
            assert(ops@[k] == w[k].1);
        }
        assert forall|i: int| 0 <= i < map.len() implies map@[i] < ops.len() by {}
    }
    let ghost decoded = ops@;
    let res = resolve_jumps(&starts, &mut ops, &map);
    if let Err(e) = res {
        proof {
            let k = choose|k: int| 0 <= k < decoded.len()
                && spec_resolve(#[trigger] decoded[k].inst, starts@[k] as int, map@, k, decoded.len() as int)
                    == Err::<Instruction, ParseError>(e);
            assert(decoded[k] == w[k].1 && starts@[k] as int == w[k].0);
            assert(!(w[k].1.inst is SwitchJump));
            assert(!lands(w, k, code.len() as int));
            assert(e == ParseError::JumpOutOfRange);
        }
        return Err(e);
    }
    proof {
        lemma_resolved_walk(w, decoded, starts@, map@, ops@, code.len() as int);
    }
    let marks = split_marks(&ops);
    let (mut chunks, to_chunk) = build_chunks(ops.len(), &marks);
    set_exits(&ops, &mut chunks, &to_chunk);
    let ghost exited = chunks@;
    proof {
        assert forall|k: int| 0 <= k < exited.len() implies exit_shape(#[trigger] exited[k], k, exited.len() as int) by {
            lemma_exit_shape(exited, ops@, k);
        }
    }
    set_sources(&mut chunks);
    proof {
        lemma_same_shape_keeps(chunks@, exited, ops@);
    }
    Ok((ops, chunks))
}

} // verus!
