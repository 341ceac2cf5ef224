use jvmclass::code::{
    decode_code, lift_code, CodeChunk, CodeChunkTarget, Instruction, JumpUnion, JumpValue, Op,
};
use jvmclass::error::ParseError;

fn chunk_ranges(chunks: &[CodeChunk]) -> Vec<(u32, u32)> {
    chunks.iter().map(|c| (c.start, c.stop)).collect()
}

fn jump_target(op: &Op) -> Option<u32> {
    match &op.inst {
        Instruction::Jump { jump } | Instruction::ComparisonJump { jump } | Instruction::ZeroComparisonJump { jump } => jump.get_pos(),
        _ => None,
    }
}

#[test]
fn indexed_load_collapse() {
    let bytes = [0x1A, 0x1B, 0x2A, 0xAC];
    let (starts, ops, map) = decode_code(&bytes).unwrap();
    assert_eq!(starts, vec![0, 1, 2, 3]);
    assert_eq!(map, vec![0, 1, 2, 3]);
    assert_eq!(ops.len(), 4);
    assert_eq!(ops[0].inst, Instruction::Load { var: 0 });
    assert_eq!(ops[0].op, 21);
    assert_eq!(ops[1].inst, Instruction::Load { var: 1 });
    assert_eq!(ops[1].op, 21);
    assert_eq!(ops[2].inst, Instruction::Load { var: 0 });
    assert_eq!(ops[2].op, 25);
    assert_eq!(ops[3].inst, Instruction::Return);
    assert_eq!(ops[3].op, 0xAC);
}

#[test]
fn indexed_store_collapse() {
    let (_, ops, _) = decode_code(&[0x3B, 0x4E]).unwrap();
    assert_eq!(ops[0].inst, Instruction::Store { var: 0 });
    assert_eq!(ops[0].op, 54);
    assert_eq!(ops[1].inst, Instruction::Store { var: 3 });
    assert_eq!(ops[1].op, 58);
}

#[test]
fn jump_resolution() {
    let (ops, chunks) = lift_code(&[0x00, 0xA7, 0x00, 0x03, 0x00]).unwrap();
    assert_eq!(ops.len(), 3);
    assert_eq!(ops[0].inst, Instruction::Nop);
    assert_eq!(ops[1].inst, Instruction::Jump { jump: JumpValue { union: JumpUnion::Pos { jump_pos: 2 } } });
    assert_eq!(ops[1].length, 3);
    assert_eq!(ops[2].inst, Instruction::Nop);
    assert_eq!(chunk_ranges(&chunks), vec![(0, 2), (2, 3)]);
    assert_eq!(chunks[0].target, CodeChunkTarget::Goto { chunk_pos: 1 });
    assert_eq!(chunks[1].target, CodeChunkTarget::Basic);
    assert_eq!(chunks[1].source, vec![0]);
    assert!(chunks[0].source.is_empty());
}

#[test]
fn conditional_into_middle_of_goto() {
    // ifeq +6 reaches byte 6, inside the goto at byte 4
    let (ops, chunks) = lift_code(&[0x99, 0x00, 0x06, 0x03, 0xA7, 0x00, 0x03, 0x04, 0xAC]).unwrap();
    assert_eq!(ops.len(), 5);
    assert_eq!(jump_target(&ops[0]), Some(2));
    assert_eq!(jump_target(&ops[2]), Some(3));
    assert_eq!(chunk_ranges(&chunks), vec![(0, 1), (1, 2), (2, 3), (3, 5)]);
    assert_eq!(chunks[0].target, CodeChunkTarget::Condition { true_chunk_pos: 2 });
    assert_eq!(chunks[1].target, CodeChunkTarget::Basic);
    assert_eq!(chunks[2].target, CodeChunkTarget::Goto { chunk_pos: 3 });
    assert_eq!(chunks[3].target, CodeChunkTarget::Return);
    assert_eq!(chunks[2].source, vec![0, 1]);
    assert_eq!(chunks[3].source, vec![2]);
}

#[test]
fn conditional_cfg() {
    // ifeq +7; iconst_0; goto +3; iconst_1; ireturn
    let (ops, chunks) = lift_code(&[0x99, 0x00, 0x07, 0x03, 0xA7, 0x00, 0x03, 0x04, 0xAC]).unwrap();
    assert_eq!(ops.len(), 5);
    assert_eq!(chunk_ranges(&chunks), vec![(0, 1), (1, 3), (3, 5)]);
    assert_eq!(chunks[0].target, CodeChunkTarget::Condition { true_chunk_pos: 2 });
    assert_eq!(chunks[1].target, CodeChunkTarget::Goto { chunk_pos: 2 });
    assert_eq!(chunks[2].target, CodeChunkTarget::Return);
    assert_eq!(chunks[1].source, vec![0]);
    assert_eq!(chunks[2].source, vec![0, 1]);
}

#[test]
fn conditional_to_next_block_counts_once() {
    // ifeq +3 leads to the very next instruction
    let (_, chunks) = lift_code(&[0x99, 0x00, 0x03, 0xB1]).unwrap();
    assert_eq!(chunk_ranges(&chunks), vec![(0, 1), (1, 2)]);
    assert_eq!(chunks[0].target, CodeChunkTarget::Condition { true_chunk_pos: 1 });
    assert_eq!(chunks[1].source, vec![0]);
}

#[test]
fn backward_jump_loop() {
    // iinc 1 1; goto -3
    let (ops, chunks) = lift_code(&[0x84, 0x01, 0x01, 0xA7, 0xFF, 0xFD]).unwrap();
    assert_eq!(ops[0].inst, Instruction::Increment { var: 1, amount: 1 });
    assert_eq!(jump_target(&ops[1]), Some(0));
    assert_eq!(chunk_ranges(&chunks), vec![(0, 2)]);
    assert_eq!(chunks[0].target, CodeChunkTarget::Goto { chunk_pos: 0 });
    assert_eq!(chunks[0].source, vec![0]);
}

#[test]
fn wide_goto() {
    let (ops, chunks) = lift_code(&[0xC8, 0x00, 0x00, 0x00, 0x05, 0x00]).unwrap();
    assert_eq!(ops[0].length, 5);
    assert_eq!(jump_target(&ops[0]), Some(1));
    assert_eq!(chunks.len(), 2);
}

#[test]
fn operands_are_decoded() {
    let (_, ops, map) = decode_code(&[0x10, 0xFE, 0x11, 0x01, 0x00, 0x12, 0x07, 0xB9, 0x00, 0x05, 0x02, 0x00, 0xBC, 0x0A]).unwrap();
    assert_eq!(ops[0].inst, Instruction::PushByte { value: -2 });
    assert_eq!(ops[1].inst, Instruction::PushShort { value: 256 });
    assert_eq!(ops[2].inst, Instruction::ConstantPool { pool: 7 });
    assert_eq!(ops[3].inst, Instruction::InvokeMethod { pool_pos: 5 });
    assert_eq!(ops[3].length, 5);
    assert_eq!(ops[4].inst, Instruction::NewPrimitiveArray { array_type: 10 });
    assert_eq!(map, vec![0, 0, 1, 1, 1, 2, 2, 3, 3, 3, 3, 3, 4, 4]);
}

#[test]
fn byte_map_shape_on_mixed_code() {
    let bytes = [0x10, 0x05, 0x3C, 0x1B, 0x99, 0x00, 0x05, 0x84, 0x01, 0xFF, 0xB1];
    let (starts, ops, map) = decode_code(&bytes).unwrap();
    assert_eq!(map.len(), bytes.len());
    assert_eq!(map[0], 0);
    assert!(map.windows(2).all(|w| w[0] <= w[1]));
    assert_eq!(*map.iter().max().unwrap() as usize, ops.len() - 1);
    for (k, op) in ops.iter().enumerate() {
        for j in starts[k]..starts[k] + op.length as u32 {
            assert_eq!(map[j as usize], k as u32);
        }
    }
}

#[test]
fn blocks_partition_instructions() {
    let bytes = [0x1A, 0x99, 0x00, 0x08, 0x1A, 0x04, 0x60, 0x3B, 0xA7, 0xFF, 0xF8, 0xB1];
    let (ops, chunks) = lift_code(&bytes).unwrap();
    let total: u32 = chunks.iter().map(|c| c.stop - c.start).sum();
    assert_eq!(total as usize, ops.len());
    assert_eq!(chunks[0].start, 0);
    for w in chunks.windows(2) {
        assert!(w[0].start < w[0].stop);
        assert_eq!(w[0].stop, w[1].start);
    }
    assert_eq!(chunks.last().unwrap().stop as usize, ops.len());
}

#[test]
fn edges_and_predecessors_agree() {
    let bytes = [0x1A, 0x99, 0x00, 0x08, 0x1A, 0x04, 0x60, 0x3B, 0xA7, 0xFF, 0xF8, 0xB1];
    let (ops, chunks) = lift_code(&bytes).unwrap();
    for op in &ops {
        if let Some(t) = jump_target(op) {
            assert!((t as usize) < ops.len());
        }
    }
    for (p, c) in chunks.iter().enumerate() {
        let succ: Vec<usize> = match &c.target {
            CodeChunkTarget::Basic => if p + 1 < chunks.len() { vec![p + 1] } else { vec![] },
            CodeChunkTarget::Condition { true_chunk_pos } => {
                assert!((*true_chunk_pos as usize) < chunks.len());
                assert!(p + 1 < chunks.len());
                vec![*true_chunk_pos as usize, p + 1]
            }
            CodeChunkTarget::Goto { chunk_pos } => vec![*chunk_pos as usize],
            _ => vec![],
        };
        for s in succ {
            assert!(chunks[s].source.contains(&(p as u32)));
        }
    }
}

#[test]
fn empty_code() {
    let (ops, chunks) = lift_code(&[]).unwrap();
    assert!(ops.is_empty());
    assert!(chunks.is_empty());
}

#[test]
fn decode_errors() {
    assert!(matches!(decode_code(&[0xCB]), Err(ParseError::UnknownOpcode)));
    assert!(matches!(decode_code(&[0xAA, 0, 0, 0]), Err(ParseError::UnsupportedOpcode)));
    assert!(matches!(decode_code(&[0xC4, 0x15, 0x00, 0x01]), Err(ParseError::UnsupportedOpcode)));
    assert!(matches!(decode_code(&[0x00, 0x10]), Err(ParseError::TruncatedCode)));
    assert!(matches!(decode_code(&[0xA7, 0x00]), Err(ParseError::TruncatedCode)));
}

#[test]
fn jump_out_of_range() {
    assert!(matches!(lift_code(&[0xA7, 0xFF, 0xFB]), Err(ParseError::JumpOutOfRange)));
    assert!(matches!(lift_code(&[0xA7, 0x00, 0x03]), Err(ParseError::JumpOutOfRange)));
    // a conditional branch needs an instruction after it
    assert!(matches!(lift_code(&[0x00, 0x99, 0xFF, 0xFF]), Err(ParseError::JumpOutOfRange)));
}

#[test]
fn jump_value_transition() {
    let mut j = JumpValue::new(-1);
    assert_eq!(j.get_pos(), None);
    let map = vec![0, 0, 1, 2];
    assert!(j.union.apply(3, &map).is_ok());
    assert_eq!(j.get_pos(), Some(1));
    let mut far = JumpValue::new(10);
    assert!(matches!(far.union.apply(0, &map), Err(ParseError::JumpOutOfRange)));
    assert_eq!(far.get_pos(), None);
}

#[test]
fn add_source_skips_repeat() {
    let mut chunks = vec![CodeChunk { start: 0, stop: 1, source: Vec::new(), target: CodeChunkTarget::Basic }];
    jvmclass::code::Code::add_source(&mut chunks, 4, 0);
    jvmclass::code::Code::add_source(&mut chunks, 4, 0);
    jvmclass::code::Code::add_source(&mut chunks, 5, 0);
    assert_eq!(chunks[0].source, vec![4, 5]);
}

#[test]
fn athrow_has_no_operand() {
    let (starts, ops, map) = decode_code(&[0x2A, 0xBF, 0xB1]).unwrap();
    assert_eq!(starts, vec![0, 1, 2]);
    assert_eq!(ops[1].inst, Instruction::Throw { pool_pos: 0 });
    assert_eq!(ops[1].length, 1);
    assert_eq!(map, vec![0, 1, 2]);
}
