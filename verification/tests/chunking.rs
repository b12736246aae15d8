use rustlox::chunk::Chunk;
use rustlox::chunk::OpCode;
use rustlox::chunk::Span;

#[test]
fn opcode_bytes_round_trip() {
    let all = [
        OpCode::Constant,
        OpCode::Add,
        OpCode::Subtract,
        OpCode::Multiply,
        OpCode::Divide,
        OpCode::Negate,
        OpCode::Return,
    ];
    for (i, op) in all.iter().enumerate() {
        assert_eq!(op.to_byte(), i as u8);
        assert_eq!(OpCode::from_byte(i as u8), Some(*op));
    }
    assert_eq!(OpCode::from_byte(7), None);
    assert_eq!(OpCode::from_byte(255), None);
}

#[test]
fn writing_keeps_code_and_lines_parallel() {
    let mut chunk = Chunk::new();
    chunk.write_chunk(OpCode::Return.to_byte(), 3);
    chunk.write_chunk(OpCode::Add.to_byte(), 4);
    assert_eq!(chunk.code, vec![6, 1]);
    assert_eq!(chunk.lines, vec![3, 4]);
}

#[test]
fn constant_indices_count_up() {
    let mut chunk = Chunk::new();
    assert_eq!(chunk.add_constant(10), 0);
    assert_eq!(chunk.add_constant(20), 1);
    assert_eq!(chunk.add_constant(30), 2);
    assert_eq!(chunk.constants, vec![10, 20, 30]);
}

#[test]
fn literal_spans_count_up() {
    let mut chunk = Chunk::new();
    assert_eq!(chunk.add_literal(Span { start: 0, end: 1 }), 0);
    assert_eq!(chunk.add_literal(Span { start: 4, end: 7 }), 1);
    assert_eq!(chunk.literals.len(), 2);
    assert_eq!(chunk.literals[1], Span { start: 4, end: 7 });
}

fn chunk_of(code: &[u8], n_constants: usize) -> Chunk {
    let mut chunk = Chunk::new();
    for b in code {
        chunk.write_chunk(*b, 1);
    }
    for i in 0..n_constants {
        chunk.add_constant(i as u64);
    }
    chunk
}

#[test]
fn validate_accepts_balanced_code() {
    // constant 0; constant 1; add; return
    assert!(chunk_of(&[0, 0, 0, 1, 1, 6], 2).validate());
    // constant 0; negate; return
    assert!(chunk_of(&[0, 0, 5, 6], 1).validate());
}

#[test]
fn validate_rejects_unbalanced_or_malformed_code() {
    // add with an empty stack
    assert!(!chunk_of(&[1, 6], 0).validate());
    // negate with an empty stack
    assert!(!chunk_of(&[5, 6], 0).validate());
    // return with two values left
    assert!(!chunk_of(&[0, 0, 0, 1, 6], 2).validate());
    // return with no value
    assert!(!chunk_of(&[6], 0).validate());
    // no return at all
    assert!(!chunk_of(&[0, 0], 1).validate());
    // constant index past the pool
    assert!(!chunk_of(&[0, 1, 6], 1).validate());
    // truncated constant instruction
    assert!(!chunk_of(&[0], 1).validate());
    // unknown opcode
    assert!(!chunk_of(&[9, 6], 0).validate());
    // empty chunk
    assert!(!chunk_of(&[], 0).validate());
}

#[test]
fn disassembly_walks_by_operand_width() {
    let chunk = chunk_of(&[0, 0, 0, 1, 1, 5, 6], 2);
    let mut offsets = Vec::new();
    let mut offset = 0;
    while offset < chunk.code.len() {
        offsets.push(offset);
        offset = chunk.disassemble_instruction(offset);
    }
    assert_eq!(offsets, vec![0, 2, 4, 5, 6]);
    assert_eq!(offset, 7);
}

#[test]
fn disassembly_advances_one_byte_over_an_unknown_opcode() {
    let chunk = chunk_of(&[9, 6], 0);
    assert_eq!(chunk.disassemble_instruction(0), 1);
    assert_eq!(chunk.disassemble_instruction(1), 2);
}
