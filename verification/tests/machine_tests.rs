use rlox::chunk::{get_line, Chunk, Opcode};
use rlox::vm::{InterpretError, VirtualMachine};
use rustc_apfloat::Float;

#[test]
fn end_to_end_arithmetic() {
    // Constant(42.0), Negate, Literal(1152), Add, Return runs to
    // -42.0 + 1152.0 = 1110.0.
    let mut chunk = Chunk::new();
    let idx = chunk.write_value(42.0f64.to_bits());
    assert_eq!(idx, 0);
    chunk.write_opcode(Opcode::Constant(0), 1);
    chunk.write_opcode(Opcode::Negate, 2);
    chunk.write_opcode(Opcode::Literal(1152), 2);
    chunk.write_opcode(Opcode::Add, 3);
    chunk.write_opcode(Opcode::Return, 4);
    let vm = VirtualMachine::new(chunk);
    assert_eq!(vm.run(), Ok(1110.0f64.to_bits()));
}

#[test]
fn return_on_empty_stack_underflows() {
    let mut chunk = Chunk::new();
    chunk.write_opcode(Opcode::Return, 1);
    let vm = VirtualMachine::new(chunk);
    assert_eq!(vm.run(), Err(InterpretError::StackUnderflow));
}

#[test]
fn missing_return_is_a_runtime_fault() {
    let mut chunk = Chunk::new();
    chunk.write_opcode(Opcode::Literal(3), 1);
    chunk.write_opcode(Opcode::Literal(4), 1);
    let vm = VirtualMachine::new(chunk);
    assert_eq!(vm.run(), Err(InterpretError::Runtime));
}

#[test]
fn empty_chunk_is_a_runtime_fault() {
    let vm = VirtualMachine::new(Chunk::new());
    assert_eq!(vm.run(), Err(InterpretError::Runtime));
}

#[test]
fn binop_operand_order() {
    // The operand popped second is the left-hand side: 10 - 4 and 1 / 2.
    let mut chunk = Chunk::new();
    chunk.write_opcode(Opcode::Literal(10), 1);
    chunk.write_opcode(Opcode::Literal(4), 1);
    chunk.write_opcode(Opcode::Sub, 1);
    chunk.write_opcode(Opcode::Return, 1);
    assert_eq!(VirtualMachine::new(chunk).run(), Ok(6.0f64.to_bits()));

    let mut chunk = Chunk::new();
    chunk.write_opcode(Opcode::Literal(1), 1);
    chunk.write_opcode(Opcode::Literal(2), 1);
    chunk.write_opcode(Opcode::Div, 1);
    chunk.write_opcode(Opcode::Return, 1);
    assert_eq!(VirtualMachine::new(chunk).run(), Ok(0.5f64.to_bits()));

    let mut chunk = Chunk::new();
    chunk.write_opcode(Opcode::Literal(6), 1);
    chunk.write_opcode(Opcode::Literal(7), 1);
    chunk.write_opcode(Opcode::Mul, 1);
    chunk.write_opcode(Opcode::Return, 1);
    assert_eq!(VirtualMachine::new(chunk).run(), Ok(42.0f64.to_bits()));
}

#[test]
fn binop_underflow_with_one_operand() {
    let mut chunk = Chunk::new();
    chunk.write_opcode(Opcode::Literal(5), 1);
    chunk.write_opcode(Opcode::Add, 1);
    chunk.write_opcode(Opcode::Return, 1);
    assert_eq!(VirtualMachine::new(chunk).run(), Err(InterpretError::StackUnderflow));
}

#[test]
fn negate_on_empty_stack_underflows() {
    let mut chunk = Chunk::new();
    chunk.write_opcode(Opcode::Negate, 1);
    chunk.write_opcode(Opcode::Return, 1);
    assert_eq!(VirtualMachine::new(chunk).run(), Err(InterpretError::StackUnderflow));
}

#[test]
fn constant_index_outside_pool_faults() {
    let mut chunk = Chunk::new();
    chunk.write_opcode(Opcode::Constant(3), 1);
    chunk.write_opcode(Opcode::Return, 1);
    assert_eq!(VirtualMachine::new(chunk).run(), Err(InterpretError::Runtime));
}

#[test]
fn literal_widening_is_exact() {
    for n in [0u16, 1, 2, 3, 1023, 1024, 1152, 40000, 65535] {
        let mut chunk = Chunk::new();
        chunk.write_opcode(Opcode::Literal(n), 1);
        chunk.write_opcode(Opcode::Return, 1);
        assert_eq!(VirtualMachine::new(chunk).run(), Ok((n as f64).to_bits()));
    }
}

#[test]
fn negate_flips_sign_exactly() {
    let mut chunk = Chunk::new();
    let idx = chunk.write_value(1.5f64.to_bits());
    chunk.write_opcode(Opcode::Constant(idx as u8), 1);
    chunk.write_opcode(Opcode::Negate, 1);
    chunk.write_opcode(Opcode::Return, 1);
    assert_eq!(VirtualMachine::new(chunk).run(), Ok((-1.5f64).to_bits()));
}

#[test]
fn division_by_zero_is_infinite() {
    let mut chunk = Chunk::new();
    chunk.write_opcode(Opcode::Literal(1), 1);
    chunk.write_opcode(Opcode::Literal(0), 1);
    chunk.write_opcode(Opcode::Div, 1);
    chunk.write_opcode(Opcode::Return, 1);
    assert_eq!(VirtualMachine::new(chunk).run(), Ok(f64::INFINITY.to_bits()));
}

#[test]
fn line_table_collapses_runs() {
    let mut chunk = Chunk::new();
    chunk.write_opcode(Opcode::Literal(1), 7);
    chunk.write_opcode(Opcode::Literal(2), 7);
    chunk.write_opcode(Opcode::Literal(3), 7);
    chunk.write_opcode(Opcode::Add, 9);
    chunk.write_opcode(Opcode::Return, 9);
    assert_eq!(chunk.lines, vec![(3, 7), (2, 9)]);
    let repeats: usize = chunk.lines.iter().map(|(r, _)| *r as usize).sum();
    assert_eq!(repeats, chunk.code.len());
    assert_eq!(chunk.line_for(0), Some(7));
    assert_eq!(chunk.line_for(1), Some(7));
    assert_eq!(chunk.line_for(2), Some(7));
    assert_eq!(chunk.line_for(3), Some(9));
    assert_eq!(chunk.line_for(4), Some(9));
    assert_eq!(chunk.line_for(5), None);
}

#[test]
fn line_table_survives_full_repeat_count() {
    let mut chunk = Chunk::new();
    for _ in 0..300 {
        chunk.write_opcode(Opcode::Literal(1), 4);
    }
    let repeats: usize = chunk.lines.iter().map(|(r, _)| *r as usize).sum();
    assert_eq!(repeats, 300);
    for off in 0..300 {
        assert_eq!(chunk.line_for(off), Some(4));
    }
    assert_eq!(chunk.line_for(300), None);
}

#[test]
fn get_line_walks_cumulative_counts() {
    let table = [(2u8, 10u16), (1, 11), (3, 12)];
    assert_eq!(get_line(&table, 0), Some(10));
    assert_eq!(get_line(&table, 1), Some(10));
    assert_eq!(get_line(&table, 2), Some(11));
    assert_eq!(get_line(&table, 3), Some(12));
    assert_eq!(get_line(&table, 5), Some(12));
    assert_eq!(get_line(&table, 6), None);
    assert_eq!(get_line(&[], 0), None);
}

#[test]
fn write_value_returns_successive_indices() {
    let mut chunk = Chunk::new();
    assert_eq!(chunk.write_value(1.0f64.to_bits()), 0);
    assert_eq!(chunk.write_value(2.0f64.to_bits()), 1);
    assert_eq!(chunk.write_value(3.0f64.to_bits()), 2);
    assert_eq!(chunk.values.len(), 3);
}

#[test]
fn mnemonics() {
    assert_eq!(Opcode::Return.mnemonic(), "RETURN");
    assert_eq!(Opcode::Negate.mnemonic(), "NEGATE");
    assert_eq!(Opcode::Add.mnemonic(), "ADD");
    assert_eq!(Opcode::Sub.mnemonic(), "SUB");
    assert_eq!(Opcode::Mul.mnemonic(), "MUL");
    assert_eq!(Opcode::Div.mnemonic(), "DIV");
    assert_eq!(Opcode::Constant(3).mnemonic(), "CONSTANT 3");
    assert_eq!(Opcode::Literal(1152).mnemonic(), "LITERAL 1152");
}

#[test]
fn disassembly_listing() {
    let mut chunk = Chunk::new();
    let idx = chunk.write_value(42.0f64.to_bits());
    chunk.write_opcode(Opcode::Constant(idx as u8), 1);
    chunk.write_opcode(Opcode::Literal(7), 1);
    chunk.write_opcode(Opcode::Return, 2);
    let rendered_constant = format!(
        "{}",
        rustc_apfloat::ieee::Double::from_bits(42.0f64.to_bits() as u128)
    );
    let expected = format!(
        "=== demo ===\n0000:ln 1 CONSTANT 0 {}\n0001:ln 1 LITERAL 7\n0002:ln 2 RETURN\n========",
        rendered_constant
    );
    assert_eq!(chunk.disassemble("demo"), expected);
}
