use rustlox::chunk::Chunk;
use rustlox::chunk::OpCode;
use rustlox::compiler::Compiler;
use rustlox::vm::Step;
use rustlox::vm::Vm;

/// Decodes each literal span to a double and links its bit pattern into the
/// chunk's constant pool: what an embedder does between compiling and running.
fn link(chunk: &mut Chunk, source: &[u8]) {
    let spans: Vec<(usize, usize)> = chunk.literals.iter().map(|s| (s.start, s.end)).collect();
    for (start, end) in spans {
        let text = std::str::from_utf8(&source[start..end]).unwrap();
        let value: f64 = text.parse().unwrap_or_default();
        chunk.add_constant(value.to_bits());
    }
}

/// Drives the machine over a linked chunk, computing the arithmetic it asks
/// for in IEEE doubles, and returns the final value.
fn drive(vm: &mut Vm, chunk: &Chunk) -> f64 {
    vm.reset();
    loop {
        match vm.step(chunk) {
            Step::Ran => {},
            Step::Arith(op, a, b) => {
                let left = f64::from_bits(a);
                let right = f64::from_bits(b);
                let result = match op {
                    OpCode::Add => left + right,
                    OpCode::Subtract => left - right,
                    OpCode::Multiply => left * right,
                    OpCode::Divide => left / right,
                    _ => unreachable!(),
                };
                vm.resume(result.to_bits());
            },
            Step::Done(bits) => return f64::from_bits(bits),
        }
    }
}

fn run(source: &[u8]) -> Result<f64, ()> {
    let mut chunk = match Compiler::compile(source.to_vec()) {
        Ok(chunk) => chunk,
        Err(_) => return Err(()),
    };
    link(&mut chunk, source);
    assert!(chunk.validate());
    let mut vm = Vm::new();
    Ok(drive(&mut vm, &chunk))
}

#[test]
fn a_single_literal_evaluates_to_itself() {
    assert_eq!(run(b"0").unwrap(), 0.0);
    assert_eq!(run(b"42").unwrap(), 42.0);
    assert_eq!(run(b"3.25").unwrap(), 3.25);
}

#[test]
fn multiplication_binds_tighter_than_addition() {
    assert_eq!(run(b"2 + 3 * 4").unwrap(), 14.0);
}

#[test]
fn parentheses_override_precedence() {
    assert_eq!(run(b"(2 + 3) * 4").unwrap(), 20.0);
}

#[test]
fn division_is_left_associative() {
    assert_eq!(run(b"8 / 4 / 2").unwrap(), 1.0);
}

#[test]
fn subtraction_is_left_associative() {
    assert_eq!(run(b"8 - 4 - 2").unwrap(), 2.0);
}

#[test]
fn unary_minus_binds_tighter_than_multiplication() {
    assert_eq!(run(b"-2 * 3").unwrap(), -6.0);
}

#[test]
fn unary_minus_applies_to_a_group() {
    assert_eq!(run(b"-(2 + 3)").unwrap(), -5.0);
}

#[test]
fn double_negation_cancels() {
    assert_eq!(run(b"--7").unwrap(), 7.0);
}

#[test]
fn division_by_zero_yields_infinity() {
    let value = run(b"1 / 0").unwrap();
    assert_eq!(value, f64::INFINITY);
    assert_eq!(run(b"-1 / 0").unwrap(), f64::NEG_INFINITY);
}

#[test]
fn zero_over_zero_yields_a_quiet_nan() {
    assert!(run(b"0 / 0").unwrap().is_nan());
}

#[test]
fn fractions_compute_in_ieee_doubles() {
    assert_eq!(run(b"1.5 * 2").unwrap(), 3.0);
    assert_eq!(run(b"0.1 + 0.2").unwrap(), 0.1f64 + 0.2f64);
    assert_eq!(run(b"1 / 3").unwrap(), 1.0f64 / 3.0f64);
}

#[test]
fn a_larger_expression_evaluates_correctly() {
    assert_eq!(run(b"(1 + 2) * (3 + 4) - -(10 / 4)").unwrap(), 23.5);
    assert_eq!(run(b"1 + 2 * 3 - 4 / 2").unwrap(), 5.0);
}

#[test]
fn malformed_input_runs_nothing() {
    assert!(run(b"(1 + 2").is_err());
    assert!(run(b"*1").is_err());
    assert!(run(b"1 +").is_err());
}

#[test]
fn compiling_twice_yields_identical_bytecode_and_output() {
    let source: &[u8] = b"(1 + 2.5) * -3 / 4";
    let first = Compiler::compile(source.to_vec()).ok().unwrap();
    let second = Compiler::compile(source.to_vec()).ok().unwrap();
    assert_eq!(first.code, second.code);
    assert_eq!(first.lines, second.lines);
    assert_eq!(first.literals, second.literals);
    assert_eq!(
        run(source).unwrap().to_bits(),
        run(source).unwrap().to_bits()
    );
}

#[test]
fn one_machine_runs_many_chunks() {
    let mut vm = Vm::new();
    let sources: [&[u8]; 3] = [b"1 + 1", b"2 * 2", b"9 - 1"];
    let expected = [2.0, 4.0, 8.0];
    for (source, want) in sources.iter().zip(expected.iter()) {
        let mut chunk = Compiler::compile(source.to_vec()).ok().unwrap();
        link(&mut chunk, source);
        assert!(chunk.validate());
        assert_eq!(drive(&mut vm, &chunk), *want);
    }
}

#[test]
fn negation_flips_exactly_the_sign_bit_of_a_nan() {
    // Build by hand: push a NaN constant, negate, return.
    let mut chunk = Chunk::new();
    let nan_bits = f64::NAN.to_bits();
    chunk.add_constant(nan_bits);
    chunk.write_chunk(0, 1);
    chunk.write_chunk(0, 1);
    chunk.write_chunk(5, 1);
    chunk.write_chunk(6, 1);
    assert!(chunk.validate());
    let mut vm = Vm::new();
    let result = drive(&mut vm, &chunk);
    assert_eq!(result.to_bits(), nan_bits ^ 0x8000_0000_0000_0000);
}

#[test]
fn whitespace_comments_and_newlines_do_not_change_the_value() {
    assert_eq!(run(b"  2 //x\n + \t 3 * // y\n 4 ").unwrap(), 14.0);
}

#[test]
fn deeply_nested_groups_evaluate() {
    assert_eq!(run(b"((((1))))").unwrap(), 1.0);
    assert_eq!(run(b"-(-(-(3)))").unwrap(), -3.0);
}

#[test]
fn a_number_with_a_trailing_dot_leaves_the_dot_behind() {
    // "3." scans as the number 3 followed by a dot, which ends the
    // expression without consuming all input.
    assert!(run(b"3.").is_err());
}

#[test]
fn the_machine_reports_its_position_and_stack() {
    let source: &[u8] = b"1 + 2";
    let mut chunk = Compiler::compile(source.to_vec()).ok().unwrap();
    link(&mut chunk, source);
    let mut vm = Vm::new();
    vm.reset();
    assert_eq!(vm.position(), 0);
    assert_eq!(vm.stack_snapshot(), Vec::<u64>::new());
    // One step pushes the first constant and moves past its two bytes.
    assert_eq!(vm.step(&chunk), Step::Ran);
    assert_eq!(vm.position(), 2);
    assert_eq!(vm.stack_snapshot(), vec![1.0f64.to_bits()]);
}
