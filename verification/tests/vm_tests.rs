use umvm::isa::{encode, Instr};
use umvm::machine::{ExitCode, CPU};

fn word(i: Instr) -> u32 {
    encode(i)
}

#[test]
fn add_wraps_modulo_two_to_32() {
    // reg1 = !(0 & 0) = 0xFFFF_FFFF, reg2 = 1, reg3 = reg1 + reg2 wraps to 0.
    let program = vec![
        word(Instr::Nand { a: 1, b: 0, c: 0 }),
        word(Instr::Imm { r: 2, value: 1 }),
        word(Instr::Add { a: 3, b: 1, c: 2 }),
        word(Instr::Out { c: 3 }),
        word(Instr::Halt),
    ];
    let mut cpu = CPU::new(&program);
    assert!(matches!(cpu.execute(), ExitCode::Output(0)));
    assert!(matches!(cpu.execute(), ExitCode::Halted));
}

#[test]
fn mul_wraps_modulo_two_to_32() {
    // reg1 = 0x1000000, reg2 = 0x1000000, product 2^48 wraps to 0.
    let program = vec![
        word(Instr::Imm { r: 1, value: 0x100_0000 }),
        word(Instr::Imm { r: 2, value: 0x100_0000 }),
        word(Instr::Mul { a: 3, b: 1, c: 2 }),
        word(Instr::Out { c: 3 }),
        word(Instr::Halt),
    ];
    let mut cpu = CPU::new(&program);
    assert!(matches!(cpu.execute(), ExitCode::Output(0)));
}

#[test]
fn alloc_free_alloc_reuses_handle_with_new_size_zeroed() {
    let program = vec![
        word(Instr::Imm { r: 1, value: 4 }),
        word(Instr::Alloc { b: 2, c: 1 }),
        word(Instr::Out { c: 2 }),
        word(Instr::Free { c: 2 }),
        word(Instr::Imm { r: 1, value: 7 }),
        word(Instr::Alloc { b: 4, c: 1 }),
        word(Instr::Out { c: 4 }),
        word(Instr::Imm { r: 6, value: 6 }),
        word(Instr::Rmem { a: 5, b: 4, c: 6 }),
        word(Instr::Out { c: 5 }),
        word(Instr::Halt),
    ];
    let mut cpu = CPU::new(&program);
    // First allocation appends a fresh segment: handle 1.
    assert!(matches!(cpu.execute(), ExitCode::Output(1)));
    // After freeing it, the next allocation reuses handle 1.
    assert!(matches!(cpu.execute(), ExitCode::Output(1)));
    // The reused segment is resized to 7 words and zero-filled: its last
    // word reads back as 0.
    assert!(matches!(cpu.execute(), ExitCode::Output(0)));
    assert!(matches!(cpu.execute(), ExitCode::Halted));
}

#[test]
fn jump_with_zero_register_only_sets_program_counter() {
    // reg2 = 4; JUMP with reg[b] = reg0 = 0 moves the counter to 4 without
    // touching segment 0, so the OUT at address 4 runs next.
    let program = vec![
        word(Instr::Imm { r: 1, value: 3 }),
        word(Instr::Imm { r: 2, value: 4 }),
        word(Instr::Jump { b: 0, c: 2 }),
        word(Instr::Halt),
        word(Instr::Out { c: 1 }),
        word(Instr::Halt),
    ];
    let mut cpu = CPU::new(&program);
    assert!(matches!(cpu.execute(), ExitCode::Output(3)));
    assert!(matches!(cpu.execute(), ExitCode::Halted));
}

#[test]
fn jump_with_nonzero_register_replaces_program_segment() {
    // Build a two-word program (OUT reg1; HALT) inside a fresh segment by
    // computing the instruction words arithmetically, then jump into it.
    let program = vec![
        word(Instr::Imm { r: 1, value: 65 }),
        word(Instr::Imm { r: 2, value: 2 }),
        word(Instr::Alloc { b: 3, c: 2 }),
        word(Instr::Imm { r: 4, value: 0x100_0000 }),
        word(Instr::Imm { r: 6, value: 160 }),
        word(Instr::Mul { a: 5, b: 4, c: 6 }),
        word(Instr::Imm { r: 7, value: 1 }),
        word(Instr::Add { a: 5, b: 5, c: 7 }),
        word(Instr::Wmem { a: 3, b: 0, c: 5 }),
        word(Instr::Imm { r: 6, value: 112 }),
        word(Instr::Mul { a: 5, b: 4, c: 6 }),
        word(Instr::Wmem { a: 3, b: 7, c: 5 }),
        word(Instr::Jump { b: 3, c: 0 }),
    ];
    assert_eq!(160 * 0x100_0000u64 + 1, 0xA000_0001u64); // encodes OUT reg1
    assert_eq!(112 * 0x100_0000u64, 0x7000_0000u64); // encodes HALT
    let mut cpu = CPU::new(&program);
    assert!(matches!(cpu.execute(), ExitCode::Output(65)));
    assert!(matches!(cpu.execute(), ExitCode::Halted));
}

#[test]
fn in_with_empty_queue_suspends_and_retries_same_instruction() {
    let program = vec![
        word(Instr::In { c: 1 }),
        word(Instr::Out { c: 1 }),
        word(Instr::Halt),
    ];
    let mut cpu = CPU::new(&program);
    // No input queued: the machine suspends, leaving the counter on the IN.
    assert!(matches!(cpu.execute(), ExitCode::NeedInput));
    // Still nothing: the same IN re-executes and suspends again.
    assert!(matches!(cpu.execute(), ExitCode::NeedInput));
    cpu.push_str("x");
    // Now the same IN consumes 'x' and execution advances normally.
    assert!(matches!(cpu.execute(), ExitCode::Output(120)));
    assert!(matches!(cpu.execute(), ExitCode::Halted));
}

#[test]
fn push_str_appends_bytes_and_trailing_newline() {
    let program = vec![
        word(Instr::In { c: 1 }),
        word(Instr::In { c: 2 }),
        word(Instr::In { c: 3 }),
        word(Instr::Out { c: 1 }),
        word(Instr::Out { c: 2 }),
        word(Instr::Out { c: 3 }),
        word(Instr::Halt),
    ];
    let mut cpu = CPU::new(&program);
    cpu.push_str("ok");
    assert!(matches!(cpu.execute(), ExitCode::Output(111)));
    assert!(matches!(cpu.execute(), ExitCode::Output(107)));
    assert!(matches!(cpu.execute(), ExitCode::Output(10)));
    assert!(matches!(cpu.execute(), ExitCode::Halted));
}

#[test]
fn multiply_three_by_three_with_repeated_add() {
    // 3 * 3 computed by repeated addition: reg2 = 3 + 3, reg2 = reg2 + 3.
    let program = vec![
        word(Instr::Imm { r: 1, value: 3 }),
        word(Instr::Add { a: 2, b: 1, c: 1 }),
        word(Instr::Add { a: 2, b: 2, c: 1 }),
        word(Instr::Out { c: 2 }),
        word(Instr::Halt),
    ];
    let mut cpu = CPU::new(&program);
    assert!(matches!(cpu.execute(), ExitCode::Output(9)));
    assert!(matches!(cpu.execute(), ExitCode::Halted));
}

#[test]
fn out_three_times_yields_outputs_in_order() {
    let program = vec![
        word(Instr::Imm { r: 1, value: 97 }),
        word(Instr::Imm { r: 2, value: 98 }),
        word(Instr::Imm { r: 3, value: 99 }),
        word(Instr::Out { c: 1 }),
        word(Instr::Out { c: 2 }),
        word(Instr::Out { c: 3 }),
        word(Instr::Halt),
    ];
    let mut cpu = CPU::new(&program);
    assert!(matches!(cpu.execute(), ExitCode::Output(97)));
    assert!(matches!(cpu.execute(), ExitCode::Output(98)));
    assert!(matches!(cpu.execute(), ExitCode::Output(99)));
    assert!(matches!(cpu.execute(), ExitCode::Halted));
}

#[test]
fn cmove_moves_only_on_nonzero_condition() {
    let program = vec![
        word(Instr::Imm { r: 1, value: 5 }),
        word(Instr::Imm { r: 2, value: 9 }),
        // reg3 (condition) is zero: no move, reg1 stays 5.
        word(Instr::Cmove { a: 1, b: 2, c: 3 }),
        word(Instr::Out { c: 1 }),
        // reg3 nonzero: reg1 takes reg2's value.
        word(Instr::Imm { r: 3, value: 1 }),
        word(Instr::Cmove { a: 1, b: 2, c: 3 }),
        word(Instr::Out { c: 1 }),
        word(Instr::Halt),
    ];
    let mut cpu = CPU::new(&program);
    assert!(matches!(cpu.execute(), ExitCode::Output(5)));
    assert!(matches!(cpu.execute(), ExitCode::Output(9)));
}

#[test]
fn div_and_nand_compute_unsigned_results() {
    let program = vec![
        word(Instr::Imm { r: 1, value: 17 }),
        word(Instr::Imm { r: 2, value: 5 }),
        word(Instr::Div { a: 3, b: 1, c: 2 }),
        word(Instr::Out { c: 3 }),
        word(Instr::Nand { a: 4, b: 0, c: 0 }),
        word(Instr::Div { a: 5, b: 4, c: 2 }),
        word(Instr::Out { c: 5 }),
        word(Instr::Halt),
    ];
    let mut cpu = CPU::new(&program);
    assert!(matches!(cpu.execute(), ExitCode::Output(3)));
    // 0xFFFF_FFFF / 5 = 0x3333_3333.
    assert!(matches!(cpu.execute(), ExitCode::Output(0x3333_3333)));
}
