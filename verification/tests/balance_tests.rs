use umvm::balance::{sext5, BalanceVM};

#[test]
fn sext5_extends_the_sign_of_five_bit_values() {
    assert_eq!(sext5(0), 0);
    assert_eq!(sext5(1), 1);
    assert_eq!(sext5(0x0F), 0x0F);
    assert_eq!(sext5(0x10), 0xF0);
    assert_eq!(sext5(0x1E), 0xFE);
    assert_eq!(sext5(0x1F), 0xFF);
    // Bits above the low five are ignored.
    assert_eq!(sext5(0b0110_0010), 2);
}

#[test]
fn rmem_and_wmem_go_through_the_selector_and_data_registers() {
    let mut mem = [0u8; 256];
    mem[7] = 99;
    let mut vm = BalanceVM {
        ip: 0,
        is: 1,
        sr: [7, 1, 2, 3],
        dr: [20, 21],
        mem,
        code: vec![0],
    };
    assert_eq!(vm.rmem(0), 99);
    // Selector index is taken modulo 4.
    assert_eq!(vm.rmem(4), 99);
    vm.wmem(1, 55);
    assert_eq!(vm.mem[21], 55);
    // Data index is taken modulo 2.
    vm.wmem(2, 66);
    assert_eq!(vm.mem[20], 66);
}

#[test]
fn multiply_test_program_computes_three_times_three() {
    let program: [u8; 12] = [
        0b011_00010, 0b011_11100, 0b011_11111, 0b001_11001, 0b011_10010, 0b000_00000,
        0b010_00110, 0b011_11111, 0b011_11100, 0b000_00001, 0b001_11101, 0b000_11110,
    ];
    let mut mem = [0u8; 256];
    mem[0] = 3;
    mem[1] = 3;
    let mut vm = BalanceVM {
        ip: 0,
        is: 1,
        sr: [0, 1, 2, 3],
        dr: [4, 5],
        mem,
        code: program.to_vec(),
    };
    vm.execute();
    assert_eq!(vm.mem[2], 3 * 3);
}
