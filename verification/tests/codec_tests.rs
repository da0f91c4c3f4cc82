use umvm::isa::{decode, encode, Instr};
use umvm::loader::{load, LoadError};

#[test]
fn load_turns_big_endian_byte_quadruples_into_words() {
    let bytes = [0xDE, 0xAD, 0xBE, 0xEF, 0x00, 0x00, 0x00, 0x2A];
    let words = load(&bytes).unwrap();
    assert_eq!(words, vec![0xDEAD_BEEF, 42]);
}

#[test]
fn load_of_empty_stream_is_empty_program() {
    let words = load(&[]).unwrap();
    assert_eq!(words, Vec::<u32>::new());
}

#[test]
fn load_rejects_length_not_multiple_of_four() {
    let bytes = [1, 2, 3, 4, 5];
    assert_eq!(load(&bytes), Err(LoadError::UnalignedLength));
}

#[test]
fn decode_reads_three_register_fields() {
    // opcode 3 (ADD), a = 7, b = 5, c = 2.
    let w = (3 << 28) | (7 << 6) | (5 << 3) | 2;
    assert_eq!(decode(w), Some(Instr::Add { a: 7, b: 5, c: 2 }));
}

#[test]
fn decode_reads_immediate_layout() {
    let w = (13 << 28) | (6 << 25) | 0x1AB_CDEF;
    assert_eq!(decode(w), Some(Instr::Imm { r: 6, value: 0x1AB_CDEF }));
}

#[test]
fn decode_rejects_unknown_opcodes() {
    assert_eq!(decode(14 << 28), None);
    assert_eq!(decode(0xF000_0000), None);
}

#[test]
fn encode_then_decode_returns_same_instruction_for_every_opcode() {
    let samples = vec![
        Instr::Cmove { a: 1, b: 2, c: 3 },
        Instr::Rmem { a: 4, b: 5, c: 6 },
        Instr::Wmem { a: 7, b: 0, c: 1 },
        Instr::Add { a: 2, b: 3, c: 4 },
        Instr::Mul { a: 5, b: 6, c: 7 },
        Instr::Div { a: 0, b: 1, c: 2 },
        Instr::Nand { a: 3, b: 4, c: 5 },
        Instr::Halt,
        Instr::Alloc { b: 6, c: 7 },
        Instr::Free { c: 0 },
        Instr::Out { c: 1 },
        Instr::In { c: 2 },
        Instr::Jump { b: 3, c: 4 },
        Instr::Imm { r: 5, value: 0x155_AA55 },
    ];
    for i in samples {
        assert_eq!(decode(encode(i)), Some(i));
    }
}

#[test]
fn decode_then_encode_reproduces_canonical_words_for_every_opcode() {
    let words = vec![
        (0 << 28) | (1 << 6) | (2 << 3) | 3, // CMOVE
        (1 << 28) | (4 << 6) | (5 << 3) | 6, // RMEM
        (2 << 28) | (7 << 6) | (0 << 3) | 1, // WMEM
        (3 << 28) | (2 << 6) | (3 << 3) | 4, // ADD
        (4 << 28) | (5 << 6) | (6 << 3) | 7, // MUL
        (5u32 << 28) | (0 << 6) | (1 << 3) | 2, // DIV
        (6u32 << 28) | (3 << 6) | (4 << 3) | 5, // NAND
        7u32 << 28, // HALT
        (8u32 << 28) | (6 << 3) | 7, // ALLOC
        (9u32 << 28) | 3, // FREE
        (10u32 << 28) | 4, // OUT
        (11u32 << 28) | 5, // IN
        (12u32 << 28) | (1 << 3) | 2, // JUMP
        (13u32 << 28) | (4 << 25) | 0x0FE_DCBA, // IMM
    ];
    for w in words {
        let i = decode(w).unwrap();
        assert_eq!(encode(i), w);
    }
}
