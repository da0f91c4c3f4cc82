//! The instruction encoding: one 32-bit word per instruction, the top four
//! bits selecting one of fourteen operations, the remaining bits interpreted
//! per operation (three 3-bit register fields, or a register selector and a
//! 25-bit immediate).

use vstd::prelude::*;

verus! {

pub const OP_CMOVE: u32 = 0;
pub const OP_RMEM: u32 = 1;
pub const OP_WMEM: u32 = 2;
pub const OP_ADD: u32 = 3;
pub const OP_MUL: u32 = 4;
pub const OP_DIV: u32 = 5;
pub const OP_NAND: u32 = 6;
pub const OP_HALT: u32 = 7;
pub const OP_ALLOC: u32 = 8;
pub const OP_FREE: u32 = 9;
pub const OP_OUT: u32 = 10;
pub const OP_IN: u32 = 11;
pub const OP_JUMP: u32 = 12;
pub const OP_IMM: u32 = 13;

/// One more than the largest value that fits in the 25-bit immediate field.
pub const IMM_LIMIT: u32 = 0x200_0000;

/// The operation selector: the top four bits of the word.
pub open spec fn opcode(w: u32) -> u32 {
    w >> 28
}

/// Register field `a`, at bit offset 6.
pub open spec fn field_a(w: u32) -> int {
    ((w >> 6) & 7) as int
}

/// Register field `b`, at bit offset 3.
pub open spec fn field_b(w: u32) -> int {
    ((w >> 3) & 7) as int
}

/// Register field `c`, at bit offset 0.
pub open spec fn field_c(w: u32) -> int {
    (w & 7) as int
}

/// Register selector of an IMM instruction, at bit offset 25.
pub open spec fn field_imm_reg(w: u32) -> int {
    ((w >> 25) & 7) as int
}

/// The 25-bit unsigned immediate of an IMM instruction.
pub open spec fn field_imm_val(w: u32) -> u32 {
    w & 0x1FF_FFFF
}

pub proof fn lemma_fields_bounded(w: u32)
    ensures
        0 <= field_a(w) < 8,
        0 <= field_b(w) < 8,
        0 <= field_c(w) < 8,
        0 <= field_imm_reg(w) < 8,
        field_imm_val(w) < IMM_LIMIT,
{
    assert((w >> 6) & 7 < 8 && (w >> 3) & 7 < 8 && w & 7 < 8 && (w >> 25) & 7 < 8 && w
        & 0x1FF_FFFF < 0x200_0000) by (bit_vector);
}

/// A decoded instruction. Register operands are always in `0..8`; an
/// immediate is always below `IMM_LIMIT`.
#[derive(Clone, Copy, Debug, PartialEq, Eq, Structural)]
pub enum Instr {
    Cmove { a: u8, b: u8, c: u8 },
    Rmem { a: u8, b: u8, c: u8 },
    Wmem { a: u8, b: u8, c: u8 },
    Add { a: u8, b: u8, c: u8 },
    Mul { a: u8, b: u8, c: u8 },
    Div { a: u8, b: u8, c: u8 },
    Nand { a: u8, b: u8, c: u8 },
    Halt,
    Alloc { b: u8, c: u8 },
    Free { c: u8 },
    Out { c: u8 },
    In { c: u8 },
    Jump { b: u8, c: u8 },
    Imm { r: u8, value: u32 },
}

/// All operand fields of the instruction are small enough for their encoding
/// fields.
pub open spec fn instr_fits(i: Instr) -> bool {
    match i {
        Instr::Cmove { a, b, c } => a < 8 && b < 8 && c < 8,
        Instr::Rmem { a, b, c } => a < 8 && b < 8 && c < 8,
        Instr::Wmem { a, b, c } => a < 8 && b < 8 && c < 8,
        Instr::Add { a, b, c } => a < 8 && b < 8 && c < 8,
        Instr::Mul { a, b, c } => a < 8 && b < 8 && c < 8,
        Instr::Div { a, b, c } => a < 8 && b < 8 && c < 8,
        Instr::Nand { a, b, c } => a < 8 && b < 8 && c < 8,
        Instr::Halt => true,
        Instr::Alloc { b, c } => b < 8 && c < 8,
        Instr::Free { c } => c < 8,
        Instr::Out { c } => c < 8,
        Instr::In { c } => c < 8,
        Instr::Jump { b, c } => b < 8 && c < 8,
        Instr::Imm { r, value } => r < 8 && value < IMM_LIMIT,
    }
}

/// What word a decoded instruction stands for: operation selector in the top
/// four bits, operands in the per-operation fields, every unused bit zero.
pub open spec fn spec_encode(i: Instr) -> u32 {
    match i {
        Instr::Cmove { a, b, c } => three_reg_word(OP_CMOVE, a, b, c),
        Instr::Rmem { a, b, c } => three_reg_word(OP_RMEM, a, b, c),
        Instr::Wmem { a, b, c } => three_reg_word(OP_WMEM, a, b, c),
        Instr::Add { a, b, c } => three_reg_word(OP_ADD, a, b, c),
        Instr::Mul { a, b, c } => three_reg_word(OP_MUL, a, b, c),
        Instr::Div { a, b, c } => three_reg_word(OP_DIV, a, b, c),
        Instr::Nand { a, b, c } => three_reg_word(OP_NAND, a, b, c),
        Instr::Halt => OP_HALT << 28,
        Instr::Alloc { b, c } => three_reg_word(OP_ALLOC, 0, b, c),
        Instr::Free { c } => three_reg_word(OP_FREE, 0, 0, c),
        Instr::Out { c } => three_reg_word(OP_OUT, 0, 0, c),
        Instr::In { c } => three_reg_word(OP_IN, 0, 0, c),
        Instr::Jump { b, c } => three_reg_word(OP_JUMP, 0, b, c),
        Instr::Imm { r, value } => (OP_IMM << 28) | ((r as u32) << 25) | value,
    }
}

/// A word in the three-register layout (also used with fewer registers, the
/// unused fields zero).
pub open spec fn three_reg_word(op: u32, a: u8, b: u8, c: u8) -> u32 {
    (op << 28) | ((a as u32) << 6) | ((b as u32) << 3) | (c as u32)
}

/// What `decode` returns for a word: the instruction whose operands are the
/// word's fields, or nothing when the operation selector is unknown.
pub open spec fn spec_decode(w: u32) -> Option<Instr> {
    let a = field_a(w) as u8;
    let b = field_b(w) as u8;
    let c = field_c(w) as u8;
    if opcode(w) == OP_CMOVE {
        Some(Instr::Cmove { a, b, c })
    } else if opcode(w) == OP_RMEM {
        Some(Instr::Rmem { a, b, c })
    } else if opcode(w) == OP_WMEM {
        Some(Instr::Wmem { a, b, c })
    } else if opcode(w) == OP_ADD {
        Some(Instr::Add { a, b, c })
    } else if opcode(w) == OP_MUL {
        Some(Instr::Mul { a, b, c })
    } else if opcode(w) == OP_DIV {
        Some(Instr::Div { a, b, c })
    } else if opcode(w) == OP_NAND {
        Some(Instr::Nand { a, b, c })
    } else if opcode(w) == OP_HALT {
        Some(Instr::Halt)
    } else if opcode(w) == OP_ALLOC {
        Some(Instr::Alloc { b, c })
    } else if opcode(w) == OP_FREE {
        Some(Instr::Free { c })
    } else if opcode(w) == OP_OUT {
        Some(Instr::Out { c })
    } else if opcode(w) == OP_IN {
        Some(Instr::In { c })
    } else if opcode(w) == OP_JUMP {
        Some(Instr::Jump { b, c })
    } else if opcode(w) == OP_IMM {
        Some(Instr::Imm { r: field_imm_reg(w) as u8, value: field_imm_val(w) })
    } else {
        None
    }
}

/// Decode one instruction word; `None` exactly when the operation selector is
/// not one of the fourteen operations.
pub fn decode(w: u32) -> (r: Option<Instr>)
    ensures
        r == spec_decode(w),
        r is Some <==> opcode(w) <= 13,
{
    proof {
        lemma_fields_bounded(w);
    }
    let op = w >> 28;
    let a = ((w >> 6) & 7) as u8;
    let b = ((w >> 3) & 7) as u8;
    let c = (w & 7) as u8;
    if op == OP_CMOVE {
        Some(Instr::Cmove { a, b, c })
    } else if op == OP_RMEM {
        Some(Instr::Rmem { a, b, c })
    } else if op == OP_WMEM {
        Some(Instr::Wmem { a, b, c })
    } else if op == OP_ADD {
        Some(Instr::Add { a, b, c })
    } else if op == OP_MUL {
        Some(Instr::Mul { a, b, c })
    } else if op == OP_DIV {
        Some(Instr::Div { a, b, c })
    } else if op == OP_NAND {
        Some(Instr::Nand { a, b, c })
    } else if op == OP_HALT {
        Some(Instr::Halt)
    } else if op == OP_ALLOC {
        Some(Instr::Alloc { b, c })
    } else if op == OP_FREE {
        Some(Instr::Free { c })
    } else if op == OP_OUT {
        Some(Instr::Out { c })
    } else if op == OP_IN {
        Some(Instr::In { c })
    } else if op == OP_JUMP {
        Some(Instr::Jump { b, c })
    } else if op == OP_IMM {
        Some(Instr::Imm { r: ((w >> 25) & 7) as u8, value: w & 0x1FF_FFFF })
    } else {
        None
    }
}

/// Re-encode a decoded instruction into its 32-bit word.
pub fn encode(i: Instr) -> (r: u32)
    requires
        instr_fits(i),
    ensures
        r == spec_encode(i),
{
    match i {
        Instr::Cmove { a, b, c } => encode_three_reg(OP_CMOVE, a, b, c),
        Instr::Rmem { a, b, c } => encode_three_reg(OP_RMEM, a, b, c),
        Instr::Wmem { a, b, c } => encode_three_reg(OP_WMEM, a, b, c),
        Instr::Add { a, b, c } => encode_three_reg(OP_ADD, a, b, c),
        Instr::Mul { a, b, c } => encode_three_reg(OP_MUL, a, b, c),
        Instr::Div { a, b, c } => encode_three_reg(OP_DIV, a, b, c),
        Instr::Nand { a, b, c } => encode_three_reg(OP_NAND, a, b, c),
        Instr::Halt => OP_HALT << 28,
        Instr::Alloc { b, c } => encode_three_reg(OP_ALLOC, 0, b, c),
        Instr::Free { c } => encode_three_reg(OP_FREE, 0, 0, c),
        Instr::Out { c } => encode_three_reg(OP_OUT, 0, 0, c),
        Instr::In { c } => encode_three_reg(OP_IN, 0, 0, c),
        Instr::Jump { b, c } => encode_three_reg(OP_JUMP, 0, b, c),
        Instr::Imm { r, value } => (OP_IMM << 28) | ((r as u32) << 25) | value,
    }
}

fn encode_three_reg(op: u32, a: u8, b: u8, c: u8) -> (r: u32)
    requires
        op <= 13,
        a < 8,
        b < 8,
        c < 8,
    ensures
        r == three_reg_word(op, a, b, c),
{
    (op << 28) | ((a as u32) << 6) | ((b as u32) << 3) | (c as u32)
}

/// A word is canonical when its operation selector is known and every bit
/// its operand layout leaves unused is zero — exactly the words `encode`
/// produces.
pub open spec fn canonical(w: u32) -> bool {
    let op = opcode(w);
    &&& op <= 13
    &&& (op <= 6 ==> w & 0x0FFF_FE00 == 0)
    &&& (op == 7 ==> w & 0x0FFF_FFFF == 0)
    &&& ((op == 8 || op == 12) ==> w & 0x0FFF_FFC0 == 0)
    &&& ((op == 9 || op == 10 || op == 11) ==> w & 0x0FFF_FFF8 == 0)
}

/// Law: encoding is left inverse to decoding — decoding any canonical word
/// and re-encoding the operands reproduces the original word, for every
/// opcode in the table.
pub proof fn lemma_decode_encode(w: u32)
    requires
        canonical(w),
    ensures
        spec_decode(w) is Some,
        (spec_decode(w) matches Some(i) && spec_encode(i) == w),
{
    lemma_fields_bounded(w);
    assert({
        &&& (w >> 28 <= 6 && w & 0x0FFF_FE00 == 0 ==> ((w >> 28) << 28) | (((w >> 6) & 7) << 6) | (
        ((w >> 3) & 7) << 3) | (w & 7) == w)
        &&& (w >> 28 == 7 && w & 0x0FFF_FFFF == 0 ==> (7u32 << 28) == w)
        &&& ((w >> 28 == 8 || w >> 28 == 12) && w & 0x0FFF_FFC0 == 0 ==> ((w >> 28) << 28) | ((
        0u32) << 6) | (((w >> 3) & 7) << 3) | (w & 7) == w)
        &&& ((w >> 28 == 9 || w >> 28 == 10 || w >> 28 == 11) && w & 0x0FFF_FFF8 == 0 ==> ((w
            >> 28) << 28) | ((0u32) << 6) | ((0u32) << 3) | (w & 7) == w)
        &&& (w >> 28 == 13 ==> (13u32 << 28) | (((w >> 25) & 7) << 25) | (w & 0x1FF_FFFF) == w)
    }) by (bit_vector);
}

proof fn lemma_three_reg_fields(op: u32, a: u8, b: u8, c: u8)
    requires
        op <= 13,
        a < 8,
        b < 8,
        c < 8,
    ensures
        opcode(three_reg_word(op, a, b, c)) == op,
        field_a(three_reg_word(op, a, b, c)) == a,
        field_b(three_reg_word(op, a, b, c)) == b,
        field_c(three_reg_word(op, a, b, c)) == c,
{
    let aa = a as u32;
    let bb = b as u32;
    let cc = c as u32;
    assert(op <= 13 && aa < 8 && bb < 8 && cc < 8 ==> {
        &&& ((op << 28) | (aa << 6) | (bb << 3) | cc) >> 28 == op
        &&& (((op << 28) | (aa << 6) | (bb << 3) | cc) >> 6) & 7 == aa
        &&& (((op << 28) | (aa << 6) | (bb << 3) | cc) >> 3) & 7 == bb
        &&& ((op << 28) | (aa << 6) | (bb << 3) | cc) & 7 == cc
    }) by (bit_vector);
}

proof fn lemma_imm_fields(r: u8, v: u32)
    requires
        r < 8,
        v < IMM_LIMIT,
    ensures
        opcode((OP_IMM << 28) | ((r as u32) << 25) | v) == OP_IMM,
        field_imm_reg((OP_IMM << 28) | ((r as u32) << 25) | v) == r,
        field_imm_val((OP_IMM << 28) | ((r as u32) << 25) | v) == v,
{
    let rr = r as u32;
    assert(rr < 8 && v < 0x200_0000 ==> {
        &&& ((13u32 << 28) | (rr << 25) | v) >> 28 == 13
        &&& (((13u32 << 28) | (rr << 25) | v) >> 25) & 7 == rr
        &&& ((13u32 << 28) | (rr << 25) | v) & 0x1FF_FFFF == v
    }) by (bit_vector);
}

/// Law: decoding is left inverse to encoding — the word built from any
/// well-formed instruction decodes back to that same instruction, for every
/// opcode in the table.
pub proof fn lemma_encode_decode(i: Instr)
    requires
        instr_fits(i),
    ensures
        spec_decode(spec_encode(i)) == Some(i),
{
    match i {
        Instr::Cmove { a, b, c } => lemma_three_reg_fields(OP_CMOVE, a, b, c),
        Instr::Rmem { a, b, c } => lemma_three_reg_fields(OP_RMEM, a, b, c),
        Instr::Wmem { a, b, c } => lemma_three_reg_fields(OP_WMEM, a, b, c),
        Instr::Add { a, b, c } => lemma_three_reg_fields(OP_ADD, a, b, c),
        Instr::Mul { a, b, c } => lemma_three_reg_fields(OP_MUL, a, b, c),
        Instr::Div { a, b, c } => lemma_three_reg_fields(OP_DIV, a, b, c),
        Instr::Nand { a, b, c } => lemma_three_reg_fields(OP_NAND, a, b, c),
        Instr::Halt => lemma_three_reg_fields(OP_HALT, 0, 0, 0),
        Instr::Alloc { b, c } => lemma_three_reg_fields(OP_ALLOC, 0, b, c),
        Instr::Free { c } => lemma_three_reg_fields(OP_FREE, 0, 0, c),
        Instr::Out { c } => lemma_three_reg_fields(OP_OUT, 0, 0, c),
        Instr::In { c } => lemma_three_reg_fields(OP_IN, 0, 0, c),
        Instr::Jump { b, c } => lemma_three_reg_fields(OP_JUMP, 0, b, c),
        Instr::Imm { r, value } => lemma_imm_fields(r, value),
    }
    if i is Halt {
        assert(spec_encode(i) == three_reg_word(OP_HALT, 0, 0, 0)) by {
            assert((7u32 << 28) == (7u32 << 28) | ((0u32) << 6) | ((0u32) << 3) | (0u32))
                by (bit_vector);
        }
    }
}

} // verus!
