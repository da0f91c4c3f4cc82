//! A register-based virtual machine executing 32-bit-word bytecode programs
//! stored in dynamically allocated memory segments, together with its
//! word-level program loader, an instruction codec for disassembly, a
//! text-adventure crafting-dependency solver, and a small unrelated 8-bit
//! demonstration machine.

pub mod adventure;
pub mod balance;
pub mod isa;
pub mod loader;
pub mod machine;
