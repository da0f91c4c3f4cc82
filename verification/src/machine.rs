//! The Machine: eight 32-bit registers, a table of independently sized
//! memory segments with free-slot reuse, an input queue of pending bytes,
//! and a fetch-decode-execute loop over segment 0 that suspends on output
//! and on missing input.

use vstd::prelude::*;
use std::collections::VecDeque;
use vstd::string::StringSliceAdditionalSpecFns;
use crate::isa::{
    opcode, field_a, field_b, field_c, field_imm_reg, field_imm_val, lemma_fields_bounded,
    OP_CMOVE, OP_RMEM, OP_WMEM, OP_ADD, OP_MUL, OP_DIV, OP_NAND, OP_HALT, OP_ALLOC, OP_FREE,
    OP_OUT, OP_IN, OP_JUMP, OP_IMM,
};

verus! {

/// The abstract state of the Machine: the register file, the program
/// counter, the contents of every segment (index 0 is the program), the
/// pending input bytes, and the queue of freed segment handles.
#[verifier::ext_equal]
pub ghost struct MachineView {
    pub regs: Seq<u32>,
    pub pc: nat,
    pub segs: Seq<Seq<u32>>,
    pub input: Seq<u8>,
    pub free: Seq<u32>,
}

/// What one fetch-decode-execute step yields: the machine keeps running, it
/// suspends carrying an output word or a request for input, it halts, or it
/// hits a fatal condition (bad program counter, unknown opcode, division by
/// zero, out-of-bounds segment access).
#[verifier::ext_equal]
pub ghost enum Outcome {
    Cont(MachineView),
    Output(MachineView, u32),
    NeedInput(MachineView),
    Halted(MachineView),
    Fault,
}

/// A segment of `size` words, all zero.
pub open spec fn zero_seg(size: u32) -> Seq<u32> {
    Seq::new(size as nat, |i: int| 0u32)
}

/// A segment resized to `n` words: the prefix kept, any extension zero-filled.
pub open spec fn resized(s: Seq<u32>, n: nat) -> Seq<u32> {
    Seq::new(n, |i: int| if i < s.len() { s[i] } else { 0u32 })
}

/// Allocation over the segment table: the first freed handle is reused, its
/// cleared backing array resized to the requested size; with no freed handle
/// a fresh zero-filled segment is appended and its index is the new handle.
pub open spec fn spec_alloc(segs: Seq<Seq<u32>>, free: Seq<u32>, size: u32) -> (Seq<Seq<u32>>, Seq<
    u32,
>, u32) {
    if free.len() > 0 {
        let h = free[0];
        (segs.update(h as int, resized(segs[h as int], size as nat)), free.drop_first(), h)
    } else {
        let h = segs.len() as u32;
        (segs.push(zero_seg(size)), free, h)
    }
}

/// Freeing over the segment table: the backing array is cleared at once and
/// the handle joins the tail of the free queue.
pub open spec fn spec_free(segs: Seq<Seq<u32>>, free: Seq<u32>, h: u32) -> (Seq<Seq<u32>>, Seq<
    u32,
>) {
    (segs.update(h as int, Seq::<u32>::empty()), free.push(h))
}

/// Unsigned 32-bit sum with silent wraparound.
pub open spec fn add_mod(x: u32, y: u32) -> u32 {
    ((x + y) % 0x1_0000_0000) as u32
}

/// Unsigned 32-bit product with silent wraparound.
pub open spec fn mul_mod(x: u32, y: u32) -> u32 {
    ((x * y) % 0x1_0000_0000) as u32
}

/// One fetch-decode-execute step of the Machine, §4.3's opcode table: fetch
/// the word at the program counter from segment 0, advance the counter,
/// dispatch on the top four bits.
pub open spec fn step(m: MachineView) -> Outcome {
    if m.regs.len() != 8 || m.segs.len() == 0 || m.pc >= m.segs[0].len() {
        Outcome::Fault
    } else {
        let w = m.segs[0][m.pc as int];
        let m1 = MachineView { pc: m.pc + 1, ..m };
        let a = field_a(w);
        let b = field_b(w);
        let c = field_c(w);
        let op = opcode(w);
        if op == OP_CMOVE {
            if m.regs[c] != 0 {
                Outcome::Cont(MachineView { regs: m1.regs.update(a, m1.regs[b]), ..m1 })
            } else {
                Outcome::Cont(m1)
            }
        } else if op == OP_RMEM {
            let sb = m.regs[b] as int;
            let oc = m.regs[c] as int;
            if sb >= m.segs.len() || oc >= m.segs[sb].len() {
                Outcome::Fault
            } else {
                Outcome::Cont(MachineView { regs: m1.regs.update(a, m.segs[sb][oc]), ..m1 })
            }
        } else if op == OP_WMEM {
            let sa = m.regs[a] as int;
            let ob = m.regs[b] as int;
            if sa >= m.segs.len() || ob >= m.segs[sa].len() {
                Outcome::Fault
            } else {
                Outcome::Cont(
                    MachineView {
                        segs: m1.segs.update(sa, m1.segs[sa].update(ob, m.regs[c])),
                        ..m1
                    },
                )
            }
        } else if op == OP_ADD {
            Outcome::Cont(MachineView { regs: m1.regs.update(a, add_mod(m.regs[b], m.regs[c])), ..m1 })
        } else if op == OP_MUL {
            Outcome::Cont(MachineView { regs: m1.regs.update(a, mul_mod(m.regs[b], m.regs[c])), ..m1 })
        } else if op == OP_DIV {
            if m.regs[c] == 0 {
                Outcome::Fault
            } else {
                Outcome::Cont(
                    MachineView {
                        regs: m1.regs.update(a, (m.regs[b] as int / m.regs[c] as int) as u32),
                        ..m1
                    },
                )
            }
        } else if op == OP_NAND {
            Outcome::Cont(MachineView { regs: m1.regs.update(a, !(m.regs[b] & m.regs[c])), ..m1 })
        } else if op == OP_HALT {
            Outcome::Halted(m1)
        } else if op == OP_ALLOC {
            if m.free.len() > 0 && m.free[0] as int >= m.segs.len() {
                Outcome::Fault
            } else {
                let (segs2, free2, h) = spec_alloc(m.segs, m.free, m.regs[c]);
                Outcome::Cont(
                    MachineView { regs: m1.regs.update(b, h), segs: segs2, free: free2, ..m1 },
                )
            }
        } else if op == OP_FREE {
            let h = m.regs[c];
            if h as int >= m.segs.len() {
                Outcome::Fault
            } else {
                let (segs2, free2) = spec_free(m.segs, m.free, h);
                Outcome::Cont(MachineView { segs: segs2, free: free2, ..m1 })
            }
        } else if op == OP_OUT {
            Outcome::Output(m1, m.regs[c])
        } else if op == OP_IN {
            if m.input.len() > 0 {
                Outcome::Cont(
                    MachineView {
                        regs: m1.regs.update(c, m.input[0] as u32),
                        input: m.input.drop_first(),
                        ..m1
                    },
                )
            } else {
                Outcome::NeedInput(m)
            }
        } else if op == OP_JUMP {
            let t = m.regs[b];
            if t == 0 {
                Outcome::Cont(MachineView { pc: m.regs[c] as nat, ..m })
            } else if t as int >= m.segs.len() {
                Outcome::Fault
            } else {
                Outcome::Cont(
                    MachineView {
                        pc: m.regs[c] as nat,
                        segs: m.segs.update(0, m.segs[t as int]),
                        ..m
                    },
                )
            }
        } else if op == OP_IMM {
            Outcome::Cont(MachineView { regs: m1.regs.update(field_imm_reg(w), field_imm_val(w)), ..m1 })
        } else {
            Outcome::Fault
        }
    }
}

/// The machine after `n` steps: the state still running, or the first
/// suspension, halt or fault reached within `n` steps.
pub open spec fn run(m: MachineView, n: nat) -> Outcome
    decreases n,
{
    if n == 0 {
        Outcome::Cont(m)
    } else {
        match step(m) {
            Outcome::Cont(m2) => run(m2, (n - 1) as nat),
            o => o,
        }
    }
}

/// A suspension or terminal outcome: output produced, input required, or the
/// machine halted — the three conditions on which `execute` returns.
pub open spec fn is_suspension(o: Outcome) -> bool {
    !(o is Cont) && !(o is Fault)
}

/// Execution from `m` eventually suspends or halts, and in particular never
/// hits a fatal condition first.
pub open spec fn reaches_suspension(m: MachineView) -> bool {
    exists|n: nat| is_suspension(run(m, n))
}

/// Running one step more runs `step` on the state where `run` stopped.
pub proof fn lemma_run_step(m: MachineView, n: nat)
    ensures
        run(m, n + 1) == (match run(m, n) {
            Outcome::Cont(m2) => step(m2),
            o => o,
        }),
    decreases n,
{
    reveal_with_fuel(run, 2);
    if n > 0 {
        match step(m) {
            Outcome::Cont(m2) => {
                lemma_run_step(m2, (n - 1) as nat);
            }
            _ => {}
        }
    }
}

/// Once `run` has reached a suspension, halt or fault, running longer
/// returns the same outcome.
pub proof fn lemma_run_sticks(m: MachineView, n1: nat, n2: nat)
    requires
        !(run(m, n1) is Cont),
        n1 <= n2,
    ensures
        run(m, n2) == run(m, n1),
    decreases n1,
{
    match step(m) {
        Outcome::Cont(m2) => {
            lemma_run_sticks(m2, (n1 - 1) as nat, (n2 - 1) as nat);
        }
        _ => {}
    }
}

/// Result of a call to `execute`: an output word was produced, input is
/// required before execution can continue, or the program halted.
pub enum ExitCode {
    Output(u32),
    NeedInput,
    Halted,
}

/// The Machine. It exclusively owns all its state; `execute` and `push_str`
/// are the only mutation entry points.
pub struct CPU {
    reg: [u32; 8],
    pc: usize,
    heap: Vec<Vec<u32>>,
    input: VecDeque<u8>,
    free_list: VecDeque<u32>,
}

impl View for CPU {
    type V = MachineView;

    closed spec fn view(&self) -> MachineView {
        MachineView {
            regs: self.reg@,
            pc: self.pc as nat,
            segs: Seq::new(self.heap@.len(), |i: int| self.heap@[i]@),
            input: self.input@,
            free: self.free_list@,
        }
    }
}

/// The state of a machine freshly constructed from a program: all registers
/// zero, the program counter at 0, the program as segment 0, no pending
/// input and no freed handles.
pub open spec fn initial_view(prog: Seq<u32>) -> MachineView {
    MachineView {
        regs: Seq::new(8, |i: int| 0u32),
        pc: 0,
        segs: seq![prog],
        input: Seq::<u8>::empty(),
        free: Seq::<u32>::empty(),
    }
}

impl CPU {
    /// The machine always owns segment 0; its view therefore always has
    /// eight registers and at least one segment.
    pub closed spec fn wf(&self) -> bool {
        self.heap.len() >= 1
    }

    /// The well-formedness the view guarantees, for callers of the spec-level
    /// `step` and `run`.
    pub proof fn lemma_wf_view(&self)
        requires
            self.wf(),
        ensures
            self@.regs.len() == 8,
            self@.segs.len() >= 1,
    {
    }

    /// Construct a machine whose segment 0 holds the given program.
    pub fn new(program: &[u32]) -> (cpu: Self)
        ensures
            cpu.wf(),
            cpu@ == initial_view(program@),
    {
        let mut heap: Vec<Vec<u32>> = Vec::new();
        heap.push(vstd::slice::slice_to_vec(program));
        let cpu = CPU {
            reg: [0u32; 8],
            pc: 0,
            heap,
            input: VecDeque::new(),
            free_list: VecDeque::new(),
        };
        proof {
            assert(cpu@ =~~= initial_view(program@));
        }
        cpu
    }

    /// Append a line of input: the string's bytes, then a newline, at the
    /// tail of the input queue. Nothing else changes.
    pub fn push_str(&mut self, s: &str)
        requires
            old(self).wf(),
        ensures
            final(self).wf(),
            final(self)@ == (MachineView { input: old(self)@.input + s.spec_bytes() + seq![10u8], ..old(self)@ }),
    {
        let bytes = s.as_bytes();
        let mut i: usize = 0;
        while i < bytes.len()
            invariant
                old(self).wf(),
                self.wf(),
                i <= bytes.len(),
                self@ == (MachineView { input: old(self)@.input + bytes@.take(i as int), ..old(self)@ }),
            decreases bytes.len() - i,
        {
            self.input.push_back(bytes[i]);
            i = i + 1;
            proof {
                assert(bytes@.take(i as int) =~= bytes@.take(i - 1) + seq![bytes@[i - 1]]);
                assert(self@ =~~= (MachineView { input: old(self)@.input + bytes@.take(i as int), ..old(self)@ }));
            }
        }
        self.input.push_back(10u8);
        proof {
            assert(bytes@.take(bytes@.len() as int) == bytes@);
            assert(self@ =~~= (MachineView { input: old(self)@.input + s.spec_bytes() + seq![10u8], ..old(self)@ }));
        }
    }
}

/// What one executed instruction did: the loop goes on, or it suspends with
/// one of the three exit conditions.
enum StepExit {
    Running,
    Output(u32),
    NeedInput,
    Halted,
}

impl CPU {
    /// Fetch, decode and execute exactly one instruction, mirroring `step`.
    #[verifier::rlimit(50)]
    fn step_once(&mut self) -> (r: StepExit)
        requires
            old(self).wf(),
            !(step(old(self)@) is Fault),
        ensures
            final(self).wf(),
            (match r {
                StepExit::Running => step(old(self)@) == Outcome::Cont(final(self)@),
                StepExit::Output(v) => step(old(self)@) == Outcome::Output(final(self)@, v),
                StepExit::NeedInput => step(old(self)@) == Outcome::NeedInput(final(self)@),
                StepExit::Halted => step(old(self)@) == Outcome::Halted(final(self)@),
            }),
    {
        let ghost m0 = self@;
        let pc = self.pc;
        let seg_len = self.heap[0].len();
        assert(pc < seg_len);
        let w = self.heap[0][pc];
        proof {
            lemma_fields_bounded(w);
        }
        self.pc = pc + 1;
        let op = w >> 28;
        let a = ((w >> 6) & 7) as usize;
        let b = ((w >> 3) & 7) as usize;
        let c = (w & 7) as usize;
        if op == OP_CMOVE {
            if self.reg[c] != 0 {
                let v = self.reg[b];
                self.reg[a] = v;
            }
            proof {
                assert(self@ =~~= step(m0)->Cont_0);
            }
            StepExit::Running
        } else if op == OP_RMEM {
            let sb = self.reg[b] as usize;
            let oc = self.reg[c] as usize;
            let v = self.heap[sb][oc];
            self.reg[a] = v;
            proof {
                assert(self@ =~~= step(m0)->Cont_0);
            }
            StepExit::Running
        } else if op == OP_WMEM {
            let sa = self.reg[a] as usize;
            let ob = self.reg[b] as usize;
            let v = self.reg[c];
            self.heap[sa][ob] = v;
            proof {
                assert(self@ =~~= step(m0)->Cont_0);
            }
            StepExit::Running
        } else if op == OP_ADD {
            let v = self.reg[b].wrapping_add(self.reg[c]);
            self.reg[a] = v;
            proof {
                assert(v == add_mod(m0.regs[field_b(w)], m0.regs[field_c(w)]));
                assert(self@ =~~= step(m0)->Cont_0);
            }
            StepExit::Running
        } else if op == OP_MUL {
            let v = self.reg[b].wrapping_mul(self.reg[c]);
            self.reg[a] = v;
            proof {
                assert(v == mul_mod(m0.regs[field_b(w)], m0.regs[field_c(w)]));
                assert(self@ =~~= step(m0)->Cont_0);
            }
            StepExit::Running
        } else if op == OP_DIV {
            let v = self.reg[b] / self.reg[c];
            self.reg[a] = v;
            proof {
                assert(self@ =~~= step(m0)->Cont_0);
            }
            StepExit::Running
        } else if op == OP_NAND {
            let v = !(self.reg[b] & self.reg[c]);
            self.reg[a] = v;
            proof {
                assert(self@ =~~= step(m0)->Cont_0);
            }
            StepExit::Running
        } else if op == OP_HALT {
            proof {
                assert(self@ =~~= step(m0)->Halted_0);
            }
            StepExit::Halted
        } else if op == OP_ALLOC {
            let size = self.reg[c];
            match self.free_list.pop_front() {
                Some(h) => {
                    let hu = h as usize;
                    proof {
                        assert(m0.free[0] == h && (h as int) < m0.segs.len());
                    }
                    let ghost oldseg = self.heap@[hu as int]@;
                    self.heap[hu].resize(size as usize, 0u32);
                    self.reg[b] = h;
                    proof {
                        if size as nat > oldseg.len() {
                            assert forall|i: int|
                                oldseg.len() <= i < size as nat implies self.heap@[hu as int]@[i]
                                == 0u32 by {
                                assert(cloned(0u32, self.heap@[hu as int]@[i]));
                            }
                        }
                        assert(self.heap@[hu as int]@ =~= resized(oldseg, size as nat));
                        assert(self@ =~~= step(m0)->Cont_0);
                    }
                }
                None => {
                    let fresh: Vec<u32> = vec![0u32; size as usize];
                    proof {
                        assert forall|i: int| 0 <= i < size as nat implies fresh@[i] == 0u32 by {
                            assert(cloned(0u32, fresh@[i]));
                        }
                        assert(fresh@ =~= zero_seg(size));
                    }
                    let h = self.heap.len();
                    self.heap.push(fresh);
                    self.reg[b] = #[verifier::truncate] (h as u32);
                    proof {
                        assert(self@ =~~= step(m0)->Cont_0);
                    }
                }
            }
            StepExit::Running
        } else if op == OP_FREE {
            let h = self.reg[c];
            let hu = h as usize;
            self.heap[hu].clear();
            self.free_list.push_back(h);
            proof {
                assert(self@ =~~= step(m0)->Cont_0);
            }
            StepExit::Running
        } else if op == OP_OUT {
            let v = self.reg[c];
            proof {
                assert(self@ =~~= step(m0)->Output_0);
            }
            StepExit::Output(v)
        } else if op == OP_IN {
            match self.input.pop_front() {
                Some(i) => {
                    self.reg[c] = i as u32;
                    proof {
                        assert(self@ =~~= step(m0)->Cont_0);
                    }
                    StepExit::Running
                }
                None => {
                    self.pc = pc;
                    proof {
                        assert(self@ =~~= m0);
                    }
                    StepExit::NeedInput
                }
            }
        } else if op == OP_JUMP {
            let t = self.reg[b];
            let newpc = self.reg[c];
            self.pc = newpc as usize;
            if t != 0 {
                let tu = t as usize;
                let src = vstd::slice::slice_to_vec(self.heap[tu].as_slice());
                self.heap[0] = src;
            }
            proof {
                assert(self@ =~~= step(m0)->Cont_0);
            }
            StepExit::Running
        } else if op == OP_IMM {
            let r = ((w >> 25) & 7) as usize;
            self.reg[r] = w & 0x1FF_FFFF;
            proof {
                assert(self@ =~~= step(m0)->Cont_0);
            }
            StepExit::Running
        } else {
            proof {
                assert(false);
            }
            vstd::pervasive::unreached()
        }
    }

    /// Run the fetch-decode-execute loop until output is produced, input is
    /// required, or the machine halts, and return which of the three it was.
    /// The returned exit and the machine state afterwards are exactly the
    /// first suspension that `run` reaches from the old state.
    pub fn execute(&mut self) -> (r: ExitCode)
        requires
            old(self).wf(),
            reaches_suspension(old(self)@),
        ensures
            final(self).wf(),
            (match r {
                ExitCode::Output(v) => exists|n: nat|
                    run(old(self)@, n) == Outcome::Output(final(self)@, v),
                ExitCode::NeedInput => exists|n: nat|
                    run(old(self)@, n) == Outcome::NeedInput(final(self)@),
                ExitCode::Halted => exists|n: nat|
                    run(old(self)@, n) == Outcome::Halted(final(self)@),
            }),
    {
        let ghost m0 = self@;
        let ghost mut n: nat = 0;
        let ghost nmax: nat = choose|k: nat| is_suspension(run(m0, k));
        proof {
            assert(is_suspension(run(m0, nmax)));
            assert(run(m0, 0) == Outcome::Cont(self@));
        }
        loop
            invariant
                m0 == old(self)@,
                self.wf(),
                run(m0, n) == Outcome::Cont(self@),
                is_suspension(run(m0, nmax)),
                n < nmax,
            decreases nmax - n,
        {
            proof {
                lemma_run_step(m0, n);
                if step(self@) is Fault {
                    lemma_run_sticks(m0, n + 1, nmax);
                    assert(false);
                }
            }
            let ghost prev = self@;
            let r = self.step_once();
            proof {
                n = n + 1;
                assert(run(m0, n) == step(prev));
            }
            match r {
                StepExit::Running => {
                    proof {
                        if n >= nmax {
                            lemma_run_sticks(m0, nmax, n);
                            assert(false);
                        }
                    }
                }
                StepExit::Output(v) => {
                    proof {
                        assert(run(old(self)@, n) == Outcome::Output(self@, v));
                    }
                    return ExitCode::Output(v);
                }
                StepExit::NeedInput => {
                    proof {
                        assert(run(old(self)@, n) == Outcome::NeedInput(self@));
                    }
                    return ExitCode::NeedInput;
                }
                StepExit::Halted => {
                    proof {
                        assert(run(old(self)@, n) == Outcome::Halted(self@));
                    }
                    return ExitCode::Halted;
                }
            }
        }
    }
}

/// Law: the arithmetic operations wrap silently modulo 2^32 — after an ADD
/// or MUL instruction, register `a` holds the sum or product of registers
/// `b` and `c` reduced modulo 2^32.
pub proof fn lemma_arith_wraps(m: MachineView)
    requires
        m.regs.len() == 8,
        m.segs.len() >= 1,
        m.pc < m.segs[0].len(),
        opcode(m.segs[0][m.pc as int]) == OP_ADD || opcode(m.segs[0][m.pc as int]) == OP_MUL,
    ensures
        step(m) is Cont,
        ({
            let w = m.segs[0][m.pc as int];
            let m2 = step(m)->Cont_0;
            &&& (opcode(w) == OP_ADD ==> m2.regs[field_a(w)] == (m.regs[field_b(w)]
                + m.regs[field_c(w)]) % 0x1_0000_0000)
            &&& (opcode(w) == OP_MUL ==> m2.regs[field_a(w)] == (m.regs[field_b(w)]
                * m.regs[field_c(w)]) % 0x1_0000_0000)
        }),
{
    lemma_fields_bounded(m.segs[0][m.pc as int]);
}

/// Law: allocating a segment, freeing that same handle, and then allocating
/// again with a different size reuses the freed handle, and the segment
/// behind it has exactly the newly requested size, zero-filled. It holds
/// whenever at most one handle was already free beforehand.
pub proof fn lemma_alloc_free_alloc_reuses(segs: Seq<Seq<u32>>, free: Seq<u32>, s1: u32, s2: u32)
    requires
        free.len() <= 1,
        forall|i: int| 0 <= i < free.len() ==> free[i] < segs.len(),
        segs.len() < 0x1_0000_0000,
    ensures
        ({
            let (segs1, free1, h1) = spec_alloc(segs, free, s1);
            let (segs2, free2) = spec_free(segs1, free1, h1);
            let (segs3, free3, h3) = spec_alloc(segs2, free2, s2);
            &&& h3 == h1
            &&& segs3[h1 as int] =~= zero_seg(s2)
        }),
{
    let (segs1, free1, h1) = spec_alloc(segs, free, s1);
    let (segs2, free2) = spec_free(segs1, free1, h1);
    let (segs3, free3, h3) = spec_alloc(segs2, free2, s2);
    assert(segs2[h1 as int] =~= Seq::<u32>::empty());
    assert(segs3[h1 as int] =~= zero_seg(s2));
}

/// Law: JUMP with a zero segment register leaves every segment's contents
/// unchanged and only sets the program counter; with a nonzero one it also
/// replaces segment 0's contents wholesale with the target segment's
/// contents. Registers, input and free list are untouched either way.
pub proof fn lemma_jump(m: MachineView)
    requires
        m.regs.len() == 8,
        m.segs.len() >= 1,
        m.pc < m.segs[0].len(),
        opcode(m.segs[0][m.pc as int]) == OP_JUMP,
        m.regs[field_b(m.segs[0][m.pc as int])] != 0 ==> m.regs[field_b(m.segs[0][m.pc as int])]
            < m.segs.len(),
    ensures
        step(m) is Cont,
        ({
            let w = m.segs[0][m.pc as int];
            let t = m.regs[field_b(w)];
            let m2 = step(m)->Cont_0;
            &&& m2.pc == m.regs[field_c(w)]
            &&& m2.regs == m.regs
            &&& m2.input == m.input
            &&& m2.free == m.free
            &&& (t == 0 ==> m2.segs == m.segs)
            &&& (t != 0 ==> m2.segs =~= m.segs.update(0, m.segs[t as int]) && m2.segs[0]
                == m.segs[t as int])
        }),
{
    lemma_fields_bounded(m.segs[0][m.pc as int]);
}

/// Law: IN with an empty input queue suspends requesting input and leaves
/// the machine — the program counter included — exactly as it was, so the
/// same IN instruction re-executes once input has been fed.
pub proof fn lemma_in_empty_input(m: MachineView)
    requires
        m.regs.len() == 8,
        m.segs.len() >= 1,
        m.pc < m.segs[0].len(),
        opcode(m.segs[0][m.pc as int]) == OP_IN,
        m.input.len() == 0,
    ensures
        step(m) == Outcome::NeedInput(m),
{
}

} // verus!
