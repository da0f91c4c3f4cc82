//! A small 8-bit arithmetic/logic demonstration machine, unrelated to the
//! Machine and with its own instruction encoding: one byte per instruction,
//! the top three bits selecting the operation, two data registers naming
//! write addresses and four selector registers naming read addresses into a
//! 256-byte memory. All 8-bit arithmetic wraps silently.

use vstd::prelude::*;

verus! {

/// The abstract state of the demonstration machine.
#[verifier::ext_equal]
pub ghost struct BalanceView {
    pub ip: usize,
    pub is: u8,
    pub dr: Seq<u8>,
    pub sr: Seq<u8>,
    pub mem: Seq<u8>,
    pub code: Seq<u8>,
}

/// One step either keeps running or stops (an instruction-step register of
/// zero after a SCIENCE instruction, or an unknown operation).
#[verifier::ext_equal]
pub ghost enum BalanceOutcome {
    Cont(BalanceView),
    Done(BalanceView),
}

/// Sign-extend the low five bits of an instruction byte to eight bits.
pub open spec fn spec_sext5(w: u8) -> u8 {
    if w & 0x10 == 0 {
        w & 0xf
    } else {
        ((w & 0xf) + 0xf0) as u8
    }
}

/// The instruction pointer after advancing by the signed instruction-step
/// register, with pointer-width wraparound, reduced modulo the code length.
pub open spec fn advanced_ip(ip: usize, is: u8, len: usize) -> usize {
    if is < 128 {
        ip.wrapping_add(is as usize) % len
    } else {
        ip.wrapping_sub((256 - is as int) as usize) % len
    }
}

/// What reading through selector register `s` yields: the memory byte at the
/// address the register holds (register index taken modulo 4).
pub open spec fn spec_rmem(v: BalanceView, s: u8) -> u8 {
    v.mem[v.sr[(s & 3) as int] as int]
}

/// Writing through data register `d`: the memory byte at the address the
/// register holds (register index taken modulo 2) becomes `val`.
pub open spec fn spec_wmem(v: BalanceView, d: u8, val: u8) -> BalanceView {
    BalanceView { mem: v.mem.update(v.dr[(d & 1) as int] as int, val), ..v }
}

/// The six rotation slots of a PHYSICS instruction, in the fixed order the
/// operation names them.
pub open spec fn slots_of(v: BalanceView) -> Seq<u8> {
    seq![v.dr[1], v.dr[0], v.sr[3], v.sr[2], v.sr[1], v.sr[0]]
}

/// The register slots a PHYSICS instruction selects: the positions of the
/// set bits among the low six bits of the instruction byte, in the interval
/// `(lo, 5]`, highest first.
pub open spec fn phys_selected(w: u8, lo: int) -> Seq<u8>
    decreases 5 - lo,
{
    if lo >= 5 {
        Seq::empty()
    } else {
        phys_selected(w, lo + 1) + (if (w >> ((lo + 1) as u8)) & 1 == 1 {
            seq![(lo + 1) as u8]
        } else {
            Seq::empty()
        })
    }
}

/// The first `k` rotation writes applied to the slots: each selected slot
/// takes the snapshot value of the next selected slot below it, the lowest
/// selected slot taking the snapshot's slot 5.
pub open spec fn phys_apply(slots0: Seq<u8>, sel: Seq<u8>, l: Seq<u8>, k: int) -> Seq<u8>
    decreases k,
{
    if k <= 0 {
        slots0
    } else {
        phys_apply(slots0, sel, l, k - 1).update(
            sel[k - 1] as int,
            l[if k < sel.len() {
                sel[k] as int
            } else {
                5
            }],
        )
    }
}

/// The machine's structural invariant: two data registers, four selector
/// registers, a 256-byte memory, a nonempty code array, and the instruction
/// pointer inside it.
pub open spec fn balance_wf(v: BalanceView) -> bool {
    &&& v.dr.len() == 2
    &&& v.sr.len() == 4
    &&& v.mem.len() == 256
    &&& v.code.len() >= 1
    &&& v.ip < v.code.len()
}

/// One step of the demonstration machine: fetch the byte at the instruction
/// pointer, dispatch on its top three bits, then advance the pointer by the
/// signed instruction-step register modulo the code length.
pub open spec fn balance_step(v: BalanceView) -> BalanceOutcome {
    if !balance_wf(v) {
        BalanceOutcome::Done(v)
    } else {
        let w = v.code[v.ip as int];
        let d = (w >> 4) & 1;
        let s1 = (w >> 2) & 3;
        let s2 = w & 3;
        let op = w >> 5;
        if op == 1 {
            // MATH: difference through d+1, then sum through d.
            let va = spec_wmem(
                v,
                (d + 1) as u8,
                spec_rmem(v, (s1 + 1) as u8).wrapping_sub(spec_rmem(v, (s2 + 1) as u8)),
            );
            let vb = spec_wmem(va, d, spec_rmem(va, s1).wrapping_add(spec_rmem(va, s2)));
            BalanceOutcome::Cont(advance(vb))
        } else if op == 2 {
            // LOGIC: exclusive or through d+1, then conjunction through d.
            let va = spec_wmem(
                v,
                (d + 1) as u8,
                spec_rmem(v, (s1 + 1) as u8) ^ spec_rmem(v, (s2 + 1) as u8),
            );
            let vb = spec_wmem(va, d, spec_rmem(va, s1) & spec_rmem(va, s2));
            BalanceOutcome::Cont(advance(vb))
        } else if op == 0 {
            // SCIENCE: conditionally reload the instruction step, stop on zero.
            let v2 = if spec_rmem(v, 0) != 0 {
                BalanceView { is: spec_sext5(w), ..v }
            } else {
                v
            };
            if v2.is == 0 {
                BalanceOutcome::Done(v2)
            } else {
                BalanceOutcome::Cont(advance(v2))
            }
        } else if op == 3 {
            // PHYSICS: rotate values along the selected register slots.
            let l = slots_of(v).update(5, v.sr[0].wrapping_add(spec_sext5(w)));
            let sel = phys_selected(w, -1);
            let slots2 = phys_apply(slots_of(v), sel, l, sel.len() as int);
            let v2 = BalanceView {
                dr: seq![slots2[1], slots2[0]],
                sr: seq![slots2[5], slots2[4], slots2[3], slots2[2]],
                ..v
            };
            BalanceOutcome::Cont(advance(v2))
        } else {
            BalanceOutcome::Done(v)
        }
    }
}

/// The state with the instruction pointer advanced.
pub open spec fn advance(v: BalanceView) -> BalanceView {
    BalanceView { ip: advanced_ip(v.ip, v.is, v.code.len() as usize), ..v }
}

/// The machine after `n` steps: still running, or stopped within `n` steps.
pub open spec fn balance_run(v: BalanceView, n: nat) -> BalanceOutcome
    decreases n,
{
    if n == 0 {
        BalanceOutcome::Cont(v)
    } else {
        match balance_step(v) {
            BalanceOutcome::Cont(v2) => balance_run(v2, (n - 1) as nat),
            o => o,
        }
    }
}

/// Execution from `v` eventually stops.
pub open spec fn reaches_done(v: BalanceView) -> bool {
    exists|n: nat| balance_run(v, n) is Done
}

/// Running one step more runs `balance_step` where `balance_run` stopped.
pub proof fn lemma_balance_run_step(v: BalanceView, n: nat)
    ensures
        balance_run(v, n + 1) == (match balance_run(v, n) {
            BalanceOutcome::Cont(v2) => balance_step(v2),
            o => o,
        }),
    decreases n,
{
    reveal_with_fuel(balance_run, 2);
    if n > 0 {
        match balance_step(v) {
            BalanceOutcome::Cont(v2) => {
                lemma_balance_run_step(v2, (n - 1) as nat);
            }
            _ => {}
        }
    }
}

/// Once stopped, running longer returns the same outcome.
pub proof fn lemma_balance_run_sticks(v: BalanceView, n1: nat, n2: nat)
    requires
        balance_run(v, n1) is Done,
        n1 <= n2,
    ensures
        balance_run(v, n2) == balance_run(v, n1),
    decreases n1,
{
    match balance_step(v) {
        BalanceOutcome::Cont(v2) => {
            lemma_balance_run_sticks(v2, (n1 - 1) as nat, (n2 - 1) as nat);
        }
        _ => {}
    }
}

/// Sign-extend the low five bits of a byte to eight bits (two's complement).
pub fn sext5(w: u8) -> (r: u8)
    ensures
        r == spec_sext5(w),
{
    if w & 0x10 == 0 {
        w & 0xf
    } else {
        proof {
            assert(w & 0xf < 16) by (bit_vector);
        }
        (w & 0xf) + 0xf0
    }
}

/// The demonstration machine's concrete state. Its host constructs it
/// wholesale, so the fields are directly accessible.
pub struct BalanceVM {
    pub ip: usize,
    pub is: u8,
    pub dr: [u8; 2],
    pub sr: [u8; 4],
    pub mem: [u8; 256],
    pub code: Vec<u8>,
}

impl View for BalanceVM {
    type V = BalanceView;

    open spec fn view(&self) -> BalanceView {
        BalanceView {
            ip: self.ip,
            is: self.is,
            dr: self.dr@,
            sr: self.sr@,
            mem: self.mem@,
            code: self.code@,
        }
    }
}

impl BalanceVM {
    /// The code array is nonempty and the instruction pointer is inside it;
    /// the register and memory sizes are fixed by their types.
    pub open spec fn wf(&self) -> bool {
        balance_wf(self@)
    }

    /// Read the memory byte addressed by selector register `sr` (register
    /// index taken modulo 4).
    pub fn rmem(&self, sr: u8) -> (r: u8)
        ensures
            r == spec_rmem(self@, sr),
    {
        proof {
            assert(sr & 3 < 4) by (bit_vector);
        }
        self.mem[self.sr[(sr & 3) as usize] as usize]
    }

    /// Write `val` to the memory byte addressed by data register `dr`
    /// (register index taken modulo 2).
    pub fn wmem(&mut self, dr: u8, val: u8)
        ensures
            final(self)@ == spec_wmem(old(self)@, dr, val),
    {
        proof {
            assert(dr & 1 < 2) by (bit_vector);
        }
        self.mem[self.dr[(dr & 1) as usize] as usize] = val;
        proof {
            assert(self@ =~~= spec_wmem(old(self)@, dr, val));
        }
    }

    /// Advance the instruction pointer by the signed instruction-step
    /// register, modulo the code length.
    fn advance_ip(&mut self)
        requires
            old(self).wf(),
        ensures
            final(self).wf(),
            final(self)@ == advance(old(self)@),
    {
        let len = self.code.len();
        if self.is < 128 {
            self.ip = self.ip.wrapping_add(self.is as usize) % len;
        } else {
            self.ip = self.ip.wrapping_sub(256 - (self.is as usize)) % len;
        }
        proof {
            assert(self@ =~~= advance(old(self)@));
        }
    }

    /// Execute exactly one instruction, mirroring `balance_step`; true means
    /// the machine stopped.
    #[verifier::rlimit(50)]
    fn step_balance(&mut self) -> (done: bool)
        requires
            old(self).wf(),
        ensures
            final(self).wf(),
            (if done {
                balance_step(old(self)@) == BalanceOutcome::Done(final(self)@)
            } else {
                balance_step(old(self)@) == BalanceOutcome::Cont(final(self)@)
            }),
    {
        let ghost m0 = self@;
        let w = self.code[self.ip];
        proof {
            assert((w >> 4) & 1 < 2 && (w >> 2) & 3 < 4 && w & 3 < 4) by (bit_vector);
        }
        let d = (w >> 4) & 1;
        let s1 = (w >> 2) & 3;
        let s2 = w & 3;
        let op = w >> 5;
        if op == 1 {
            let x = self.rmem(s1 + 1);
            let y = self.rmem(s2 + 1);
            self.wmem(d + 1, x.wrapping_sub(y));
            let x2 = self.rmem(s1);
            let y2 = self.rmem(s2);
            self.wmem(d, x2.wrapping_add(y2));
            self.advance_ip();
            proof {
                assert(balance_step(m0) == BalanceOutcome::Cont(self@));
            }
            false
        } else if op == 2 {
            let x = self.rmem(s1 + 1);
            let y = self.rmem(s2 + 1);
            self.wmem(d + 1, x ^ y);
            let x2 = self.rmem(s1);
            let y2 = self.rmem(s2);
            self.wmem(d, x2 & y2);
            self.advance_ip();
            proof {
                assert(balance_step(m0) == BalanceOutcome::Cont(self@));
            }
            false
        } else if op == 0 {
            let g = self.rmem(0);
            if g != 0 {
                self.is = sext5(w);
            }
            proof {
                if g != 0 {
                    assert(self@ =~~= (BalanceView { is: spec_sext5(w), ..m0 }));
                } else {
                    assert(self@ =~~= m0);
                }
            }
            if self.is == 0 {
                proof {
                    assert(balance_step(m0) == BalanceOutcome::Done(self@));
                }
                true
            } else {
                self.advance_ip();
                proof {
                    assert(balance_step(m0) == BalanceOutcome::Cont(self@));
                }
                false
            }
        } else if op == 3 {
            let e = sext5(w);
            let l5 = self.sr[0].wrapping_add(e);
            let mut l: Vec<u8> = Vec::new();
            l.push(self.dr[1]);
            l.push(self.dr[0]);
            l.push(self.sr[3]);
            l.push(self.sr[2]);
            l.push(self.sr[1]);
            l.push(l5);
            proof {
                assert(l@ =~= slots_of(m0).update(5, m0.sr[0].wrapping_add(spec_sext5(w))));
            }
            let mut sel: Vec<u8> = Vec::new();
            let mut bi: usize = 6;
            while bi > 0
                invariant
                    bi <= 6,
                    sel@ == phys_selected(w, bi as int - 1),
                    forall|j: int| 0 <= j < sel@.len() ==> sel@[j] < 6,
                decreases bi,
            {
                bi = bi - 1;
                if (w >> (bi as u8)) & 1 == 1 {
                    sel.push(bi as u8);
                }
                proof {
                    assert(sel@ =~= phys_selected(w, bi as int - 1));
                }
            }
            let ghost slots0 = slots_of(m0);
            let mut k: usize = 0;
            while k < sel.len()
                invariant
                    l@.len() == 6,
                    forall|j: int| 0 <= j < sel@.len() ==> sel@[j] < 6,
                    k <= sel@.len(),
                    self@.mem == m0.mem,
                    self@.ip == m0.ip,
                    self@.is == m0.is,
                    self@.code == m0.code,
                    self@.dr.len() == 2,
                    self@.sr.len() == 4,
                    slots_of(self@) == phys_apply(slots0, sel@, l@, k as int),
                decreases sel@.len() - k,
            {
                let t = sel[k];
                let srcv = if k + 1 < sel.len() {
                    l[sel[k + 1] as usize]
                } else {
                    l[5]
                };
                if t == 0 {
                    self.dr[1] = srcv;
                } else if t == 1 {
                    self.dr[0] = srcv;
                } else if t == 2 {
                    self.sr[3] = srcv;
                } else if t == 3 {
                    self.sr[2] = srcv;
                } else if t == 4 {
                    self.sr[1] = srcv;
                } else {
                    self.sr[0] = srcv;
                }
                k = k + 1;
                proof {
                    assert(slots_of(self@) =~= phys_apply(slots0, sel@, l@, k as int));
                }
            }
            self.advance_ip();
            proof {
                let sel_spec = phys_selected(w, -1);
                let l_spec = slots_of(m0).update(5, m0.sr[0].wrapping_add(spec_sext5(w)));
                let slots2 = phys_apply(slots_of(m0), sel_spec, l_spec, sel_spec.len() as int);
                let v2 = BalanceView {
                    dr: seq![slots2[1], slots2[0]],
                    sr: seq![slots2[5], slots2[4], slots2[3], slots2[2]],
                    ..m0
                };
                assert(self@ =~~= advance(v2));
                assert(balance_step(m0) == BalanceOutcome::Cont(self@));
            }
            false
        } else {
            proof {
                assert(balance_step(m0) == BalanceOutcome::Done(self@));
            }
            true
        }
    }

    /// Run the machine until it stops: the final state is exactly where
    /// `balance_run` first stops from the old state.
    pub fn execute(&mut self)
        requires
            old(self).wf(),
            reaches_done(old(self)@),
        ensures
            final(self).wf(),
            exists|n: nat| balance_run(old(self)@, n) == BalanceOutcome::Done(final(self)@),
    {
        let ghost m0 = self@;
        let ghost mut n: nat = 0;
        let ghost nmax: nat = choose|k: nat| balance_run(m0, k) is Done;
        proof {
            assert(balance_run(m0, nmax) is Done);
        }
        loop
            invariant
                m0 == old(self)@,
                self.wf(),
                balance_run(m0, n) == BalanceOutcome::Cont(self@),
                balance_run(m0, nmax) is Done,
                n < nmax,
            decreases nmax - n,
        {
            proof {
                lemma_balance_run_step(m0, n);
            }
            let done = self.step_balance();
            proof {
                n = n + 1;
            }
            if done {
                proof {
                    assert(balance_run(old(self)@, n) == BalanceOutcome::Done(self@));
                }
                return;
            }
            proof {
                if n >= nmax {
                    lemma_balance_run_sticks(m0, nmax, n);
                    assert(false);
                }
            }
        }
    }
}

} // verus!
