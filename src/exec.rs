//! Running instructions: the meaning of each instruction over the CPU state,
//! and `Cpu::step`, which fetches, decodes and executes one.

use vstd::prelude::*;
use crate::cpu::{
    MMIO_BASE, Cpu, CpuState, state_wf, in_ram, le_value, load_result, store_result, valid_size, RAM_BASE,
};
use crate::fault::{Fault, FaultKind};
use crate::isa::{
    Instr, LoadOp, StoreOp, decode, decode_word, regs_in_range, lemma_decode_regs, alu, alu_w,
    branch_taken, amo, exec_alu, exec_alu_w, exec_branch_taken, exec_amo,
};
use crate::mmio::{Mmio, NoMmio};

verus! {

/// What the host should do after an instruction retired.
#[derive(Clone, Copy, Debug, PartialEq, Eq, Structural)]
pub enum Flow {
    /// Run the next instruction.
    Next,
    /// The program executed `ebreak`: it asks to stop.
    Break,
}

/// `regs` after a write of `v` to register `rd`; writes to register zero are
/// dropped.
pub open spec fn write_reg(regs: Seq<i64>, rd: usize, v: i64) -> Seq<i64> {
    if rd == 0 {
        regs
    } else {
        regs.update(rd as int, v)
    }
}

/// `st` with `v` written to `rd` and the program counter on the next
/// instruction.
pub open spec fn retire(st: CpuState, rd: usize, v: i64) -> CpuState {
    CpuState { regs: write_reg(st.regs, rd, v), pc: st.pc.wrapping_add(4), ..st }
}

pub open spec fn load_size(op: LoadOp) -> nat {
    match op {
        LoadOp::Byte | LoadOp::ByteU => 1,
        LoadOp::Half | LoadOp::HalfU => 2,
        LoadOp::Word | LoadOp::WordU => 4,
        LoadOp::Double => 8,
    }
}

/// The register value of a load, sign- or zero-extended from its width.
pub open spec fn extend(op: LoadOp, v: i64) -> i64 {
    match op {
        LoadOp::Byte => v as i8 as i64,
        LoadOp::Half => v as i16 as i64,
        LoadOp::Word => v as i32 as i64,
        LoadOp::Double => v,
        LoadOp::ByteU => v as u8 as i64,
        LoadOp::HalfU => v as u16 as i64,
        LoadOp::WordU => v as u32 as i64,
    }
}

pub open spec fn store_size(op: StoreOp) -> nat {
    match op {
        StoreOp::Byte => 1,
        StoreOp::Half => 2,
        StoreOp::Word => 4,
        StoreOp::Double => 8,
    }
}

pub open spec fn atomic_size(double: bool) -> nat {
    if double {
        8
    } else {
        4
    }
}

/// The bus that a store left behind.
pub open spec fn bus_after<M>(m: M, m2: Option<M>) -> M {
    match m2 {
        Some(x) => x,
        None => m,
    }
}

/// State, bus and outcome of executing `i` in state `st` with bus `m`. On a
/// fault the state is the one before the instruction.
pub open spec fn execute<M: Mmio>(st: CpuState, m: M, i: Instr) -> (CpuState, M, Result<
    Flow,
    Fault,
>) {
    let next = st.pc.wrapping_add(4);
    match i {
        Instr::Lui { rd, imm } => (retire(st, rd, imm), m, Ok(Flow::Next)),
        Instr::Auipc { rd, imm } => (
            retire(st, rd, st.pc.wrapping_add(imm as u64) as i64),
            m,
            Ok(Flow::Next),
        ),
        Instr::Jal { rd, imm } => (
            CpuState {
                regs: write_reg(st.regs, rd, next as i64),
                pc: st.pc.wrapping_add(imm as u64),
                ..st
            },
            m,
            Ok(Flow::Next),
        ),
        Instr::Jalr { rd, rs1, imm } => (
            CpuState {
                regs: write_reg(st.regs, rd, next as i64),
                pc: (st.regs[rs1 as int].wrapping_add(imm) as u64) & 0xffff_ffff_ffff_fffe,
                ..st
            },
            m,
            Ok(Flow::Next),
        ),
        Instr::Branch { op, rs1, rs2, imm } => (
            CpuState {
                pc: if branch_taken(op, st.regs[rs1 as int], st.regs[rs2 as int]) {
                    st.pc.wrapping_add(imm as u64)
                } else {
                    next
                },
                ..st
            },
            m,
            Ok(Flow::Next),
        ),
        Instr::Load { op, rd, rs1, imm } => {
            let addr = st.regs[rs1 as int].wrapping_add(imm) as u64;
            match load_result(st, Some(m), addr, load_size(op)) {
                Ok(v) => (retire(st, rd, extend(op, v)), m, Ok(Flow::Next)),
                Err(f) => (st, m, Err(f)),
            }
        },
        Instr::Store { op, rs1, rs2, imm } => {
            let addr = st.regs[rs1 as int].wrapping_add(imm) as u64;
            let (st2, m2, r) = store_result(st, Some(m), addr, store_size(op), st.regs[rs2 as int]);
            match r {
                Ok(_) => (CpuState { pc: next, ..st2 }, bus_after(m, m2), Ok(Flow::Next)),
                Err(f) => (st2, bus_after(m, m2), Err(f)),
            }
        },
        Instr::OpImm { op, rd, rs1, imm } => (
            retire(st, rd, alu(op, st.regs[rs1 as int], imm)),
            m,
            Ok(Flow::Next),
        ),
        Instr::Op { op, rd, rs1, rs2 } => (
            retire(st, rd, alu(op, st.regs[rs1 as int], st.regs[rs2 as int])),
            m,
            Ok(Flow::Next),
        ),
        Instr::OpImm32 { op, rd, rs1, imm } => (
            retire(st, rd, alu_w(op, st.regs[rs1 as int], imm)),
            m,
            Ok(Flow::Next),
        ),
        Instr::Op32 { op, rd, rs1, rs2 } => (
            retire(st, rd, alu_w(op, st.regs[rs1 as int], st.regs[rs2 as int])),
            m,
            Ok(Flow::Next),
        ),
        Instr::LoadReserved { double, rd, rs1 } => {
            let addr = st.regs[rs1 as int] as u64;
            match load_result::<M>(st, None, addr, atomic_size(double)) {
                Ok(v) => (
                    CpuState {
                        reservation: Some(addr as u32),
                        ..retire(
                            st,
                            rd,
                            if double {
                                v
                            } else {
                                v as i32 as i64
                            },
                        )
                    },
                    m,
                    Ok(Flow::Next),
                ),
                Err(f) => (st, m, Err(f)),
            }
        },
        Instr::StoreConditional { double, rd, rs1, rs2 } => {
            let addr = st.regs[rs1 as int] as u64;
            if st.reservation == Some(addr as u32) {
                let (st2, _, r) = store_result::<M>(
                    st,
                    None,
                    addr,
                    atomic_size(double),
                    st.regs[rs2 as int],
                );
                match r {
                    Ok(_) => (retire(CpuState { reservation: None, ..st2 }, rd, 0), m, Ok(Flow::Next)),
                    Err(f) => (st2, m, Err(f)),
                }
            } else {
                (retire(CpuState { reservation: None, ..st }, rd, 1), m, Ok(Flow::Next))
            }
        },
        Instr::Amo { op, double, rd, rs1, rs2 } => {
            let addr = st.regs[rs1 as int] as u64;
            match load_result::<M>(st, None, addr, atomic_size(double)) {
                Ok(raw) => {
                    let old = if double {
                        raw
                    } else {
                        raw as i32 as i64
                    };
                    let new = amo(op, double, old, st.regs[rs2 as int]);
                    let (st2, _, r) = store_result::<M>(st, None, addr, atomic_size(double), new);
                    match r {
                        Ok(_) => (retire(st2, rd, old), m, Ok(Flow::Next)),
                        Err(f) => (st2, m, Err(f)),
                    }
                },
                Err(f) => (st, m, Err(f)),
            }
        },
        Instr::Fence => (CpuState { pc: next, ..st }, m, Ok(Flow::Next)),
        Instr::Ebreak => (st, m, Ok(Flow::Break)),
    }
}

/// The instruction word at the program counter, which must lie in the RAM.
pub open spec fn fetch(st: CpuState) -> Result<u32, Fault> {
    let a = st.pc as u32;
    if in_ram(st.ram.len(), a, 4) {
        Ok(le_value(st.ram, a - RAM_BASE, 4) as u32)
    } else {
        Err(Fault { kind: FaultKind::OutOfBoundsFetch, addr: a, size: 4 })
    }
}

/// State, bus and outcome of one step: fetch, decode, execute.
pub open spec fn step<M: Mmio>(st: CpuState, m: M) -> (CpuState, M, Result<Flow, Fault>) {
    match fetch(st) {
        Err(f) => (st, m, Err(f)),
        Ok(w) => match decode(w) {
            Some(i) => execute(st, m, i),
            None => (
                st,
                m,
                Err(Fault { kind: FaultKind::IllegalInstruction, addr: st.pc as u32, size: 4 }),
            ),
        },
    }
}

impl Cpu {
    fn load_sized<M: Mmio>(&self, mmio: Option<&M>, addr: u64, size: usize) -> (r: Result<
        i64,
        Fault,
    >)
        requires
            valid_size(size as nat),
        ensures
            r == match mmio {
                Some(m) => load_result(self@, Some(*m), addr, size as nat),
                None => load_result::<M>(self@, None, addr, size as nat),
            },
    {
        if size == 1 {
            self.mem_load::<M, 1>(mmio, addr)
        } else if size == 2 {
            self.mem_load::<M, 2>(mmio, addr)
        } else if size == 4 {
            self.mem_load::<M, 4>(mmio, addr)
        } else {
            self.mem_load::<M, 8>(mmio, addr)
        }
    }

    fn store_sized<M: Mmio>(&mut self, mmio: Option<&mut M>, addr: u64, size: usize, val: i64) -> (r: Result<
        (),
        Fault,
    >)
        requires
            valid_size(size as nat),
        ensures
            match mmio {
                Some(m) => {
                    let (st, m2, res) = store_result(old(self)@, Some(*m), addr, size as nat, val);
                    &&& final(self)@ == st
                    &&& m2 == Some(*final(m))
                    &&& r == res
                },
                None => {
                    let (st, _, res) = store_result::<M>(old(self)@, None, addr, size as nat, val);
                    &&& final(self)@ == st
                    &&& r == res
                },
            },
    {
        if size == 1 {
            self.mem_store::<M, 1>(mmio, addr, val)
        } else if size == 2 {
            self.mem_store::<M, 2>(mmio, addr, val)
        } else if size == 4 {
            self.mem_store::<M, 4>(mmio, addr, val)
        } else {
            self.mem_store::<M, 8>(mmio, addr, val)
        }
    }
}


fn load_bytes(op: LoadOp) -> (r: usize)
    ensures
        r == load_size(op),
{
    match op {
        LoadOp::Byte | LoadOp::ByteU => 1,
        LoadOp::Half | LoadOp::HalfU => 2,
        LoadOp::Word | LoadOp::WordU => 4,
        LoadOp::Double => 8,
    }
}

fn store_bytes(op: StoreOp) -> (r: usize)
    ensures
        r == store_size(op),
{
    match op {
        StoreOp::Byte => 1,
        StoreOp::Half => 2,
        StoreOp::Word => 4,
        StoreOp::Double => 8,
    }
}

fn extend_loaded(op: LoadOp, v: i64) -> (r: i64)
    ensures
        r == extend(op, v),
{
    match op {
        LoadOp::Byte => v as i8 as i64,
        LoadOp::Half => v as i16 as i64,
        LoadOp::Word => v as i32 as i64,
        LoadOp::Double => v,
        LoadOp::ByteU => v as u8 as i64,
        LoadOp::HalfU => v as u16 as i64,
        LoadOp::WordU => v as u32 as i64,
    }
}

impl Cpu {
    /// Executes one decoded instruction.
    pub fn execute<M: Mmio>(&mut self, mmio: &mut M, i: Instr) -> (r: Result<Flow, Fault>)
        requires
            old(self).wf(),
            regs_in_range(i),
        ensures
            final(self).wf(),
            (final(self)@, *final(mmio), r) == execute(old(self)@, *old(mmio), i),
    {
        let pc = self.pc();
        let next = pc.wrapping_add(4);
        match i {
            Instr::Lui { rd, imm } => {
                self.set_reg(rd, imm);
                self.set_pc(next);
                Ok(Flow::Next)
            },
            Instr::Auipc { rd, imm } => {
                self.set_reg(rd, pc.wrapping_add(imm as u64) as i64);
                self.set_pc(next);
                Ok(Flow::Next)
            },
            Instr::Jal { rd, imm } => {
                self.set_reg(rd, next as i64);
                self.set_pc(pc.wrapping_add(imm as u64));
                Ok(Flow::Next)
            },
            Instr::Jalr { rd, rs1, imm } => {
                let target = (self.reg(rs1).wrapping_add(imm) as u64) & 0xffff_ffff_ffff_fffe;
                self.set_reg(rd, next as i64);
                self.set_pc(target);
                Ok(Flow::Next)
            },
            Instr::Branch { op, rs1, rs2, imm } => {
                if exec_branch_taken(op, self.reg(rs1), self.reg(rs2)) {
                    self.set_pc(pc.wrapping_add(imm as u64));
                } else {
                    self.set_pc(next);
                }
                Ok(Flow::Next)
            },
            Instr::Load { op, rd, rs1, imm } => {
                let addr = self.reg(rs1).wrapping_add(imm) as u64;
                match self.load_sized(Some(&*mmio), addr, load_bytes(op)) {
                    Ok(v) => {
                        self.set_reg(rd, extend_loaded(op, v));
                        self.set_pc(next);
                        Ok(Flow::Next)
                    },
                    Err(f) => Err(f),
                }
            },
            Instr::Store { op, rs1, rs2, imm } => {
                let addr = self.reg(rs1).wrapping_add(imm) as u64;
                let val = self.reg(rs2);
                match self.store_sized(Some(&mut *mmio), addr, store_bytes(op), val) {
                    Ok(_) => {
                        self.set_pc(next);
                        Ok(Flow::Next)
                    },
                    Err(f) => Err(f),
                }
            },
            Instr::OpImm { op, rd, rs1, imm } => {
                self.set_reg(rd, exec_alu(op, self.reg(rs1), imm));
                self.set_pc(next);
                Ok(Flow::Next)
            },
            Instr::Op { op, rd, rs1, rs2 } => {
                self.set_reg(rd, exec_alu(op, self.reg(rs1), self.reg(rs2)));
                self.set_pc(next);
                Ok(Flow::Next)
            },
            Instr::OpImm32 { op, rd, rs1, imm } => {
                self.set_reg(rd, exec_alu_w(op, self.reg(rs1), imm));
                self.set_pc(next);
                Ok(Flow::Next)
            },
            Instr::Op32 { op, rd, rs1, rs2 } => {
                self.set_reg(rd, exec_alu_w(op, self.reg(rs1), self.reg(rs2)));
                self.set_pc(next);
                Ok(Flow::Next)
            },
            Instr::LoadReserved { double, rd, rs1 } => {
                let addr = self.reg(rs1) as u64;
                let size: usize = if double { 8 } else { 4 };
                match self.load_sized::<M>(None, addr, size) {
                    Ok(v) => {
                        let v = if double { v } else { v as i32 as i64 };
                        self.set_reg(rd, v);
                        self.set_pc(next);
                        self.set_reservation(Some(addr as u32));
                        Ok(Flow::Next)
                    },
                    Err(f) => Err(f),
                }
            },
            Instr::StoreConditional { double, rd, rs1, rs2 } => {
                let addr = self.reg(rs1) as u64;
                let size: usize = if double { 8 } else { 4 };
                if self.reservation() == Some(addr as u32) {
                    let val = self.reg(rs2);
                    match self.store_sized::<M>(None, addr, size, val) {
                        Ok(_) => {
                            self.set_reservation(None);
                            self.set_reg(rd, 0);
                            self.set_pc(next);
                            Ok(Flow::Next)
                        },
                        Err(f) => Err(f),
                    }
                } else {
                    self.set_reservation(None);
                    self.set_reg(rd, 1);
                    self.set_pc(next);
                    Ok(Flow::Next)
                }
            },
            Instr::Amo { op, double, rd, rs1, rs2 } => {
                let addr = self.reg(rs1) as u64;
                let size: usize = if double { 8 } else { 4 };
                match self.load_sized::<M>(None, addr, size) {
                    Ok(raw) => {
                        let old = if double { raw } else { raw as i32 as i64 };
                        let new = exec_amo(op, double, old, self.reg(rs2));
                        match self.store_sized::<M>(None, addr, size, new) {
                            Ok(_) => {
                                self.set_reg(rd, old);
                                self.set_pc(next);
                                Ok(Flow::Next)
                            },
                            Err(f) => Err(f),
                        }
                    },
                    Err(f) => Err(f),
                }
            },
            Instr::Fence => {
                self.set_pc(next);
                Ok(Flow::Next)
            },
            Instr::Ebreak => Ok(Flow::Break),
        }
    }
}


/// State, bus and outcome after running from `st` until `ebreak`, a fault,
/// or `budget` instructions, with the number of instructions retired.
pub open spec fn run<M: Mmio>(st: CpuState, m: M, budget: nat) -> (CpuState, M, Result<Flow, Fault>, nat)
    decreases budget,
{
    if budget == 0 {
        (st, m, Ok(Flow::Next), 0)
    } else {
        let (st2, m2, r) = step(st, m);
        if r == Ok::<Flow, Fault>(Flow::Next) {
            let (st3, m3, r3, n3) = run(st2, m2, (budget - 1) as nat);
            (st3, m3, r3, n3 + 1)
        } else {
            (st2, m2, r, 0)
        }
    }
}

impl Cpu {
    /// Fetches, decodes and executes one instruction. `Ok(Flow::Break)` means
    /// the program ran `ebreak`; a fault leaves the state as it was.
    pub fn step<M: Mmio>(&mut self, mmio: &mut M) -> (r: Result<Flow, Fault>)
        requires
            old(self).wf(),
        ensures
            final(self).wf(),
            (final(self)@, *final(mmio), r) == step(old(self)@, *old(mmio)),
    {
        let pc = self.pc();
        let a = pc as u32;
        let len = self.ram().len();
        if !(RAM_BASE <= a && a < MMIO_BASE && ((a - RAM_BASE) as usize) <= len && len - ((a
            - RAM_BASE) as usize) >= 4) {
            return Err(Fault { kind: FaultKind::OutOfBoundsFetch, addr: a, size: 4 });
        }
        let raw = match self.load_sized::<NoMmio>(None, a as u64, 4) {
            Ok(v) => v,
            Err(f) => {
                return Err(f);
            },
        };
        let ghost x = le_value(self@.ram, a - RAM_BASE, 4);
        assert(raw == x as i64);
        assert((x as i64) as u32 == x as u32) by (bit_vector);
        let w = raw as u32;
        proof {
            lemma_decode_regs(w);
        }
        match decode_word(w) {
            Some(i) => self.execute(mmio, i),
            None => Err(Fault { kind: FaultKind::IllegalInstruction, addr: a, size: 4 }),
        }
    }

    /// Runs until `ebreak`, a fault, or `budget` instructions, whichever comes
    /// first, and returns what ended the run with the number of instructions
    /// retired (`ebreak` is not counted).
    pub fn run<M: Mmio>(&mut self, mmio: &mut M, budget: u64) -> (r: (Result<Flow, Fault>, u64))
        requires
            old(self).wf(),
        ensures
            final(self).wf(),
            (final(self)@, *final(mmio), r.0, r.1 as nat) == run(old(self)@, *old(mmio), budget as nat),
    {
        let mut n: u64 = 0;
        while n < budget
            invariant
                self.wf(),
                n <= budget,
                run(old(self)@, *old(mmio), budget as nat) == ({
                    let t = run(self@, *mmio, (budget - n) as nat);
                    (t.0, t.1, t.2, (t.3 + n) as nat)
                }),
            decreases budget - n,
        {
            match self.step(mmio) {
                Ok(Flow::Next) => {
                    n = n + 1;
                },
                other => {
                    return (other, n);
                },
            }
        }
        (Ok(Flow::Next), n)
    }
}

/// Register zero stays zero and the RAM keeps its size, whatever the
/// instruction: every step keeps a CPU well-formed.
pub proof fn lemma_step_keeps_wf<M: Mmio>(st: CpuState, m: M)
    requires
        state_wf(st),
    ensures
        state_wf(step(st, m).0),
        step(st, m).0.regs[0] == 0,
{
    match fetch(st) {
        Err(_) => {},
        Ok(w) => {
            lemma_decode_regs(w);
        },
    }
}

} // verus!
