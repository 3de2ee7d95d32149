//! The instruction set: decoding of RV64IMA words and the arithmetic of each
//! operation.

use vstd::prelude::*;

verus! {

/// Register-register and register-immediate operations of the base ISA and
/// of the `M` extension.
#[derive(Clone, Copy, Debug, PartialEq, Eq, Structural)]
pub enum AluOp {
    Add,
    Sub,
    Sll,
    Slt,
    Sltu,
    Xor,
    Srl,
    Sra,
    Or,
    And,
    Mul,
    Mulh,
    Mulhsu,
    Mulhu,
    Div,
    Divu,
    Rem,
    Remu,
}

/// Branch conditions.
#[derive(Clone, Copy, Debug, PartialEq, Eq, Structural)]
pub enum BranchOp {
    Eq,
    Ne,
    Lt,
    Ge,
    Ltu,
    Geu,
}

/// Load widths, signed or zero-extending.
#[derive(Clone, Copy, Debug, PartialEq, Eq, Structural)]
pub enum LoadOp {
    Byte,
    Half,
    Word,
    Double,
    ByteU,
    HalfU,
    WordU,
}

/// Store widths.
#[derive(Clone, Copy, Debug, PartialEq, Eq, Structural)]
pub enum StoreOp {
    Byte,
    Half,
    Word,
    Double,
}

/// Read-modify-write operations of the `A` extension.
#[derive(Clone, Copy, Debug, PartialEq, Eq, Structural)]
pub enum AmoOp {
    Swap,
    Add,
    Xor,
    And,
    Or,
    Min,
    Max,
    Minu,
    Maxu,
}

/// A decoded instruction. Register numbers are below 32.
#[derive(Clone, Copy, Debug, PartialEq, Eq, Structural)]
pub enum Instr {
    Lui { rd: usize, imm: i64 },
    Auipc { rd: usize, imm: i64 },
    Jal { rd: usize, imm: i64 },
    Jalr { rd: usize, rs1: usize, imm: i64 },
    Branch { op: BranchOp, rs1: usize, rs2: usize, imm: i64 },
    Load { op: LoadOp, rd: usize, rs1: usize, imm: i64 },
    Store { op: StoreOp, rs1: usize, rs2: usize, imm: i64 },
    OpImm { op: AluOp, rd: usize, rs1: usize, imm: i64 },
    Op { op: AluOp, rd: usize, rs1: usize, rs2: usize },
    OpImm32 { op: AluOp, rd: usize, rs1: usize, imm: i64 },
    Op32 { op: AluOp, rd: usize, rs1: usize, rs2: usize },
    LoadReserved { double: bool, rd: usize, rs1: usize },
    StoreConditional { double: bool, rd: usize, rs1: usize, rs2: usize },
    Amo { op: AmoOp, double: bool, rd: usize, rs1: usize, rs2: usize },
    Fence,
    Ebreak,
}

// ---------------------------------------------------------------------------
// Fields of an instruction word

/// The register number in the five bits at `shift`.
pub open spec fn reg_at(w: u32, shift: u32) -> usize {
    ((w >> shift) & 0x1f) as usize
}

/// The sign-extended immediate of an I-type word.
pub open spec fn imm_i(w: u32) -> i64 {
    ((w as i32) >> 20u32) as i64
}

/// The sign-extended immediate of an S-type word.
pub open spec fn imm_s(w: u32) -> i64 {
    ((((w as i32) >> 20u32) & -32i32) | (((w >> 7u32) & 0x1f) as i32)) as i64
}

/// The sign-extended branch offset of a B-type word.
pub open spec fn imm_b(w: u32) -> i64 {
    ((((w as i32) >> 19u32) & -4096i32) | ((((w << 4u32) & 0x800) | ((w >> 20u32) & 0x7e0) | ((w
        >> 7u32) & 0x1e)) as i32)) as i64
}

/// The upper immediate of a U-type word, sign-extended from bit 31.
pub open spec fn imm_u(w: u32) -> i64 {
    ((w & 0xffff_f000) as i32) as i64
}

/// The sign-extended jump offset of a J-type word.
pub open spec fn imm_j(w: u32) -> i64 {
    ((((w as i32) >> 11u32) & -1048576i32) | (((w & 0xff000) | ((w >> 9u32) & 0x800) | ((w
        >> 20u32) & 0x7fe)) as i32)) as i64
}

fn reg_field(w: u32, shift: u32) -> (r: usize)
    requires
        shift <= 27,
    ensures
        r == reg_at(w, shift),
        r < 32,
{
    let x = (w >> shift) & 0x1f;
    assert(x < 32) by (bit_vector)
        requires
            x == (w >> shift) & 0x1f,
    ;
    x as usize
}

fn field_imm_i(w: u32) -> (r: i64)
    ensures
        r == imm_i(w),
{
    ((w as i32) >> 20u32) as i64
}

fn field_imm_s(w: u32) -> (r: i64)
    ensures
        r == imm_s(w),
{
    ((((w as i32) >> 20u32) & -32i32) | (((w >> 7u32) & 0x1f) as i32)) as i64
}

fn field_imm_b(w: u32) -> (r: i64)
    ensures
        r == imm_b(w),
{
    ((((w as i32) >> 19u32) & -4096i32) | ((((w << 4u32) & 0x800) | ((w >> 20u32) & 0x7e0) | ((w
        >> 7u32) & 0x1e)) as i32)) as i64
}

fn field_imm_u(w: u32) -> (r: i64)
    ensures
        r == imm_u(w),
{
    ((w & 0xffff_f000) as i32) as i64
}

fn field_imm_j(w: u32) -> (r: i64)
    ensures
        r == imm_j(w),
{
    ((((w as i32) >> 11u32) & -1048576i32) | (((w & 0xff000) | ((w >> 9u32) & 0x800) | ((w
        >> 20u32) & 0x7fe)) as i32)) as i64
}

// ---------------------------------------------------------------------------
// Decoding

pub open spec fn branch_op(f3: u32) -> Option<BranchOp> {
    if f3 == 0 {
        Some(BranchOp::Eq)
    } else if f3 == 1 {
        Some(BranchOp::Ne)
    } else if f3 == 4 {
        Some(BranchOp::Lt)
    } else if f3 == 5 {
        Some(BranchOp::Ge)
    } else if f3 == 6 {
        Some(BranchOp::Ltu)
    } else if f3 == 7 {
        Some(BranchOp::Geu)
    } else {
        None
    }
}

pub open spec fn load_op(f3: u32) -> Option<LoadOp> {
    if f3 == 0 {
        Some(LoadOp::Byte)
    } else if f3 == 1 {
        Some(LoadOp::Half)
    } else if f3 == 2 {
        Some(LoadOp::Word)
    } else if f3 == 3 {
        Some(LoadOp::Double)
    } else if f3 == 4 {
        Some(LoadOp::ByteU)
    } else if f3 == 5 {
        Some(LoadOp::HalfU)
    } else if f3 == 6 {
        Some(LoadOp::WordU)
    } else {
        None
    }
}

pub open spec fn store_op(f3: u32) -> Option<StoreOp> {
    if f3 == 0 {
        Some(StoreOp::Byte)
    } else if f3 == 1 {
        Some(StoreOp::Half)
    } else if f3 == 2 {
        Some(StoreOp::Word)
    } else if f3 == 3 {
        Some(StoreOp::Double)
    } else {
        None
    }
}

/// `OP-IMM`: the operation for `funct3` and the word's top six bits (which
/// select between the two right shifts).
pub open spec fn op_imm_op(f3: u32, top6: u32) -> Option<AluOp> {
    if f3 == 0 {
        Some(AluOp::Add)
    } else if f3 == 1 && top6 == 0 {
        Some(AluOp::Sll)
    } else if f3 == 2 {
        Some(AluOp::Slt)
    } else if f3 == 3 {
        Some(AluOp::Sltu)
    } else if f3 == 4 {
        Some(AluOp::Xor)
    } else if f3 == 5 && top6 == 0 {
        Some(AluOp::Srl)
    } else if f3 == 5 && top6 == 0x10 {
        Some(AluOp::Sra)
    } else if f3 == 6 {
        Some(AluOp::Or)
    } else if f3 == 7 {
        Some(AluOp::And)
    } else {
        None
    }
}

/// `OP`: the operation for `funct3` and `funct7`.
pub open spec fn op_op(f3: u32, f7: u32) -> Option<AluOp> {
    if f7 == 0 {
        if f3 == 0 {
            Some(AluOp::Add)
        } else if f3 == 1 {
            Some(AluOp::Sll)
        } else if f3 == 2 {
            Some(AluOp::Slt)
        } else if f3 == 3 {
            Some(AluOp::Sltu)
        } else if f3 == 4 {
            Some(AluOp::Xor)
        } else if f3 == 5 {
            Some(AluOp::Srl)
        } else if f3 == 6 {
            Some(AluOp::Or)
        } else {
            Some(AluOp::And)
        }
    } else if f7 == 0x20 {
        if f3 == 0 {
            Some(AluOp::Sub)
        } else if f3 == 5 {
            Some(AluOp::Sra)
        } else {
            None
        }
    } else if f7 == 1 {
        if f3 == 0 {
            Some(AluOp::Mul)
        } else if f3 == 1 {
            Some(AluOp::Mulh)
        } else if f3 == 2 {
            Some(AluOp::Mulhsu)
        } else if f3 == 3 {
            Some(AluOp::Mulhu)
        } else if f3 == 4 {
            Some(AluOp::Div)
        } else if f3 == 5 {
            Some(AluOp::Divu)
        } else if f3 == 6 {
            Some(AluOp::Rem)
        } else {
            Some(AluOp::Remu)
        }
    } else {
        None
    }
}

/// `OP-IMM-32`: `addiw`, `slliw`, `srliw`, `sraiw`.
pub open spec fn op_imm32_op(f3: u32, f7: u32) -> Option<AluOp> {
    if f3 == 0 {
        Some(AluOp::Add)
    } else if f3 == 1 && f7 == 0 {
        Some(AluOp::Sll)
    } else if f3 == 5 && f7 == 0 {
        Some(AluOp::Srl)
    } else if f3 == 5 && f7 == 0x20 {
        Some(AluOp::Sra)
    } else {
        None
    }
}

/// `OP-32`: the word operations of the base ISA and of `M`.
pub open spec fn op32_op(f3: u32, f7: u32) -> Option<AluOp> {
    if f7 == 0 {
        if f3 == 0 {
            Some(AluOp::Add)
        } else if f3 == 1 {
            Some(AluOp::Sll)
        } else if f3 == 5 {
            Some(AluOp::Srl)
        } else {
            None
        }
    } else if f7 == 0x20 {
        if f3 == 0 {
            Some(AluOp::Sub)
        } else if f3 == 5 {
            Some(AluOp::Sra)
        } else {
            None
        }
    } else if f7 == 1 {
        if f3 == 0 {
            Some(AluOp::Mul)
        } else if f3 == 4 {
            Some(AluOp::Div)
        } else if f3 == 5 {
            Some(AluOp::Divu)
        } else if f3 == 6 {
            Some(AluOp::Rem)
        } else if f3 == 7 {
            Some(AluOp::Remu)
        } else {
            None
        }
    } else {
        None
    }
}

/// The read-modify-write operation for `funct5`.
pub open spec fn amo_op(f5: u32) -> Option<AmoOp> {
    if f5 == 0x01 {
        Some(AmoOp::Swap)
    } else if f5 == 0x00 {
        Some(AmoOp::Add)
    } else if f5 == 0x04 {
        Some(AmoOp::Xor)
    } else if f5 == 0x0c {
        Some(AmoOp::And)
    } else if f5 == 0x08 {
        Some(AmoOp::Or)
    } else if f5 == 0x10 {
        Some(AmoOp::Min)
    } else if f5 == 0x14 {
        Some(AmoOp::Max)
    } else if f5 == 0x18 {
        Some(AmoOp::Minu)
    } else if f5 == 0x1c {
        Some(AmoOp::Maxu)
    } else {
        None
    }
}

/// The `A` extension: load-reserved, store-conditional and the read-modify-write operations.
pub open spec fn amo_instr(w: u32) -> Option<Instr> {
    let f3 = (w >> 12u32) & 7;
    let f5 = w >> 27u32;
    let rd = reg_at(w, 7);
    let rs1 = reg_at(w, 15);
    let rs2 = reg_at(w, 20);
    if f3 != 2 && f3 != 3 {
        None
    } else if f5 == 0x02 {
        if rs2 == 0 {
            Some(Instr::LoadReserved { double: f3 == 3, rd, rs1 })
        } else {
            None
        }
    } else if f5 == 0x03 {
        Some(Instr::StoreConditional { double: f3 == 3, rd, rs1, rs2 })
    } else {
        match amo_op(f5) {
            Some(op) => Some(Instr::Amo { op, double: f3 == 3, rd, rs1, rs2 }),
            None => None,
        }
    }
}

/// The instruction that a word encodes, if it is one this CPU runs.
pub open spec fn decode(w: u32) -> Option<Instr> {
    let opcode = w & 0x7f;
    let f3 = (w >> 12u32) & 7;
    let f7 = w >> 25u32;
    let rd = reg_at(w, 7);
    let rs1 = reg_at(w, 15);
    let rs2 = reg_at(w, 20);
    if opcode == 0x37 {
        Some(Instr::Lui { rd, imm: imm_u(w) })
    } else if opcode == 0x17 {
        Some(Instr::Auipc { rd, imm: imm_u(w) })
    } else if opcode == 0x6f {
        Some(Instr::Jal { rd, imm: imm_j(w) })
    } else if opcode == 0x67 {
        if f3 == 0 {
            Some(Instr::Jalr { rd, rs1, imm: imm_i(w) })
        } else {
            None
        }
    } else if opcode == 0x63 {
        match branch_op(f3) {
            Some(op) => Some(Instr::Branch { op, rs1, rs2, imm: imm_b(w) }),
            None => None,
        }
    } else if opcode == 0x03 {
        match load_op(f3) {
            Some(op) => Some(Instr::Load { op, rd, rs1, imm: imm_i(w) }),
            None => None,
        }
    } else if opcode == 0x23 {
        match store_op(f3) {
            Some(op) => Some(Instr::Store { op, rs1, rs2, imm: imm_s(w) }),
            None => None,
        }
    } else if opcode == 0x13 {
        match op_imm_op(f3, w >> 26u32) {
            Some(op) => {
                let imm = if f3 == 1 || f3 == 5 {
                    ((w >> 20u32) & 0x3f) as i64
                } else {
                    imm_i(w)
                };
                Some(Instr::OpImm { op, rd, rs1, imm })
            },
            None => None,
        }
    } else if opcode == 0x33 {
        match op_op(f3, f7) {
            Some(op) => Some(Instr::Op { op, rd, rs1, rs2 }),
            None => None,
        }
    } else if opcode == 0x1b {
        match op_imm32_op(f3, f7) {
            Some(op) => {
                let imm = if f3 == 0 {
                    imm_i(w)
                } else {
                    ((w >> 20u32) & 0x1f) as i64
                };
                Some(Instr::OpImm32 { op, rd, rs1, imm })
            },
            None => None,
        }
    } else if opcode == 0x3b {
        match op32_op(f3, f7) {
            Some(op) => Some(Instr::Op32 { op, rd, rs1, rs2 }),
            None => None,
        }
    } else if opcode == 0x2f {
        amo_instr(w)
    } else if opcode == 0x0f {
        Some(Instr::Fence)
    } else if w == 0x0010_0073 {
        Some(Instr::Ebreak)
    } else {
        None
    }
}

// ---------------------------------------------------------------------------
// Arithmetic

/// `op` on two 64-bit operands. Division by zero gives all ones, both as a
/// quotient and as a remainder; the overflowing signed division gives the
/// dividend as quotient and zero as remainder.
pub open spec fn alu(op: AluOp, a: i64, b: i64) -> i64 {
    match op {
        AluOp::Add => a.wrapping_add(b),
        AluOp::Sub => a.wrapping_sub(b),
        AluOp::Sll => a.wrapping_shl(b as u32),
        AluOp::Slt => if a < b { 1i64 } else { 0i64 },
        AluOp::Sltu => if (a as u64) < (b as u64) { 1i64 } else { 0i64 },
        AluOp::Xor => a ^ b,
        AluOp::Srl => ((a as u64).wrapping_shr(b as u32)) as i64,
        AluOp::Sra => a.wrapping_shr(b as u32),
        AluOp::Or => a | b,
        AluOp::And => a & b,
        AluOp::Mul => a.wrapping_mul(b),
        AluOp::Mulh => ((a as i128).wrapping_mul(b as i128) >> 64u32) as i64,
        AluOp::Mulhsu => ((a as i128).wrapping_mul((b as u64) as i128) >> 64u32) as i64,
        AluOp::Mulhu => (((a as u64) as u128).wrapping_mul((b as u64) as u128) >> 64u32) as i64,
        AluOp::Div => if b == 0 {
            -1i64
        } else {
            match a.checked_div(b) {
                Some(q) => q,
                None => i64::MIN,
            }
        },
        AluOp::Divu => if (b as u64) == 0 { -1i64 } else { ((a as u64) / (b as u64)) as i64 },
        AluOp::Rem => if b == 0 {
            -1i64
        } else {
            match a.checked_rem(b) {
                Some(r) => r,
                None => 0i64,
            }
        },
        AluOp::Remu => if (b as u64) == 0 { -1i64 } else { ((a as u64) % (b as u64)) as i64 },
    }
}

/// `op` on the low 32 bits of both operands, sign-extended to 64 bits; the
/// same rules for division as [`alu`].
pub open spec fn alu_w(op: AluOp, a: i64, b: i64) -> i64 {
    let x = a as i32;
    let y = b as i32;
    match op {
        AluOp::Add => x.wrapping_add(y) as i64,
        AluOp::Sub => x.wrapping_sub(y) as i64,
        AluOp::Sll => x.wrapping_shl(b as u32) as i64,
        AluOp::Srl => ((a as u32).wrapping_shr(b as u32)) as i32 as i64,
        AluOp::Sra => x.wrapping_shr(b as u32) as i64,
        AluOp::Mul => x.wrapping_mul(y) as i64,
        AluOp::Div => if y == 0 {
            -1i64
        } else {
            match x.checked_div(y) {
                Some(q) => q as i64,
                None => i32::MIN as i64,
            }
        },
        AluOp::Divu => if (b as u32) == 0 { -1i64 } else { ((a as u32) / (b as u32)) as i32 as i64 },
        AluOp::Rem => if y == 0 {
            -1i64
        } else {
            match x.checked_rem(y) {
                Some(r) => r as i64,
                None => 0i64,
            }
        },
        AluOp::Remu => if (b as u32) == 0 { -1i64 } else { ((a as u32) % (b as u32)) as i32 as i64 },
        _ => 0i64,
    }
}

/// Whether a branch with condition `op` is taken.
pub open spec fn branch_taken(op: BranchOp, a: i64, b: i64) -> bool {
    match op {
        BranchOp::Eq => a == b,
        BranchOp::Ne => a != b,
        BranchOp::Lt => a < b,
        BranchOp::Ge => a >= b,
        BranchOp::Ltu => (a as u64) < (b as u64),
        BranchOp::Geu => (a as u64) >= (b as u64),
    }
}

/// The value that a read-modify-write stores, given the old value in memory
/// and the register operand; word operations compare the low 32 bits.
pub open spec fn amo(op: AmoOp, double: bool, old: i64, src: i64) -> i64 {
    match op {
        AmoOp::Swap => src,
        AmoOp::Add => old.wrapping_add(src),
        AmoOp::Xor => old ^ src,
        AmoOp::And => old & src,
        AmoOp::Or => old | src,
        AmoOp::Min => if double {
            if old <= src { old } else { src }
        } else {
            if (old as i32) <= (src as i32) { old } else { src }
        },
        AmoOp::Max => if double {
            if old >= src { old } else { src }
        } else {
            if (old as i32) >= (src as i32) { old } else { src }
        },
        AmoOp::Minu => if double {
            if (old as u64) <= (src as u64) { old } else { src }
        } else {
            if (old as u32) <= (src as u32) { old } else { src }
        },
        AmoOp::Maxu => if double {
            if (old as u64) >= (src as u64) { old } else { src }
        } else {
            if (old as u32) >= (src as u32) { old } else { src }
        },
    }
}

/// Whether every register number in `i` is below 32.
pub open spec fn regs_in_range(i: Instr) -> bool {
    match i {
        Instr::Lui { rd, .. } => rd < 32,
        Instr::Auipc { rd, .. } => rd < 32,
        Instr::Jal { rd, .. } => rd < 32,
        Instr::Jalr { rd, rs1, .. } => rd < 32 && rs1 < 32,
        Instr::Branch { rs1, rs2, .. } => rs1 < 32 && rs2 < 32,
        Instr::Load { rd, rs1, .. } => rd < 32 && rs1 < 32,
        Instr::Store { rs1, rs2, .. } => rs1 < 32 && rs2 < 32,
        Instr::OpImm { rd, rs1, .. } => rd < 32 && rs1 < 32,
        Instr::Op { rd, rs1, rs2, .. } => rd < 32 && rs1 < 32 && rs2 < 32,
        Instr::OpImm32 { rd, rs1, .. } => rd < 32 && rs1 < 32,
        Instr::Op32 { rd, rs1, rs2, .. } => rd < 32 && rs1 < 32 && rs2 < 32,
        Instr::LoadReserved { rd, rs1, .. } => rd < 32 && rs1 < 32,
        Instr::StoreConditional { rd, rs1, rs2, .. } => rd < 32 && rs1 < 32 && rs2 < 32,
        Instr::Amo { rd, rs1, rs2, .. } => rd < 32 && rs1 < 32 && rs2 < 32,
        Instr::Fence => true,
        Instr::Ebreak => true,
    }
}

/// A register field names one of the 32 registers.
pub proof fn lemma_reg_at(w: u32, shift: u32)
    ensures
        reg_at(w, shift) < 32,
{
    let x = (w >> shift) & 0x1f;
    assert(x < 32) by (bit_vector)
        requires
            x == (w >> shift) & 0x1f,
    ;
}

/// Decoding only ever names the 32 registers.
pub proof fn lemma_decode_regs(w: u32)
    ensures
        decode(w) matches Some(i) ==> regs_in_range(i),
{
    lemma_reg_at(w, 7);
    lemma_reg_at(w, 15);
    lemma_reg_at(w, 20);
}

/// Computes [`alu`].
pub fn exec_alu(op: AluOp, a: i64, b: i64) -> (r: i64)
    ensures
        r == alu(op, a, b),
{
    match op {
        AluOp::Add => a.wrapping_add(b),
        AluOp::Sub => a.wrapping_sub(b),
        AluOp::Sll => a.wrapping_shl(b as u32),
        AluOp::Slt => if a < b { 1i64 } else { 0i64 },
        AluOp::Sltu => if (a as u64) < (b as u64) { 1i64 } else { 0i64 },
        AluOp::Xor => a ^ b,
        AluOp::Srl => ((a as u64).wrapping_shr(b as u32)) as i64,
        AluOp::Sra => a.wrapping_shr(b as u32),
        AluOp::Or => a | b,
        AluOp::And => a & b,
        AluOp::Mul => a.wrapping_mul(b),
        AluOp::Mulh => ((a as i128).wrapping_mul(b as i128) >> 64u32) as i64,
        AluOp::Mulhsu => ((a as i128).wrapping_mul((b as u64) as i128) >> 64u32) as i64,
        AluOp::Mulhu => (((a as u64) as u128).wrapping_mul((b as u64) as u128) >> 64u32) as i64,
        AluOp::Div => if b == 0 {
            -1i64
        } else {
            match a.checked_div(b) {
                Some(q) => q,
                None => i64::MIN,
            }
        },
        AluOp::Divu => if (b as u64) == 0 { -1i64 } else { ((a as u64) / (b as u64)) as i64 },
        AluOp::Rem => if b == 0 {
            -1i64
        } else {
            match a.checked_rem(b) {
                Some(r) => r,
                None => 0i64,
            }
        },
        AluOp::Remu => if (b as u64) == 0 { -1i64 } else { ((a as u64) % (b as u64)) as i64 },
    }
}

/// Computes [`alu_w`].
pub fn exec_alu_w(op: AluOp, a: i64, b: i64) -> (r: i64)
    ensures
        r == alu_w(op, a, b),
{
    let x = a as i32;
    let y = b as i32;
    match op {
        AluOp::Add => x.wrapping_add(y) as i64,
        AluOp::Sub => x.wrapping_sub(y) as i64,
        AluOp::Sll => x.wrapping_shl(b as u32) as i64,
        AluOp::Srl => ((a as u32).wrapping_shr(b as u32)) as i32 as i64,
        AluOp::Sra => x.wrapping_shr(b as u32) as i64,
        AluOp::Mul => x.wrapping_mul(y) as i64,
        AluOp::Div => if y == 0 {
            -1i64
        } else {
            match x.checked_div(y) {
                Some(q) => q as i64,
                None => i32::MIN as i64,
            }
        },
        AluOp::Divu => if (b as u32) == 0 { -1i64 } else { ((a as u32) / (b as u32)) as i32 as i64 },
        AluOp::Rem => if y == 0 {
            -1i64
        } else {
            match x.checked_rem(y) {
                Some(r) => r as i64,
                None => 0i64,
            }
        },
        AluOp::Remu => if (b as u32) == 0 { -1i64 } else { ((a as u32) % (b as u32)) as i32 as i64 },
        _ => 0i64,
    }
}

/// Computes [`branch_taken`].
pub fn exec_branch_taken(op: BranchOp, a: i64, b: i64) -> (r: bool)
    ensures
        r == branch_taken(op, a, b),
{
    match op {
        BranchOp::Eq => a == b,
        BranchOp::Ne => a != b,
        BranchOp::Lt => a < b,
        BranchOp::Ge => a >= b,
        BranchOp::Ltu => (a as u64) < (b as u64),
        BranchOp::Geu => (a as u64) >= (b as u64),
    }
}

/// Computes [`amo`].
pub fn exec_amo(op: AmoOp, double: bool, old: i64, src: i64) -> (r: i64)
    ensures
        r == amo(op, double, old, src),
{
    match op {
        AmoOp::Swap => src,
        AmoOp::Add => old.wrapping_add(src),
        AmoOp::Xor => old ^ src,
        AmoOp::And => old & src,
        AmoOp::Or => old | src,
        AmoOp::Min => if double {
            if old <= src { old } else { src }
        } else {
            if (old as i32) <= (src as i32) { old } else { src }
        },
        AmoOp::Max => if double {
            if old >= src { old } else { src }
        } else {
            if (old as i32) >= (src as i32) { old } else { src }
        },
        AmoOp::Minu => if double {
            if (old as u64) <= (src as u64) { old } else { src }
        } else {
            if (old as u32) <= (src as u32) { old } else { src }
        },
        AmoOp::Maxu => if double {
            if (old as u64) >= (src as u64) { old } else { src }
        } else {
            if (old as u32) >= (src as u32) { old } else { src }
        },
    }
}

// ---------------------------------------------------------------------------
// Executable decoding

fn exec_branch_op(f3: u32) -> (r: Option<BranchOp>)
    ensures
        r == branch_op(f3),
{
    if f3 == 0 {
        Some(BranchOp::Eq)
    } else if f3 == 1 {
        Some(BranchOp::Ne)
    } else if f3 == 4 {
        Some(BranchOp::Lt)
    } else if f3 == 5 {
        Some(BranchOp::Ge)
    } else if f3 == 6 {
        Some(BranchOp::Ltu)
    } else if f3 == 7 {
        Some(BranchOp::Geu)
    } else {
        None
    }
}

fn exec_load_op(f3: u32) -> (r: Option<LoadOp>)
    ensures
        r == load_op(f3),
{
    if f3 == 0 {
        Some(LoadOp::Byte)
    } else if f3 == 1 {
        Some(LoadOp::Half)
    } else if f3 == 2 {
        Some(LoadOp::Word)
    } else if f3 == 3 {
        Some(LoadOp::Double)
    } else if f3 == 4 {
        Some(LoadOp::ByteU)
    } else if f3 == 5 {
        Some(LoadOp::HalfU)
    } else if f3 == 6 {
        Some(LoadOp::WordU)
    } else {
        None
    }
}

fn exec_store_op(f3: u32) -> (r: Option<StoreOp>)
    ensures
        r == store_op(f3),
{
    if f3 == 0 {
        Some(StoreOp::Byte)
    } else if f3 == 1 {
        Some(StoreOp::Half)
    } else if f3 == 2 {
        Some(StoreOp::Word)
    } else if f3 == 3 {
        Some(StoreOp::Double)
    } else {
        None
    }
}

fn exec_op_imm_op(f3: u32, top6: u32) -> (r: Option<AluOp>)
    ensures
        r == op_imm_op(f3, top6),
{
    if f3 == 0 {
        Some(AluOp::Add)
    } else if f3 == 1 && top6 == 0 {
        Some(AluOp::Sll)
    } else if f3 == 2 {
        Some(AluOp::Slt)
    } else if f3 == 3 {
        Some(AluOp::Sltu)
    } else if f3 == 4 {
        Some(AluOp::Xor)
    } else if f3 == 5 && top6 == 0 {
        Some(AluOp::Srl)
    } else if f3 == 5 && top6 == 0x10 {
        Some(AluOp::Sra)
    } else if f3 == 6 {
        Some(AluOp::Or)
    } else if f3 == 7 {
        Some(AluOp::And)
    } else {
        None
    }
}

fn exec_op_op(f3: u32, f7: u32) -> (r: Option<AluOp>)
    ensures
        r == op_op(f3, f7),
{
    if f7 == 0 {
        if f3 == 0 {
            Some(AluOp::Add)
        } else if f3 == 1 {
            Some(AluOp::Sll)
        } else if f3 == 2 {
            Some(AluOp::Slt)
        } else if f3 == 3 {
            Some(AluOp::Sltu)
        } else if f3 == 4 {
            Some(AluOp::Xor)
        } else if f3 == 5 {
            Some(AluOp::Srl)
        } else if f3 == 6 {
            Some(AluOp::Or)
        } else {
            Some(AluOp::And)
        }
    } else if f7 == 0x20 {
        if f3 == 0 {
            Some(AluOp::Sub)
        } else if f3 == 5 {
            Some(AluOp::Sra)
        } else {
            None
        }
    } else if f7 == 1 {
        if f3 == 0 {
            Some(AluOp::Mul)
        } else if f3 == 1 {
            Some(AluOp::Mulh)
        } else if f3 == 2 {
            Some(AluOp::Mulhsu)
        } else if f3 == 3 {
            Some(AluOp::Mulhu)
        } else if f3 == 4 {
            Some(AluOp::Div)
        } else if f3 == 5 {
            Some(AluOp::Divu)
        } else if f3 == 6 {
            Some(AluOp::Rem)
        } else {
            Some(AluOp::Remu)
        }
    } else {
        None
    }
}

fn exec_op_imm32_op(f3: u32, f7: u32) -> (r: Option<AluOp>)
    ensures
        r == op_imm32_op(f3, f7),
{
    if f3 == 0 {
        Some(AluOp::Add)
    } else if f3 == 1 && f7 == 0 {
        Some(AluOp::Sll)
    } else if f3 == 5 && f7 == 0 {
        Some(AluOp::Srl)
    } else if f3 == 5 && f7 == 0x20 {
        Some(AluOp::Sra)
    } else {
        None
    }
}

fn exec_op32_op(f3: u32, f7: u32) -> (r: Option<AluOp>)
    ensures
        r == op32_op(f3, f7),
{
    if f7 == 0 {
        if f3 == 0 {
            Some(AluOp::Add)
        } else if f3 == 1 {
            Some(AluOp::Sll)
        } else if f3 == 5 {
            Some(AluOp::Srl)
        } else {
            None
        }
    } else if f7 == 0x20 {
        if f3 == 0 {
            Some(AluOp::Sub)
        } else if f3 == 5 {
            Some(AluOp::Sra)
        } else {
            None
        }
    } else if f7 == 1 {
        if f3 == 0 {
            Some(AluOp::Mul)
        } else if f3 == 4 {
            Some(AluOp::Div)
        } else if f3 == 5 {
            Some(AluOp::Divu)
        } else if f3 == 6 {
            Some(AluOp::Rem)
        } else if f3 == 7 {
            Some(AluOp::Remu)
        } else {
            None
        }
    } else {
        None
    }
}

fn exec_amo_op(f5: u32) -> (r: Option<AmoOp>)
    ensures
        r == amo_op(f5),
{
    if f5 == 0x01 {
        Some(AmoOp::Swap)
    } else if f5 == 0x00 {
        Some(AmoOp::Add)
    } else if f5 == 0x04 {
        Some(AmoOp::Xor)
    } else if f5 == 0x0c {
        Some(AmoOp::And)
    } else if f5 == 0x08 {
        Some(AmoOp::Or)
    } else if f5 == 0x10 {
        Some(AmoOp::Min)
    } else if f5 == 0x14 {
        Some(AmoOp::Max)
    } else if f5 == 0x18 {
        Some(AmoOp::Minu)
    } else if f5 == 0x1c {
        Some(AmoOp::Maxu)
    } else {
        None
    }
}

fn exec_amo_instr(w: u32) -> (r: Option<Instr>)
    ensures
        r == amo_instr(w),
{
    let f3 = (w >> 12u32) & 7;
    let f5 = w >> 27u32;
    let rd = reg_field(w, 7);
    let rs1 = reg_field(w, 15);
    let rs2 = reg_field(w, 20);
    if f3 != 2 && f3 != 3 {
        None
    } else if f5 == 0x02 {
        if rs2 == 0 {
            Some(Instr::LoadReserved { double: f3 == 3, rd, rs1 })
        } else {
            None
        }
    } else if f5 == 0x03 {
        Some(Instr::StoreConditional { double: f3 == 3, rd, rs1, rs2 })
    } else {
        match exec_amo_op(f5) {
            Some(op) => Some(Instr::Amo { op, double: f3 == 3, rd, rs1, rs2 }),
            None => None,
        }
    }
}

/// Decodes an instruction word; see [`decode`].
pub fn decode_word(w: u32) -> (r: Option<Instr>)
    ensures
        r == decode(w),
{
    let opcode = w & 0x7f;
    let f3 = (w >> 12u32) & 7;
    let f7 = w >> 25u32;
    let rd = reg_field(w, 7);
    let rs1 = reg_field(w, 15);
    let rs2 = reg_field(w, 20);
    if opcode == 0x37 {
        Some(Instr::Lui { rd, imm: field_imm_u(w) })
    } else if opcode == 0x17 {
        Some(Instr::Auipc { rd, imm: field_imm_u(w) })
    } else if opcode == 0x6f {
        Some(Instr::Jal { rd, imm: field_imm_j(w) })
    } else if opcode == 0x67 {
        if f3 == 0 {
            Some(Instr::Jalr { rd, rs1, imm: field_imm_i(w) })
        } else {
            None
        }
    } else if opcode == 0x63 {
        match exec_branch_op(f3) {
            Some(op) => Some(Instr::Branch { op, rs1, rs2, imm: field_imm_b(w) }),
            None => None,
        }
    } else if opcode == 0x03 {
        match exec_load_op(f3) {
            Some(op) => Some(Instr::Load { op, rd, rs1, imm: field_imm_i(w) }),
            None => None,
        }
    } else if opcode == 0x23 {
        match exec_store_op(f3) {
            Some(op) => Some(Instr::Store { op, rs1, rs2, imm: field_imm_s(w) }),
            None => None,
        }
    } else if opcode == 0x13 {
        match exec_op_imm_op(f3, w >> 26u32) {
            Some(op) => {
                let imm = if f3 == 1 || f3 == 5 {
                    ((w >> 20u32) & 0x3f) as i64
                } else {
                    field_imm_i(w)
                };
                Some(Instr::OpImm { op, rd, rs1, imm })
            },
            None => None,
        }
    } else if opcode == 0x33 {
        match exec_op_op(f3, f7) {
            Some(op) => Some(Instr::Op { op, rd, rs1, rs2 }),
            None => None,
        }
    } else if opcode == 0x1b {
        match exec_op_imm32_op(f3, f7) {
            Some(op) => {
                let imm = if f3 == 0 {
                    field_imm_i(w)
                } else {
                    ((w >> 20u32) & 0x1f) as i64
                };
                Some(Instr::OpImm32 { op, rd, rs1, imm })
            },
            None => None,
        }
    } else if opcode == 0x3b {
        match exec_op32_op(f3, f7) {
            Some(op) => Some(Instr::Op32 { op, rd, rs1, rs2 }),
            None => None,
        }
    } else if opcode == 0x2f {
        exec_amo_instr(w)
    } else if opcode == 0x0f {
        Some(Instr::Fence)
    } else if w == 0x0010_0073 {
        Some(Instr::Ebreak)
    } else {
        None
    }
}

} // verus!
