use kartoffels_core::cpu::{Cpu, MMIO_BASE, RAM_BASE};
use kartoffels_core::exec::Flow;
use kartoffels_core::mmio::{NoMmio, Timer};

const T: usize = 31;

fn r_type(f7: u32, rs2: usize, rs1: usize, f3: u32, rd: usize, op: u32) -> u32 {
    (f7 << 25) | ((rs2 as u32) << 20) | ((rs1 as u32) << 15) | (f3 << 12) | ((rd as u32) << 7) | op
}

fn i_type(imm: i32, rs1: usize, f3: u32, rd: usize, op: u32) -> u32 {
    (((imm as u32) & 0xfff) << 20) | ((rs1 as u32) << 15) | (f3 << 12) | ((rd as u32) << 7) | op
}

fn s_type(imm: i32, rs2: usize, rs1: usize, f3: u32) -> u32 {
    let imm = imm as u32;
    (((imm >> 5) & 0x7f) << 25)
        | ((rs2 as u32) << 20)
        | ((rs1 as u32) << 15)
        | (f3 << 12)
        | ((imm & 0x1f) << 7)
        | 0x23
}

fn jal(rd: usize, offset: i32) -> u32 {
    let imm = offset as u32;
    (((imm >> 20) & 1) << 31)
        | (((imm >> 1) & 0x3ff) << 21)
        | (((imm >> 11) & 1) << 20)
        | (((imm >> 12) & 0xff) << 12)
        | ((rd as u32) << 7)
        | 0x6f
}

fn jalr(rd: usize, rs1: usize, imm: i32) -> u32 {
    i_type(imm, rs1, 0, rd, 0x67)
}

fn lui(rd: usize, imm20: u32) -> u32 {
    ((imm20 & 0xfffff) << 12) | ((rd as u32) << 7) | 0x37
}

fn addi(rd: usize, rs1: usize, imm: i32) -> u32 {
    i_type(imm, rs1, 0, rd, 0x13)
}

fn addiw(rd: usize, rs1: usize, imm: i32) -> u32 {
    i_type(imm, rs1, 0, rd, 0x1b)
}

fn slli(rd: usize, rs1: usize, sh: u32) -> u32 {
    i_type(sh as i32, rs1, 1, rd, 0x13)
}

fn srli(rd: usize, rs1: usize, sh: u32) -> u32 {
    i_type(sh as i32, rs1, 5, rd, 0x13)
}

fn or(rd: usize, rs1: usize, rs2: usize) -> u32 {
    r_type(0, rs2, rs1, 6, rd, 0x33)
}

fn add(rd: usize, rs1: usize, rs2: usize) -> u32 {
    r_type(0, rs2, rs1, 0, rd, 0x33)
}

fn rem(rd: usize, rs1: usize, rs2: usize) -> u32 {
    r_type(1, rs2, rs1, 6, rd, 0x33)
}

fn mulw(rd: usize, rs1: usize, rs2: usize) -> u32 {
    r_type(1, rs2, rs1, 0, rd, 0x3b)
}

fn divuw(rd: usize, rs1: usize, rs2: usize) -> u32 {
    r_type(1, rs2, rs1, 5, rd, 0x3b)
}

fn remuw(rd: usize, rs1: usize, rs2: usize) -> u32 {
    r_type(1, rs2, rs1, 7, rd, 0x3b)
}

fn sh(rs2: usize, rs1: usize, imm: i32) -> u32 {
    s_type(imm, rs2, rs1, 1)
}

fn sw(rs2: usize, rs1: usize, imm: i32) -> u32 {
    s_type(imm, rs2, rs1, 2)
}

fn sd(rs2: usize, rs1: usize, imm: i32) -> u32 {
    s_type(imm, rs2, rs1, 3)
}

fn ld(rd: usize, rs1: usize, imm: i32) -> u32 {
    i_type(imm, rs1, 3, rd, 0x03)
}

fn lw(rd: usize, rs1: usize, imm: i32) -> u32 {
    i_type(imm, rs1, 2, rd, 0x03)
}

fn amo(f5: u32, f3: u32, rd: usize, rs1: usize, rs2: usize) -> u32 {
    r_type(f5 << 2, rs2, rs1, f3, rd, 0x2f)
}

fn lr_d(rd: usize, rs1: usize) -> u32 {
    amo(0x02, 3, rd, rs1, 0)
}

fn sc_d(rd: usize, rs2: usize, rs1: usize) -> u32 {
    amo(0x03, 3, rd, rs1, rs2)
}

fn amomax_d(rd: usize, rs2: usize, rs1: usize) -> u32 {
    amo(0x14, 3, rd, rs1, rs2)
}

fn ebreak() -> u32 {
    0x0010_0073
}

/// `li` for a value that fits in 32 signed bits.
fn li32(rd: usize, v: i32) -> Vec<u32> {
    let hi = ((v as i64 + 0x800) >> 12) as u32;
    let lo = v.wrapping_sub((hi << 12) as i32);
    vec![lui(rd, hi), addiw(rd, rd, lo)]
}

/// `li` for any 64-bit value; uses x31 as scratch.
fn li(rd: usize, v: i64) -> Vec<u32> {
    if v >= i32::MIN as i64 && v <= i32::MAX as i64 {
        return li32(rd, v as i32);
    }
    let mut out = li32(rd, (v >> 32) as i32);
    out.push(slli(rd, rd, 32));
    out.extend(li32(T, v as u32 as i32));
    out.push(slli(T, T, 32));
    out.push(srli(T, T, 32));
    out.push(or(rd, rd, T));
    out
}

fn image(words: &[u32]) -> Vec<u8> {
    words.iter().flat_map(|w| w.to_le_bytes()).collect()
}

fn cpu_with(words: &[u32], entry_word: usize) -> Cpu {
    Cpu::new(&image(words), RAM_BASE as u64 + 4 * entry_word as u64).unwrap()
}

fn program(parts: Vec<Vec<u32>>) -> Vec<u32> {
    parts.into_iter().flatten().collect()
}

#[test]
fn op_jalr() {
    let code = program(vec![
        vec![add(4, 2, 3), jalr(0, 1, 0)],
        li(2, 10),
        li(3, 20),
        vec![jal(1, -(4 * 6)), ebreak()],
    ]);
    let mut cpu = cpu_with(&code, 2);
    let (flow, _) = cpu.run(&mut NoMmio, 1000);
    assert_eq!(flow, Ok(Flow::Break));
    assert_eq!(cpu.reg(2), 10);
    assert_eq!(cpu.reg(3), 20);
    assert_eq!(cpu.reg(4), 30);
}

#[test]
fn op_rem() {
    let code = program(vec![
        li(1, -100),
        li(2, 23),
        vec![rem(3, 1, 2), rem(4, 2, 0), ebreak()],
    ]);
    let mut cpu = cpu_with(&code, 0);
    let (flow, _) = cpu.run(&mut NoMmio, 1000);
    assert_eq!(flow, Ok(Flow::Break));
    assert_eq!(cpu.reg(1), -100);
    assert_eq!(cpu.reg(2), 23);
    assert_eq!(cpu.reg(3), -8);
    assert_eq!(cpu.reg(4), -1);
}

#[test]
fn op_sh_mmio() {
    let code = program(vec![li(1, 0x0800_0000), vec![sh(0, 1, 0)]]);
    let mut cpu = cpu_with(&code, 0);
    let (flow, _) = cpu.run(&mut NoMmio, 1000);
    let fault = flow.unwrap_err();
    assert_eq!(fault.message(), "missized mmio store on 0x08000000+2");
}

#[test]
fn op_sw_mmio_unaligned() {
    let code = program(vec![li(1, 0x0800_0002), vec![sw(0, 1, 0)]]);
    let mut cpu = cpu_with(&code, 0);
    let (flow, _) = cpu.run(&mut NoMmio, 1000);
    let fault = flow.unwrap_err();
    assert_eq!(fault.message(), "unaligned mmio store on 0x08000002+4");
}

#[test]
fn op_lrd_scd() {
    let code = program(vec![
        li(1, 0x0010_2000),
        li(2, 0x1212_1212_1212_1212),
        vec![sd(2, 1, 0), lr_d(3, 1)],
        li(4, 0x3434_3434_3434_3434),
        vec![sc_d(5, 4, 1), ld(6, 1, 0), ebreak()],
    ]);
    let mut cpu = cpu_with(&code, 0);
    let (flow, _) = cpu.run(&mut NoMmio, 1000);
    assert_eq!(flow, Ok(Flow::Break));
    assert_eq!(cpu.reg(1), 0x0010_2000);
    assert_eq!(cpu.reg(2), 0x1212_1212_1212_1212);
    assert_eq!(cpu.reg(3), 0x1212_1212_1212_1212);
    assert_eq!(cpu.reg(4), 0x3434_3434_3434_3434);
    assert_eq!(cpu.reg(5), 0);
    assert_eq!(cpu.reg(6), 0x3434_3434_3434_3434);
    assert_eq!(cpu.reservation(), None);
}

#[test]
fn sc_without_reservation_fails() {
    let code = program(vec![
        li(1, 0x0010_2000),
        li(4, 0x3434),
        vec![sc_d(5, 4, 1), ld(6, 1, 0), ebreak()],
    ]);
    let mut cpu = cpu_with(&code, 0);
    let (flow, _) = cpu.run(&mut NoMmio, 1000);
    assert_eq!(flow, Ok(Flow::Break));
    assert_ne!(cpu.reg(5), 0);
    assert_eq!(cpu.reg(6), 0);
}

#[test]
fn op_amomaxd() {
    let code = program(vec![
        li(1, 0x0010_2000),
        li(2, 0x3434_3434_3434_3434),
        vec![sd(2, 1, 0)],
        li(2, 0x1212_1212_1212_1212),
        vec![amomax_d(3, 2, 1), ld(4, 1, 0)],
        li(5, 0x5656_5656_5656_5656),
        vec![amomax_d(6, 5, 1), ld(7, 1, 0), ebreak()],
    ]);
    let mut cpu = cpu_with(&code, 0);
    let (flow, _) = cpu.run(&mut NoMmio, 1000);
    assert_eq!(flow, Ok(Flow::Break));
    assert_eq!(cpu.reg(1), 0x0010_2000);
    assert_eq!(cpu.reg(2), 0x1212_1212_1212_1212);
    assert_eq!(cpu.reg(3), 0x3434_3434_3434_3434);
    assert_eq!(cpu.reg(4), 0x3434_3434_3434_3434);
    assert_eq!(cpu.reg(5), 0x5656_5656_5656_5656);
    assert_eq!(cpu.reg(6), 0x3434_3434_3434_3434);
    assert_eq!(cpu.reg(7), 0x5656_5656_5656_5656);
}

#[test]
fn op_divuw() {
    let pairs: [(i64, i64, usize); 5] = [
        (0xb504f334, -0xb504f332, 3),
        (-0xb504f332, -0xb504f332, 4),
        (-0xb504f332, 0xb504f334, 5),
        (i64::MIN, 0xb504f334, 6),
        (1, 0, 7),
    ];
    let mut parts = Vec::new();
    for (a, b, rd) in pairs {
        parts.push(li(1, a));
        parts.push(li(2, b));
        parts.push(vec![divuw(rd, 1, 2)]);
    }
    parts.push(vec![ebreak()]);
    let mut cpu = cpu_with(&program(parts), 0);
    let (flow, _) = cpu.run(&mut NoMmio, 1000);
    assert_eq!(flow, Ok(Flow::Break));
    assert_eq!(cpu.reg(3), 0x2);
    assert_eq!(cpu.reg(4), 0x1);
    assert_eq!(cpu.reg(5), 0x0);
    assert_eq!(cpu.reg(6), 0x0);
    assert_eq!(cpu.reg(7), -1);
}

#[test]
fn op_mulw() {
    let pairs: [(i64, i64, usize); 4] = [
        (0xb504f334, -0xb504f332, 3),
        (-0xb504f332, -0xb504f332, 4),
        (-0xb504f332, 0xb504f334, 5),
        (i64::MIN, 0xb504f334, 6),
    ];
    let mut parts = Vec::new();
    for (a, b, rd) in pairs {
        parts.push(li(1, a));
        parts.push(li(2, b));
        parts.push(vec![mulw(rd, 1, 2)]);
    }
    parts.push(vec![ebreak()]);
    let mut cpu = cpu_with(&program(parts), 0);
    let (flow, _) = cpu.run(&mut NoMmio, 1000);
    assert_eq!(flow, Ok(Flow::Break));
    assert_eq!(cpu.reg(3), 0x615e23d8);
    assert_eq!(cpu.reg(4), 0x3497f5c4);
    assert_eq!(cpu.reg(5), 0x615e23d8);
    assert_eq!(cpu.reg(6), 0x0);
}

#[test]
fn op_remuw() {
    let code = program(vec![
        li(1, -100),
        li(2, 23),
        vec![remuw(3, 1, 2), remuw(4, 2, 0), ebreak()],
    ]);
    let mut cpu = cpu_with(&code, 0);
    let (flow, _) = cpu.run(&mut NoMmio, 1000);
    assert_eq!(flow, Ok(Flow::Break));
    assert_eq!(cpu.reg(3), 4);
    assert_eq!(cpu.reg(4), -1);
}

#[test]
fn op_ld_sd() {
    let code = program(vec![
        li(1, 0x0010_1000),
        li(2, 125),
        vec![sd(2, 1, 0), ld(3, 1, -1), ld(4, 1, 0), ebreak()],
    ]);
    let mut cpu = cpu_with(&code, 0);
    let (flow, _) = cpu.run(&mut NoMmio, 1000);
    assert_eq!(flow, Ok(Flow::Break));
    assert_eq!(cpu.reg(1), 1052672);
    assert_eq!(cpu.reg(2), 125);
    assert_eq!(cpu.reg(3), 32000);
    assert_eq!(cpu.reg(4), 125);
}

#[test]
fn writes_to_register_zero_are_dropped() {
    let code = vec![addi(0, 0, 5), ebreak()];
    let mut cpu = cpu_with(&code, 0);
    let (flow, n) = cpu.run(&mut NoMmio, 10);
    assert_eq!(flow, Ok(Flow::Break));
    assert_eq!(n, 1);
    assert_eq!(cpu.reg(0), 0);
}

#[test]
fn timer_word_reads_through_mmio() {
    let code = program(vec![li(1, MMIO_BASE as i64), vec![lw(2, 1, 0), lw(3, 1, 4), ebreak()]]);
    let mut cpu = cpu_with(&code, 0);
    let mut timer = Timer { seed: 0xdead_beef, ticks: 7 };
    let (flow, _) = cpu.run(&mut timer, 100);
    assert_eq!(flow, Ok(Flow::Break));
    assert_eq!(cpu.reg(2), 0xdead_beef_u32 as i32 as i64);
    assert_eq!(cpu.reg(3), 7);
}

#[test]
fn mmio_store_to_read_only_timer_faults() {
    let code = program(vec![li(1, MMIO_BASE as i64), vec![sw(0, 1, 0)]]);
    let mut cpu = cpu_with(&code, 0);
    let mut timer = Timer { seed: 1, ticks: 2 };
    let (flow, _) = cpu.run(&mut timer, 100);
    assert_eq!(flow.unwrap_err().message(), "out-of-bounds mmio store on 0x08000000+4");
}

#[test]
fn illegal_instruction_faults() {
    let mut cpu = cpu_with(&[0xffff_ffff], 0);
    let r = cpu.step(&mut NoMmio);
    assert_eq!(r.unwrap_err().message(), "illegal instruction on 0x00100000+4");
    assert_eq!(cpu.pc(), RAM_BASE as u64);
}

#[test]
fn fetch_outside_ram_faults() {
    let code = vec![jalr(0, 0, 0x10)];
    let mut cpu = cpu_with(&code, 0);
    cpu.step(&mut NoMmio).unwrap();
    assert_eq!(cpu.pc(), 0x10);
    let r = cpu.step(&mut NoMmio);
    assert_eq!(r.unwrap_err().message(), "out-of-bounds fetch on 0x00000010+4");
}

#[test]
fn run_stops_at_budget() {
    let code = vec![jal(0, 0)];
    let mut cpu = cpu_with(&code, 0);
    let (flow, n) = cpu.run(&mut NoMmio, 25);
    assert_eq!(flow, Ok(Flow::Next));
    assert_eq!(n, 25);
}
