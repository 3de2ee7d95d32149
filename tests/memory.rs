use kartoffels_core::cpu::{Cpu, MMIO_BASE, RAM_BASE, RAM_SIZE};
use kartoffels_core::fault::{Fault, FaultKind, MemOp};
use kartoffels_core::isa::{decode_word, exec_alu, exec_alu_w, AluOp, Instr};
use kartoffels_core::mmio::{timer_seed, timer_ticks, NoMmio, Timer};

fn blank() -> Cpu {
    Cpu::new(&Vec::new(), RAM_BASE as u64).unwrap()
}

#[test]
fn image_larger_than_ram_is_refused() {
    assert!(Cpu::new(&vec![0; RAM_SIZE + 1], 0).is_none());
    assert!(Cpu::new(&vec![0; RAM_SIZE], 0).is_some());
}

#[test]
fn ram_is_little_endian() {
    let mut cpu = blank();
    let addr = RAM_BASE as u64 + 16;
    cpu.mem_store::<NoMmio, 4>(None, addr, 0x1122_3344).unwrap();
    assert_eq!(&cpu.ram()[16..20], &[0x44, 0x33, 0x22, 0x11]);
    assert_eq!(cpu.mem_load::<NoMmio, 2>(None, addr + 1), Ok(0x2233));
    assert_eq!(cpu.mem_load::<NoMmio, 8>(None, addr), Ok(0x1122_3344));
}

#[test]
fn store_keeps_only_low_bytes() {
    let mut cpu = blank();
    cpu.mem_store::<NoMmio, 1>(None, RAM_BASE as u64, -1).unwrap();
    assert_eq!(cpu.ram()[0], 0xff);
    assert_eq!(cpu.ram()[1], 0);
    assert_eq!(cpu.mem_load::<NoMmio, 1>(None, RAM_BASE as u64), Ok(0xff));
}

#[test]
fn null_pointer_load_faults() {
    let cpu = blank();
    let r = cpu.mem_load::<NoMmio, 4>(Some(&NoMmio), 0);
    assert_eq!(
        r,
        Err(Fault { kind: FaultKind::NullPointer(MemOp::Load), addr: 0, size: 4 })
    );
    assert_eq!(r.unwrap_err().message(), "null-pointer load on 0x00000000+4");
}

#[test]
fn below_ram_store_faults() {
    let mut cpu = blank();
    let r = cpu.mem_store::<NoMmio, 8>(Some(&mut NoMmio), 0x1000, 5);
    assert_eq!(r.unwrap_err().message(), "out-of-bounds store on 0x00001000+8");
}

#[test]
fn past_ram_end_faults() {
    let cpu = blank();
    let addr = RAM_BASE as u64 + RAM_SIZE as u64 - 2;
    let r = cpu.mem_load::<NoMmio, 4>(None, addr);
    assert_eq!(r.unwrap_err().message(), "out-of-bounds ram load on 0x0011fffe+4");
    assert_eq!(cpu.mem_load::<NoMmio, 2>(None, addr), Ok(0));
}

#[test]
fn atomic_mmio_access_faults() {
    let mut cpu = blank();
    let r = cpu.mem_store::<NoMmio, 4>(None, MMIO_BASE as u64, 1);
    assert_eq!(r.unwrap_err().message(), "atomic mmio store on 0x08000000+4");
    let r = cpu.mem_load::<NoMmio, 4>(None, MMIO_BASE as u64);
    assert_eq!(r.unwrap_err().message(), "atomic mmio load on 0x08000000+4");
}

#[test]
fn mmio_load_checks_width_alignment_and_bus() {
    let cpu = blank();
    let timer = Timer { seed: 0x8000_0001, ticks: 3 };
    let base = MMIO_BASE as u64;
    assert_eq!(
        cpu.mem_load::<Timer, 8>(Some(&timer), base).unwrap_err().message(),
        "missized mmio load on 0x08000000+8"
    );
    assert_eq!(
        cpu.mem_load::<Timer, 4>(Some(&timer), base + 2).unwrap_err().message(),
        "unaligned mmio load on 0x08000002+4"
    );
    assert_eq!(
        cpu.mem_load::<Timer, 4>(Some(&timer), base + 8).unwrap_err().message(),
        "out-of-bounds mmio load on 0x08000008+4"
    );
    assert_eq!(cpu.mem_load::<Timer, 4>(Some(&timer), base), Ok(0x8000_0001u32 as i32 as i64));
    assert_eq!(cpu.mem_load::<Timer, 4>(Some(&timer), base + 4), Ok(3));
}

#[test]
fn addresses_truncate_to_32_bits() {
    let cpu = blank();
    let r = cpu.mem_load::<NoMmio, 4>(None, 0x1_0000_0000);
    assert_eq!(r.unwrap_err().message(), "null-pointer load on 0x00000000+4");
}

#[test]
fn timer_helpers_read_their_words() {
    let mut timer = Timer { seed: 42, ticks: u32::MAX };
    assert_eq!(timer_seed(&timer), Ok(42));
    assert_eq!(timer_ticks(&timer), Ok(u32::MAX));
    timer.tick();
    assert_eq!(timer_ticks(&timer), Ok(0));
    assert_eq!(timer_seed(&NoMmio), Err(()));
}

#[test]
fn division_rules() {
    assert_eq!(exec_alu(AluOp::Div, 7, 0), -1);
    assert_eq!(exec_alu(AluOp::Divu, 7, 0), -1);
    assert_eq!(exec_alu(AluOp::Rem, -100, 0), -1);
    assert_eq!(exec_alu(AluOp::Remu, 7, 0), -1);
    assert_eq!(exec_alu(AluOp::Div, i64::MIN, -1), i64::MIN);
    assert_eq!(exec_alu(AluOp::Rem, i64::MIN, -1), 0);
    assert_eq!(exec_alu(AluOp::Div, -7, 2), -3);
    assert_eq!(exec_alu(AluOp::Rem, -7, 2), -1);
    assert_eq!(exec_alu_w(AluOp::Div, i32::MIN as i64, -1), i32::MIN as i64);
    assert_eq!(exec_alu_w(AluOp::Rem, i32::MIN as i64, -1), 0);
}

#[test]
fn high_multiplications() {
    assert_eq!(exec_alu(AluOp::Mulh, -1, -1), 0);
    assert_eq!(exec_alu(AluOp::Mulhu, -1, -1), -2);
    assert_eq!(exec_alu(AluOp::Mulhsu, -1, -1), -1);
    assert_eq!(exec_alu(AluOp::Mul, i64::MAX, 2), -2);
}

#[test]
fn shifts_and_compares() {
    assert_eq!(exec_alu(AluOp::Sll, 1, 65), 2);
    assert_eq!(exec_alu(AluOp::Srl, -1, 60), 0xf);
    assert_eq!(exec_alu(AluOp::Sra, -16, 2), -4);
    assert_eq!(exec_alu(AluOp::Slt, -1, 0), 1);
    assert_eq!(exec_alu(AluOp::Sltu, -1, 0), 0);
    assert_eq!(exec_alu_w(AluOp::Sll, 1, 31), i32::MIN as i64);
    assert_eq!(exec_alu_w(AluOp::Srl, -1, 28), 0xf);
}

#[test]
fn decodes_common_words() {
    assert_eq!(decode_word(0x0010_0073), Some(Instr::Ebreak));
    assert_eq!(
        decode_word(0x00a0_0093),
        Some(Instr::OpImm { op: AluOp::Add, rd: 1, rs1: 0, imm: 10 })
    );
    assert_eq!(
        decode_word(0xfff0_0093),
        Some(Instr::OpImm { op: AluOp::Add, rd: 1, rs1: 0, imm: -1 })
    );
    assert_eq!(decode_word(0x0000_0000), None);
}
