//! CPU state, the memory map, and memory access.

use vstd::prelude::*;
use crate::fault::{Fault, FaultKind, MemOp};
use crate::mmio::Mmio;

verus! {

/// First address of the RAM.
pub const RAM_BASE: u32 = 0x0010_0000;

/// First address of the MMIO region; the RAM must end at or before it.
pub const MMIO_BASE: u32 = 0x0800_0000;

/// Default size of a CPU's RAM, in bytes.
pub const RAM_SIZE: usize = 128 * 1024;

/// The mathematical state of a CPU.
pub struct CpuState {
    pub pc: u64,
    pub regs: Seq<i64>,
    pub ram: Seq<u8>,
    /// Address of the word reserved by the last load-reserved, if any.
    pub reservation: Option<u32>,
}

/// A RISC-V hart with its own RAM.
pub struct Cpu {
    pc: u64,
    regs: Vec<i64>,
    ram: Vec<u8>,
    reservation: Option<u32>,
}

impl View for Cpu {
    type V = CpuState;

    closed spec fn view(&self) -> CpuState {
        CpuState {
            pc: self.pc,
            regs: self.regs@,
            ram: self.ram@,
            reservation: self.reservation,
        }
    }
}

/// A state that a CPU can be in: 32 registers of which the first reads zero,
/// and a RAM that fits below the MMIO region.
pub open spec fn state_wf(st: CpuState) -> bool {
    &&& st.regs.len() == 32
    &&& st.regs[0] == 0
    &&& st.ram.len() <= MMIO_BASE - RAM_BASE
}

pub open spec fn mem_fault(kind: FaultKind, addr: u32, size: nat) -> Fault {
    Fault { kind, addr, size: size as usize }
}

/// The unsigned value of the `k` bytes at `off`, little-endian: byte `i`
/// gives bits `8 i` to `8 i + 7`.
pub open spec fn le_value(ram: Seq<u8>, off: int, k: nat) -> u64
    decreases k,
{
    if k == 0 {
        0
    } else {
        le_value(ram, off, (k - 1) as nat) | ((ram[off + k - 1] as u64) << ((8 * (k - 1)) as u32))
    }
}

/// `ram` with the low `size` bytes of `val` written at `off`, little-endian.
pub open spec fn le_write(ram: Seq<u8>, off: int, size: nat, val: u64) -> Seq<u8> {
    Seq::new(
        ram.len(),
        |j: int|
            if off <= j < off + size {
                ((val >> ((8 * (j - off)) as u32)) & 0xff) as u8
            } else {
                ram[j]
            },
    )
}

/// Whether the `size` bytes at `addr` lie in a RAM of `len` bytes.
pub open spec fn in_ram(len: nat, addr: u32, size: nat) -> bool {
    RAM_BASE <= addr < MMIO_BASE && (addr - RAM_BASE) + size <= len
}

/// Result of reading `size` bytes of RAM at `addr`, which lies at or above the
/// RAM's base and below the MMIO region.
pub open spec fn ram_load(ram: Seq<u8>, addr: u32, size: nat) -> Result<i64, Fault> {
    let rel = addr - RAM_BASE;
    if rel + size > ram.len() {
        Err(mem_fault(FaultKind::OutOfBoundsRam(MemOp::Load), addr, size))
    } else {
        Ok(le_value(ram, rel, size) as i64)
    }
}

/// Result of reading `size` bytes at `addr` of the MMIO region.
pub open spec fn mmio_load<M: Mmio>(m: M, addr: u32, size: nat) -> Result<i64, Fault> {
    if size != 4 {
        Err(mem_fault(FaultKind::MissizedMmio(MemOp::Load), addr, size))
    } else if addr % 4 != 0 {
        Err(mem_fault(FaultKind::UnalignedMmio(MemOp::Load), addr, size))
    } else {
        match m.spec_load((addr - MMIO_BASE) as u32) {
            Ok(v) => Ok(v as i32 as i64),
            Err(_) => Err(mem_fault(FaultKind::OutOfBoundsMmio(MemOp::Load), addr, size)),
        }
    }
}

/// Result of a load of `size` bytes at `addr` (of which the low 32 bits count).
/// `mmio` is `None` for an atomic access, which the MMIO region refuses. RAM
/// bytes come back zero-extended, an MMIO word sign-extended.
pub open spec fn load_result<M: Mmio>(st: CpuState, mmio: Option<M>, addr: u64, size: nat) -> Result<
    i64,
    Fault,
> {
    let a = addr as u32;
    if a >= MMIO_BASE {
        match mmio {
            Some(m) => mmio_load(m, a, size),
            None => Err(mem_fault(FaultKind::AtomicMmio(MemOp::Load), a, size)),
        }
    } else if a >= RAM_BASE {
        ram_load(st.ram, a, size)
    } else if a == 0 {
        Err(mem_fault(FaultKind::NullPointer(MemOp::Load), a, size))
    } else {
        Err(mem_fault(FaultKind::OutOfBounds(MemOp::Load), a, size))
    }
}

/// State and result of writing `size` bytes of RAM at `addr`, which lies at or
/// above the RAM's base and below the MMIO region. A write to the reserved
/// address drops the reservation.
pub open spec fn ram_store(st: CpuState, addr: u32, size: nat, val: u64) -> (CpuState, Result<
    (),
    Fault,
>) {
    let rel = addr - RAM_BASE;
    if rel + size > st.ram.len() {
        (st, Err(mem_fault(FaultKind::OutOfBoundsRam(MemOp::Store), addr, size)))
    } else {
        (
            CpuState {
                ram: le_write(st.ram, rel, size, val),
                reservation: if st.reservation == Some(addr) {
                    None
                } else {
                    st.reservation
                },
                ..st
            },
            Ok(()),
        )
    }
}

/// Bus and result of writing `size` bytes at `addr` of the MMIO region.
pub open spec fn mmio_store<M: Mmio>(m: M, addr: u32, size: nat, val: u64) -> (M, Result<
    (),
    Fault,
>) {
    if size != 4 {
        (m, Err(mem_fault(FaultKind::MissizedMmio(MemOp::Store), addr, size)))
    } else if addr % 4 != 0 {
        (m, Err(mem_fault(FaultKind::UnalignedMmio(MemOp::Store), addr, size)))
    } else {
        let (m2, r) = m.spec_store((addr - MMIO_BASE) as u32, val as u32);
        match r {
            Ok(_) => (m2, Ok(())),
            Err(_) => (m2, Err(mem_fault(FaultKind::OutOfBoundsMmio(MemOp::Store), addr, size))),
        }
    }
}

/// State, bus and result of a store of the low `size` bytes of `val` at `addr`;
/// `mmio` is `None` for an atomic access.
pub open spec fn store_result<M: Mmio>(
    st: CpuState,
    mmio: Option<M>,
    addr: u64,
    size: nat,
    val: i64,
) -> (CpuState, Option<M>, Result<(), Fault>) {
    let a = addr as u32;
    if a >= MMIO_BASE {
        match mmio {
            Some(m) => {
                let (m2, r) = mmio_store(m, a, size, val as u64);
                (st, Some(m2), r)
            },
            None => (st, mmio, Err(mem_fault(FaultKind::AtomicMmio(MemOp::Store), a, size))),
        }
    } else if a >= RAM_BASE {
        let (st2, r) = ram_store(st, a, size, val as u64);
        (st2, mmio, r)
    } else if a == 0 {
        (st, mmio, Err(mem_fault(FaultKind::NullPointer(MemOp::Store), a, size)))
    } else {
        (st, mmio, Err(mem_fault(FaultKind::OutOfBounds(MemOp::Store), a, size)))
    }
}

/// The widths of a memory access: one, two, four or eight bytes.
pub open spec fn valid_size(size: nat) -> bool {
    size == 1 || size == 2 || size == 4 || size == 8
}


/// A load that succeeds read bytes inside the RAM, or a word that the MMIO bus
/// answered through an aligned four-byte, non-atomic access.
pub proof fn lemma_load_isolation<M: Mmio>(st: CpuState, mmio: Option<M>, addr: u64, size: nat)
    ensures
        load_result(st, mmio, addr, size) is Ok ==> {
            ||| in_ram(st.ram.len(), addr as u32, size)
            ||| {
                &&& addr as u32 >= MMIO_BASE
                &&& size == 4
                &&& (addr as u32) % 4 == 0
                &&& mmio matches Some(m) && m.spec_load((addr as u32 - MMIO_BASE) as u32) is Ok
            }
        },
{
}

/// A store that fails changes nothing in the CPU. One that succeeds either
/// wrote the bytes `addr .. addr + size` of the RAM and no other, or went to
/// the MMIO bus through an aligned four-byte, non-atomic access and left the
/// RAM as it was.
pub proof fn lemma_store_isolation<M: Mmio>(
    st: CpuState,
    mmio: Option<M>,
    addr: u64,
    size: nat,
    val: i64,
)
    ensures
        ({
            let (st2, _, r) = store_result(st, mmio, addr, size, val);
            let a = addr as u32;
            &&& r is Err ==> st2 == st
            &&& r is Ok ==> {
                ||| {
                    &&& in_ram(st.ram.len(), a, size)
                    &&& st2.ram.len() == st.ram.len()
                    &&& forall|j: int|
                        0 <= j < st.ram.len() && !(a - RAM_BASE <= j < a - RAM_BASE + size)
                            ==> st2.ram[j] == st.ram[j]
                }
                ||| {
                    &&& a >= MMIO_BASE
                    &&& size == 4
                    &&& a % 4 == 0
                    &&& mmio is Some
                    &&& st2 == st
                }
            }
        }),
{
}

impl Cpu {
    /// Register zero reads zero and the RAM fits below the MMIO region. Every
    /// constructor establishes this and every method keeps it.
    pub open spec fn wf(&self) -> bool {
        state_wf(self@)
    }

    /// A CPU whose RAM holds `image` from its base, zero-filled to `RAM_SIZE`
    /// bytes, all registers zero, about to run the instruction at `entry`.
    /// An image larger than the RAM is refused.
    pub fn new(image: &Vec<u8>, entry: u64) -> (r: Option<Cpu>)
        ensures
            image@.len() <= RAM_SIZE <==> r is Some,
            r matches Some(cpu) ==> {
                &&& cpu.wf()
                &&& cpu@.pc == entry
                &&& cpu@.regs == Seq::new(32, |_i: int| 0i64)
                &&& cpu@.ram.len() == RAM_SIZE
                &&& forall|i: int| 0 <= i < image@.len() ==> cpu@.ram[i] == image@[i]
                &&& forall|i: int| image@.len() <= i < RAM_SIZE ==> cpu@.ram[i] == 0
                &&& cpu@.reservation is None
            },
    {
        if image.len() > RAM_SIZE {
            return None;
        }
        let mut ram: Vec<u8> = Vec::new();
        let mut i: usize = 0;
        while i < RAM_SIZE
            invariant
                i <= RAM_SIZE,
                ram@.len() == i,
                forall|j: int| 0 <= j < i ==> ram@[j] == if j < image@.len() {
                    image@[j]
                } else {
                    0u8
                },
            decreases RAM_SIZE - i,
        {
            if i < image.len() {
                ram.push(image[i]);
            } else {
                ram.push(0);
            }
            i = i + 1;
        }
        let mut regs: Vec<i64> = Vec::new();
        let mut k: usize = 0;
        while k < 32
            invariant
                k <= 32,
                regs@ == Seq::new(k as nat, |_i: int| 0i64),
            decreases 32 - k,
        {
            regs.push(0);
            k = k + 1;
            assert(regs@ =~= Seq::new(k as nat, |_i: int| 0i64));
        }
        Some(Cpu { pc: entry, regs, ram, reservation: None })
    }

    /// The program counter.
    pub fn pc(&self) -> (r: u64)
        ensures
            r == self@.pc,
    {
        self.pc
    }

    /// Register `i`; register zero always reads zero.
    pub fn reg(&self, i: usize) -> (r: i64)
        requires
            self.wf(),
            i < 32,
        ensures
            r == self@.regs[i as int],
            i == 0 ==> r == 0,
    {
        self.regs[i]
    }

    /// The address that the last load-reserved reserved, while it stands.
    pub fn reservation(&self) -> (r: Option<u32>)
        ensures
            r == self@.reservation,
    {
        self.reservation
    }

    /// The RAM's bytes.
    pub fn ram(&self) -> (r: &Vec<u8>)
        ensures
            r@ == self@.ram,
    {
        &self.ram
    }

    /// Writes `val` to register `i`; a write to register zero is dropped.
    pub fn set_reg(&mut self, i: usize, val: i64)
        requires
            old(self).wf(),
            i < 32,
        ensures
            final(self).wf(),
            final(self)@ == (CpuState {
                regs: if i == 0 {
                    old(self)@.regs
                } else {
                    old(self)@.regs.update(i as int, val)
                },
                ..old(self)@
            }),
    {
        if i != 0 {
            self.regs.set(i, val);
        }
    }

    /// Moves the program counter.
    pub fn set_pc(&mut self, pc: u64)
        ensures
            final(self)@ == (CpuState { pc, ..old(self)@ }),
    {
        self.pc = pc;
    }

    pub(crate) fn set_reservation(&mut self, reservation: Option<u32>)
        ensures
            final(self)@ == (CpuState { reservation, ..old(self)@ }),
    {
        self.reservation = reservation;
    }

    /// Loads `SIZE` bytes at `addr`. With `mmio` absent (an atomic access) the
    /// MMIO region faults.
    pub fn mem_load<M: Mmio, const SIZE: usize>(&self, mmio: Option<&M>, addr: u64) -> (r: Result<
        i64,
        Fault,
    >)
        requires
            valid_size(SIZE as nat),
        ensures
            r == match mmio {
                Some(m) => load_result(self@, Some(*m), addr, SIZE as nat),
                None => load_result::<M>(self@, None, addr, SIZE as nat),
            },
    {
        let addr = addr as u32;
        if addr >= MMIO_BASE {
            match mmio {
                Some(m) => {
                    return self.mem_load_mmio::<M, SIZE>(m, addr);
                },
                None => {
                    return Err(Self::mem_fault(FaultKind::AtomicMmio(MemOp::Load), addr, SIZE));
                },
            }
        }
        if addr >= RAM_BASE {
            return self.mem_load_ram::<SIZE>(addr);
        }
        if addr == 0 {
            return Err(Self::mem_fault(FaultKind::NullPointer(MemOp::Load), addr, SIZE));
        }
        Err(Self::mem_fault(FaultKind::OutOfBounds(MemOp::Load), addr, SIZE))
    }

    fn mem_load_mmio<M: Mmio, const SIZE: usize>(&self, mmio: &M, addr: u32) -> (r: Result<
        i64,
        Fault,
    >)
        requires
            addr >= MMIO_BASE,
        ensures
            r == mmio_load(*mmio, addr, SIZE as nat),
    {
        if SIZE != 4 {
            return Err(Self::mem_fault(FaultKind::MissizedMmio(MemOp::Load), addr, SIZE));
        }
        if addr % 4 != 0 {
            return Err(Self::mem_fault(FaultKind::UnalignedMmio(MemOp::Load), addr, SIZE));
        }
        let rel_addr = addr - MMIO_BASE;
        match mmio.load(rel_addr) {
            Ok(val) => Ok(val as i32 as i64),
            Err(_) => Err(Self::mem_fault(FaultKind::OutOfBoundsMmio(MemOp::Load), addr, SIZE)),
        }
    }

    fn mem_load_ram<const SIZE: usize>(&self, addr: u32) -> (r: Result<i64, Fault>)
        requires
            RAM_BASE <= addr < MMIO_BASE,
            valid_size(SIZE as nat),
        ensures
            r == ram_load(self@.ram, addr, SIZE as nat),
    {
        let rel_addr = (addr - RAM_BASE) as usize;
        if rel_addr + SIZE > self.ram.len() {
            return Err(Self::mem_fault(FaultKind::OutOfBoundsRam(MemOp::Load), addr, SIZE));
        }
        let ram_len = self.ram.len();
        let mut val: u64 = 0;
        let mut offset: usize = 0;
        while offset < SIZE
            invariant
                ram_len == self.ram@.len(),
                offset <= SIZE,
                valid_size(SIZE as nat),
                rel_addr + SIZE <= self.ram@.len(),
                val == le_value(self.ram@, rel_addr as int, offset as nat),
            decreases SIZE - offset,
        {
            val = val | ((self.ram[rel_addr + offset] as u64) << ((offset * 8) as u32));
            offset = offset + 1;
        }
        Ok(val as i64)
    }

    /// Stores the low `SIZE` bytes of `val` at `addr`. With `mmio` absent (an
    /// atomic access) the MMIO region faults.
    pub fn mem_store<M: Mmio, const SIZE: usize>(
        &mut self,
        mmio: Option<&mut M>,
        addr: u64,
        val: i64,
    ) -> (r: Result<(), Fault>)
        requires
            valid_size(SIZE as nat),
        ensures
            match mmio {
                Some(m) => {
                    let (st, m2, res) = store_result(old(self)@, Some(*m), addr, SIZE as nat, val);
                    &&& final(self)@ == st
                    &&& m2 == Some(*final(m))
                    &&& r == res
                },
                None => {
                    let (st, _, res) = store_result::<M>(old(self)@, None, addr, SIZE as nat, val);
                    &&& final(self)@ == st
                    &&& r == res
                },
            },
            final(self)@.regs == old(self)@.regs,
            final(self)@.pc == old(self)@.pc,
            final(self)@.ram.len() == old(self)@.ram.len(),
            r is Err ==> final(self)@ == old(self)@,
            old(self).wf() ==> final(self).wf(),
    {
        let addr = addr as u32;
        let val = val as u64;
        if addr >= MMIO_BASE {
            match mmio {
                Some(m) => {
                    return Self::mem_store_mmio::<M, SIZE>(m, addr, val);
                },
                None => {
                    return Err(Self::mem_fault(FaultKind::AtomicMmio(MemOp::Store), addr, SIZE));
                },
            }
        }
        if addr >= RAM_BASE {
            return self.mem_store_ram::<SIZE>(addr, val);
        }
        if addr == 0 {
            return Err(Self::mem_fault(FaultKind::NullPointer(MemOp::Store), addr, SIZE));
        }
        Err(Self::mem_fault(FaultKind::OutOfBounds(MemOp::Store), addr, SIZE))
    }

    fn mem_store_mmio<M: Mmio, const SIZE: usize>(mmio: &mut M, addr: u32, val: u64) -> (r: Result<
        (),
        Fault,
    >)
        requires
            addr >= MMIO_BASE,
        ensures
            (*final(mmio), r) == mmio_store(*old(mmio), addr, SIZE as nat, val),
    {
        if SIZE != 4 {
            return Err(Self::mem_fault(FaultKind::MissizedMmio(MemOp::Store), addr, SIZE));
        }
        if addr % 4 != 0 {
            return Err(Self::mem_fault(FaultKind::UnalignedMmio(MemOp::Store), addr, SIZE));
        }
        let rel_addr = addr - MMIO_BASE;
        let val = val as u32;
        match mmio.store(rel_addr, val) {
            Ok(_) => Ok(()),
            Err(_) => Err(Self::mem_fault(FaultKind::OutOfBoundsMmio(MemOp::Store), addr, SIZE)),
        }
    }

    fn mem_store_ram<const SIZE: usize>(&mut self, addr: u32, val: u64) -> (r: Result<(), Fault>)
        requires
            RAM_BASE <= addr < MMIO_BASE,
            valid_size(SIZE as nat),
        ensures
            (final(self)@, r) == ram_store(old(self)@, addr, SIZE as nat, val),
    {
        let rel_addr = (addr - RAM_BASE) as usize;
        if rel_addr + SIZE > self.ram.len() {
            return Err(Self::mem_fault(FaultKind::OutOfBoundsRam(MemOp::Store), addr, SIZE));
        }
        let ghost old_ram = self.ram@;
        let ram_len = self.ram.len();
        let mut offset: usize = 0;
        while offset < SIZE
            invariant
                ram_len == old_ram.len(),
                offset <= SIZE,
                valid_size(SIZE as nat),
                rel_addr + SIZE <= old_ram.len(),
                self.ram@.len() == old_ram.len(),
                self.regs == old(self).regs,
                self.pc == old(self).pc,
                self.reservation == old(self).reservation,
                forall|j: int|
                    0 <= j < old_ram.len() ==> self.ram@[j] == if rel_addr <= j < rel_addr
                        + offset {
                        ((val >> ((8 * (j - rel_addr)) as u32)) & 0xff) as u8
                    } else {
                        old_ram[j]
                    },
            decreases SIZE - offset,
        {
            self.ram.set(rel_addr + offset, ((val >> ((offset * 8) as u32)) & 0xff) as u8);
            offset = offset + 1;
        }
        assert(self.ram@ =~= le_write(old_ram, rel_addr as int, SIZE as nat, val));
        if self.reservation == Some(addr) {
            self.reservation = None;
        }
        Ok(())
    }

    fn mem_fault(kind: FaultKind, addr: u32, size: usize) -> (r: Fault)
        ensures
            r == mem_fault(kind, addr, size as nat),
    {
        Fault { kind, addr, size }
    }
}

} // verus!
