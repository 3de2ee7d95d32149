//! Faults raised by the virtual CPU, and their rendering as text.

use vstd::prelude::*;

verus! {

/// Whether a memory access reads or writes.
#[derive(Clone, Copy, Debug, PartialEq, Eq, Structural)]
pub enum MemOp {
    Load,
    Store,
}

/// What went wrong.
#[derive(Clone, Copy, Debug, PartialEq, Eq, Structural)]
pub enum FaultKind {
    /// Access of address zero.
    NullPointer(MemOp),
    /// Access below the RAM.
    OutOfBounds(MemOp),
    /// Access that starts in the RAM but runs past its end.
    OutOfBoundsRam(MemOp),
    /// MMIO access that no peripheral answers.
    OutOfBoundsMmio(MemOp),
    /// MMIO access whose width is not four bytes.
    MissizedMmio(MemOp),
    /// MMIO access whose address is not four-byte aligned.
    UnalignedMmio(MemOp),
    /// Atomic instruction aimed at the MMIO region.
    AtomicMmio(MemOp),
    /// Instruction fetch outside the RAM.
    OutOfBoundsFetch,
    /// A word that does not decode to a supported instruction.
    IllegalInstruction,
}

/// A fault: its kind, the address and the width of the access.
#[derive(Clone, Copy, Debug, PartialEq, Eq, Structural)]
pub struct Fault {
    pub kind: FaultKind,
    pub addr: u32,
    pub size: usize,
}

pub open spec fn op_text(op: MemOp) -> Seq<char> {
    match op {
        MemOp::Load => "load"@,
        MemOp::Store => "store"@,
    }
}

/// The category of a fault as it is printed.
pub open spec fn category_text(kind: FaultKind) -> Seq<char> {
    match kind {
        FaultKind::NullPointer(op) => "null-pointer "@ + op_text(op),
        FaultKind::OutOfBounds(op) => "out-of-bounds "@ + op_text(op),
        FaultKind::OutOfBoundsRam(op) => "out-of-bounds ram "@ + op_text(op),
        FaultKind::OutOfBoundsMmio(op) => "out-of-bounds mmio "@ + op_text(op),
        FaultKind::MissizedMmio(op) => "missized mmio "@ + op_text(op),
        FaultKind::UnalignedMmio(op) => "unaligned mmio "@ + op_text(op),
        FaultKind::AtomicMmio(op) => "atomic mmio "@ + op_text(op),
        FaultKind::OutOfBoundsFetch => "out-of-bounds fetch"@,
        FaultKind::IllegalInstruction => "illegal instruction"@,
    }
}

/// The lower-case hexadecimal digit of `d`.
pub open spec fn hex_digit(d: int) -> char {
    if 0 <= d < 10 {
        (('0' as int) + d) as char
    } else {
        (('a' as int) + d - 10) as char
    }
}

/// `n` in decimal, without leading zeros.
pub open spec fn decimal(n: nat) -> Seq<char>
    decreases n,
{
    if n < 10 {
        seq![hex_digit(n as int)]
    } else {
        decimal(n / 10) + seq![hex_digit((n % 10) as int)]
    }
}

/// `n` as eight hexadecimal digits, most significant first.
pub open spec fn hex8(n: u32) -> Seq<char> {
    Seq::new(8, |i: int| hex_digit(nibble(n, 7 - i)))
}

/// The `k`-th four-bit digit of `n`, counted from the least significant.
pub open spec fn nibble(n: u32, k: int) -> int {
    ((n >> ((4 * k) as u32)) & 0xf) as int
}

/// The text of a fault: `<category> on 0x<addr, eight hex digits>+<size>`.
pub open spec fn fault_text(f: Fault) -> Seq<char> {
    category_text(f.kind) + " on 0x"@ + hex8(f.addr) + "+"@ + decimal(f.size as nat)
}

fn op_str(op: MemOp) -> (r: &'static str)
    ensures
        r@ == op_text(op),
{
    match op {
        MemOp::Load => "load",
        MemOp::Store => "store",
    }
}

pub(crate) fn digit_str(d: u64) -> (r: &'static str)
    requires
        d < 16,
    ensures
        r@ == seq![hex_digit(d as int)],
{
    proof {
        reveal_strlit("0");
        reveal_strlit("1");
        reveal_strlit("2");
        reveal_strlit("3");
        reveal_strlit("4");
        reveal_strlit("5");
        reveal_strlit("6");
        reveal_strlit("7");
        reveal_strlit("8");
        reveal_strlit("9");
        reveal_strlit("a");
        reveal_strlit("b");
        reveal_strlit("c");
        reveal_strlit("d");
        reveal_strlit("e");
        reveal_strlit("f");
    }
    let r = match d {
        0 => "0",
        1 => "1",
        2 => "2",
        3 => "3",
        4 => "4",
        5 => "5",
        6 => "6",
        7 => "7",
        8 => "8",
        9 => "9",
        10 => "a",
        11 => "b",
        12 => "c",
        13 => "d",
        14 => "e",
        _ => "f",
    };
    assert(r@ =~= seq![hex_digit(d as int)]);
    r
}

fn append_decimal(s: &mut String, n: u64)
    ensures
        final(s)@ == old(s)@ + decimal(n as nat),
    decreases n,
{
    if n >= 10 {
        append_decimal(s, n / 10);
    }
    s.append(digit_str(n % 10));
    assert(final(s)@ =~= old(s)@ + decimal(n as nat));
}

impl Fault {
    /// Renders the fault as text, e.g. `missized mmio store on 0x08000000+2`.
    pub fn message(&self) -> (r: String)
        ensures
            r@ == fault_text(*self),
    {
        let mut s = String::new();
        match self.kind {
            FaultKind::NullPointer(op) => {
                s.append("null-pointer ");
                s.append(op_str(op));
            },
            FaultKind::OutOfBounds(op) => {
                s.append("out-of-bounds ");
                s.append(op_str(op));
            },
            FaultKind::OutOfBoundsRam(op) => {
                s.append("out-of-bounds ram ");
                s.append(op_str(op));
            },
            FaultKind::OutOfBoundsMmio(op) => {
                s.append("out-of-bounds mmio ");
                s.append(op_str(op));
            },
            FaultKind::MissizedMmio(op) => {
                s.append("missized mmio ");
                s.append(op_str(op));
            },
            FaultKind::UnalignedMmio(op) => {
                s.append("unaligned mmio ");
                s.append(op_str(op));
            },
            FaultKind::AtomicMmio(op) => {
                s.append("atomic mmio ");
                s.append(op_str(op));
            },
            FaultKind::OutOfBoundsFetch => {
                s.append("out-of-bounds fetch");
            },
            FaultKind::IllegalInstruction => {
                s.append("illegal instruction");
            },
        }
        assert(s@ =~= category_text(self.kind));
        s.append(" on 0x");
        let ghost head = s@;
        let mut i: u32 = 0;
        while i < 8
            invariant
                i <= 8,
                s@ =~= head + hex8(self.addr).take(i as int),
            decreases 8 - i,
        {
            let shift: u32 = 28 - 4 * i;
            let a = self.addr;
            let x = (a >> shift) & 0xf;
            assert(x < 16) by (bit_vector)
                requires
                    x == (a >> shift) & 0xf,
            ;
            let d = x as u64;
            s.append(digit_str(d));
            assert(hex8(self.addr).take(i + 1) =~= hex8(self.addr).take(i as int) + seq![
                hex_digit(d as int),
            ]);
            i = i + 1;
        }
        s.append("+");
        append_decimal(&mut s, self.size as u64);
        assert(s@ =~= fault_text(*self));
        s
    }
}

} // verus!
