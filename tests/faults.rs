use kartoffels_core::fault::{Fault, FaultKind, MemOp};

#[test]
fn message_has_category_address_and_size() {
    let f = Fault { kind: FaultKind::MissizedMmio(MemOp::Store), addr: 0x0800_0000, size: 2 };
    assert_eq!(f.message(), "missized mmio store on 0x08000000+2");
}

#[test]
fn message_prints_eight_lowercase_hex_digits() {
    let f = Fault { kind: FaultKind::OutOfBounds(MemOp::Load), addr: 0xabc, size: 1 };
    assert_eq!(f.message(), "out-of-bounds load on 0x00000abc+1");
    let f = Fault { kind: FaultKind::UnalignedMmio(MemOp::Load), addr: 0xffff_ffff, size: 4 };
    assert_eq!(f.message(), "unaligned mmio load on 0xffffffff+4");
}

#[test]
fn message_prints_size_in_decimal() {
    let f = Fault { kind: FaultKind::OutOfBoundsRam(MemOp::Store), addr: 0x0010_0000, size: 1234 };
    assert_eq!(f.message(), "out-of-bounds ram store on 0x00100000+1234");
}

#[test]
fn every_category_renders() {
    let cases = [
        (FaultKind::NullPointer(MemOp::Store), "null-pointer store"),
        (FaultKind::OutOfBoundsMmio(MemOp::Load), "out-of-bounds mmio load"),
        (FaultKind::AtomicMmio(MemOp::Load), "atomic mmio load"),
        (FaultKind::OutOfBoundsFetch, "out-of-bounds fetch"),
        (FaultKind::IllegalInstruction, "illegal instruction"),
    ];
    for (kind, text) in cases {
        let f = Fault { kind, addr: 0x10, size: 4 };
        assert_eq!(f.message(), format!("{text} on 0x00000010+4"));
    }
}
