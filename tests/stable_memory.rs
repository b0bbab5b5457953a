use isla_footprint::smt::{Bits, Def, Solver, Ty, Val};
use isla_footprint::stable_memory::StableMemoryRegion;

fn bits(v: u64, n: u32) -> Val {
    Val::Bits(Bits { bits: v, length: n })
}

#[test]
fn reads_back_what_was_written() {
    let mut m = StableMemoryRegion::new();
    assert!(matches!(m.write(0x100, bits(0x1122334455667788, 64)), Val::Unit));
    let mut s = Solver::new();
    match m.read(Val::Unit, 0x100, 8, &mut s) {
        Ok(Val::Bits(b)) => assert_eq!((b.bits, b.length), (0x1122334455667788, 64)),
        _ => panic!("expected the written bits"),
    }
    match m.read(Val::Unit, 0x100, 2, &mut s) {
        Ok(Val::Bits(b)) => assert_eq!((b.bits, b.length), (0x7788, 16)),
        _ => panic!("expected the low bits"),
    }
    assert_eq!(s.next_var, 0);
}

#[test]
fn reads_inside_a_wider_write() {
    let mut m = StableMemoryRegion::new();
    m.write(0x100, bits(0x1122334455667788, 64));
    let mut s = Solver::new();
    match m.read(Val::Unit, 0x102, 2, &mut s) {
        Ok(Val::Bits(b)) => assert_eq!((b.bits, b.length), (0x5566, 16)),
        _ => panic!("expected a slice"),
    }
}

#[test]
fn unwritten_or_narrow_reads_are_fresh() {
    let mut m = StableMemoryRegion::new();
    m.write(0x10, bits(0xab, 8));
    let mut s = Solver::new();
    assert!(matches!(m.read(Val::Unit, 0x10, 4, &mut s), Ok(Val::Symbolic(0))));
    assert!(matches!(s.defs[0], Def::DeclareConst(0, Ty::BitVec(32))));
    assert!(matches!(m.read(Val::Unit, 0x400, 1, &mut s), Ok(Val::Symbolic(1))));
    assert!(matches!(m.read(Val::Unit, 2, 1, &mut s), Ok(Val::Symbolic(2))));
    m.write(0x20, Val::Bool(true));
    assert!(m.read(Val::Unit, 0x20, 1, &mut s).is_err());
}
