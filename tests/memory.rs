use std::collections::HashMap;

use isla_footprint::bytes::reverse_endianness;
use isla_footprint::memory::{ExecError, Memory, NoCallbacks, Region, SmtKind, smt_address_constraint};
use isla_footprint::smt::{Bits, Def, Event, Exp, Solver, Ty, Val};

fn bits(v: u64, n: u32) -> Val {
    Val::Bits(Bits { bits: v, length: n })
}

fn concrete_memory() -> Memory<NoCallbacks> {
    let mut m: Memory<NoCallbacks> = Memory::new();
    m.add_concrete_region(0..4096, HashMap::new());
    m
}

#[test]
fn zero_bytes_read_as_zero() {
    let m = concrete_memory();
    for b in [1u32, 2, 4, 8] {
        let mut s = Solver::new();
        let r = m.read(Val::Unit, bits(0x100, 64), Val::I128(b as i128), &mut s);
        match r {
            Ok(Val::Bits(v)) => {
                assert_eq!(v.bits, 0);
                assert_eq!(v.length, 8 * b);
            }
            _ => panic!("expected concrete bits"),
        }
        assert_eq!(s.events.len(), 1);
        assert_eq!(s.next_var, 0);
    }
}

#[test]
fn concrete_read_is_little_endian() {
    let mut m = concrete_memory();
    m.write_byte(0, 0x1f);
    m.write_byte(1, 0x20);
    m.write_byte(2, 0x03);
    m.write_byte(3, 0xd5);
    assert_eq!(m.regions.len(), 1);
    let mut s = Solver::new();
    match m.read(Val::Unit, bits(0, 64), Val::I128(4), &mut s) {
        Ok(Val::Bits(v)) => {
            assert_eq!(v.bits, 0xd503201f);
            assert_eq!(v.length, 32);
        }
        _ => panic!("expected concrete bits"),
    }
    match &s.events[0] {
        Event::ReadMem { value: Val::Bits(v), address: Val::Bits(a), bytes, .. } => {
            assert_eq!(v.bits, 0xd503201f);
            assert_eq!(a.bits, 0);
            assert_eq!(a.length, 64);
            assert_eq!(*bytes, 4);
        }
        _ => panic!("expected a read event"),
    }
    match m.read(Val::Unit, bits(1, 64), Val::I128(2), &mut s) {
        Ok(Val::Bits(v)) => assert_eq!(v.bits, 0x0320),
        _ => panic!("expected concrete bits"),
    }
}

#[test]
fn concrete_read_of_more_than_eight_bytes_fails() {
    let m = concrete_memory();
    let mut s = Solver::new();
    assert!(matches!(m.read(Val::Unit, bits(0, 64), Val::I128(16), &mut s), Err(ExecError::BadRead)));
    assert_eq!(s.events.len(), 0);
}

#[test]
fn symbolic_length_is_rejected() {
    let m = concrete_memory();
    let mut s = Solver::new();
    assert!(matches!(m.read(Val::Unit, bits(0, 64), Val::Symbolic(3), &mut s), Err(ExecError::SymbolicLength)));
    assert_eq!(s.events.len(), 0);
    assert_eq!(s.defs.len(), 0);
}

#[test]
fn symbolic_region_read_is_fresh() {
    let mut m: Memory<NoCallbacks> = Memory::new();
    m.add_symbolic_region(0x1000..0x2000);
    let mut s = Solver::new();
    s.next_var = 7;
    match m.read(Val::Unit, bits(0x1800, 64), Val::I128(4), &mut s) {
        Ok(Val::Symbolic(v)) => assert_eq!(v, 7),
        _ => panic!("expected a symbolic value"),
    }
    assert_eq!(s.next_var, 8);
    assert!(matches!(s.defs[0], Def::DeclareConst(7, Ty::BitVec(32))));
    assert!(matches!(s.events[0], Event::ReadMem { value: Val::Symbolic(7), bytes: 4, .. }));
}

#[test]
fn uncovered_and_symbolic_addresses_read_symbolically() {
    let m = concrete_memory();
    let mut s = Solver::new();
    assert!(matches!(m.read(Val::Unit, bits(0x9000, 64), Val::I128(8), &mut s), Ok(Val::Symbolic(0))));
    assert!(matches!(m.read(Val::Unit, Val::Symbolic(40), Val::I128(8), &mut s), Ok(Val::Symbolic(1))));
    assert_eq!(s.events.len(), 2);
    assert!(matches!(s.defs[1], Def::DeclareConst(1, Ty::BitVec(64))));
}

#[test]
fn first_region_shadows_later_ones() {
    let mut m: Memory<NoCallbacks> = Memory::new();
    m.add_symbolic_code_region(0..0x100);
    m.add_concrete_region(0..0x1000, HashMap::new());
    let mut s = Solver::new();
    assert!(matches!(m.read(Val::Unit, bits(0x10, 64), Val::I128(4), &mut s), Ok(Val::Symbolic(0))));
    assert!(matches!(m.read(Val::Unit, bits(0x200, 64), Val::I128(4), &mut s), Ok(Val::Bits(_))));
}

#[test]
fn constrained_region_reads_whole_region_only() {
    let mut m: Memory<NoCallbacks> = Memory::new();
    m.add_region(Region::Constrained(0x40..0x44, vec![(0xd503201f, 32), (0x14000001, 32)]));
    let mut s = Solver::new();
    assert!(matches!(m.read(Val::Unit, bits(0x40, 64), Val::I128(4), &mut s), Ok(Val::Symbolic(0))));
    assert_eq!(s.events.len(), 1);
    assert_eq!(s.defs.len(), 2);
    match &s.defs[1] {
        Def::Assert(Exp::Or(a, rest)) => {
            assert!(matches!(**a, Exp::Eq(_, _)));
            assert!(matches!(**rest, Exp::Or(_, _)));
        }
        _ => panic!("expected the candidate constraint"),
    }
    assert!(matches!(m.read(Val::Unit, bits(0x42, 64), Val::I128(2), &mut s), Err(ExecError::BadRead)));
    assert_eq!(s.events.len(), 1);
    assert!(matches!(m.read(Val::Unit, bits(0x40, 64), Val::I128(2), &mut s), Err(ExecError::BadRead)));
}

#[test]
fn writes_record_events_and_check_size() {
    let mut m = concrete_memory();
    let mut s = Solver::new();
    assert!(matches!(m.write(Val::Unit, bits(0, 64), bits(5, 32), &mut s), Ok(Val::Symbolic(0))));
    assert!(matches!(s.defs[0], Def::DeclareConst(0, Ty::Bool)));
    assert!(matches!(s.events[0], Event::WriteMem { value: 0, bytes: 4, .. }));
    assert!(matches!(m.write(Val::Unit, bits(0, 64), bits(5, 12), &mut s), Err(ExecError::Type)));
    assert!(matches!(m.write(Val::Unit, bits(0, 64), Val::Bool(true), &mut s), Err(ExecError::Type)));
    s.add(Def::DeclareConst(9, Ty::BitVec(16)));
    assert!(matches!(m.write(Val::Unit, Val::Symbolic(3), Val::Symbolic(9), &mut s), Ok(Val::Symbolic(1))));
    assert!(matches!(s.events[1], Event::WriteMem { value: 1, bytes: 2, .. }));
    assert!(matches!(m.write(Val::Unit, bits(0, 64), Val::Symbolic(10), &mut s), Err(ExecError::Type)));
    assert_eq!(m.regions.len(), 1);
}

#[test]
fn write_byte_outside_concrete_regions_adds_one() {
    let mut m: Memory<NoCallbacks> = Memory::new();
    m.add_symbolic_region(0..0x100);
    m.write_byte(0x10, 0xab);
    assert_eq!(m.regions.len(), 2);
    match &m.regions[1] {
        Region::Concrete(r, contents) => {
            assert_eq!(r.start, 0x10);
            assert_eq!(r.end, 0x10);
            assert_eq!(contents.get(&0x10), Some(&0xab));
        }
        _ => panic!("expected a concrete region"),
    }
}

#[test]
fn address_constraint_covers_admitted_regions() {
    let mut m: Memory<NoCallbacks> = Memory::new();
    m.add_symbolic_region(0x1000..0x2000);
    m.add_symbolic_code_region(0x4000..0x5000);
    m.add_concrete_region(0..2, HashMap::new());
    let mut s = Solver::new();
    match m.smt_address_constraint(&Exp::Var(5), 4, SmtKind::WriteData, &mut s) {
        Exp::And(lo, hi) => {
            assert!(matches!(*lo, Exp::Bvule(_, _)));
            assert!(matches!(*hi, Exp::Bvult(_, _)));
        }
        _ => panic!("expected one range"),
    }
    assert!(matches!(m.smt_address_constraint(&Exp::Var(5), 4, SmtKind::ReadData, &mut s), Exp::Or(_, _)));
    assert!(matches!(m.smt_address_constraint(&Exp::Var(5), 4, SmtKind::ReadInstr, &mut s), Exp::And(_, _)));
    assert_eq!(s.defs.len(), 0);
    let none: Vec<Region> = Vec::new();
    assert!(matches!(smt_address_constraint(&none, &Exp::Var(5), 4, SmtKind::ReadData, &mut s), Exp::Bool(false)));
    let addr = Exp::Bvadd(Box::new(Exp::Var(1)), Box::new(Exp::Bits64(8, 64)));
    let _ = m.smt_address_constraint(&addr, 4, SmtKind::ReadData, &mut s);
    assert_eq!(s.next_var, 1);
    assert!(matches!(s.defs[0], Def::DefineConst(0, Exp::Bvadd(_, _))));
}

#[test]
fn reverse_endianness_reverses() {
    for n in 0..10u8 {
        let mut v: Vec<u8> = (0..n).collect();
        let mut expected = v.clone();
        expected.reverse();
        reverse_endianness(&mut v);
        assert_eq!(v, expected);
    }
}
