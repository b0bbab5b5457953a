use isla_footprint::footprint::footprint_of_paths;
use isla_footprint::regset::RegLoc;
use isla_footprint::smt::{Accessor, Bits, Def, Event, Exp, Val};
use isla_footprint::taint::EventReferences;

const X0: u32 = 10;
const X1: u32 = 11;
const X2: u32 = 12;
const PC: u32 = 99;

fn loc(r: u32) -> RegLoc {
    RegLoc { reg: r, accessors: Vec::new() }
}

fn bits(v: u64, n: u32) -> Val {
    Val::Bits(Bits { bits: v, length: n })
}

#[test]
fn mov_immediate_footprint() {
    // MOV X1, #815
    let path = vec![Event::WriteReg(X1, Vec::new(), bits(815, 64))];
    let fp = footprint_of_paths(&vec![path], &Vec::new());
    assert_eq!(fp.register_reads.len(), 0);
    assert!(fp.register_writes.contains(&loc(X1)));
    assert_eq!(fp.register_writes_tainted.len(), 0);
    assert_eq!(fp.write_data_taints.regs.len(), 0);
    assert!(!fp.write_data_taints.mem);
    assert_eq!(fp.mem_addr_taints.regs.len(), 0);
    assert!(!fp.mem_addr_taints.mem);
    assert!(!fp.is_load && !fp.is_store && !fp.is_branch);
}

fn load_path() -> Vec<Event> {
    // LDR X1, [X0]: read X0, load through it, write the loaded value plus zero to X1
    vec![
        Event::ReadReg(X0, Vec::new(), Val::Symbolic(0)),
        Event::ReadMem { value: Val::Symbolic(1), read_kind: Val::Unit, address: Val::Symbolic(0), bytes: 8 },
        Event::Smt(Def::DefineConst(2, Exp::Bvadd(Box::new(Exp::Var(1)), Box::new(Exp::Bits64(0, 64))))),
        Event::WriteReg(X1, Vec::new(), Val::Symbolic(2)),
        Event::ReadReg(PC, Vec::new(), Val::Symbolic(3)),
    ]
}

#[test]
fn load_footprint_taints() {
    let fp = footprint_of_paths(&vec![load_path()], &vec![PC]);
    assert!(fp.is_load);
    assert!(!fp.is_store);
    assert!(fp.register_reads.contains(&loc(X0)));
    assert!(!fp.register_reads.contains(&loc(PC)));
    assert!(fp.mem_addr_taints.regs.contains(&loc(X0)));
    assert!(!fp.mem_addr_taints.mem);
    assert!(fp.register_writes.contains(&loc(X1)));
    assert!(fp.register_writes_tainted.contains(&loc(X1)));
}

#[test]
fn tainted_writes_are_writes() {
    let fp = footprint_of_paths(&vec![load_path()], &Vec::new());
    for r in &fp.register_writes_tainted.items {
        assert!(fp.register_writes.contains(r));
    }
}

#[test]
fn register_write_untainted_without_memory() {
    let path = vec![
        Event::ReadReg(X0, Vec::new(), Val::Symbolic(0)),
        Event::Smt(Def::DefineConst(1, Exp::Not(Box::new(Exp::Var(0))))),
        Event::WriteReg(X2, vec![Accessor::Field(3)], Val::Symbolic(1)),
    ];
    let fp = footprint_of_paths(&vec![path], &Vec::new());
    let x2_field = RegLoc { reg: X2, accessors: vec![Accessor::Field(3)] };
    assert!(fp.register_writes.contains(&x2_field));
    assert!(!fp.register_writes.contains(&loc(X2)));
    assert_eq!(fp.register_writes_tainted.len(), 0);
}

#[test]
fn store_footprint_taints() {
    let path = vec![
        Event::ReadReg(X0, Vec::new(), Val::Symbolic(0)),
        Event::ReadReg(X1, Vec::new(), Val::Symbolic(1)),
        Event::WriteMem { value: 2, write_kind: Val::Unit, address: Val::Symbolic(0), data: Val::Symbolic(1), bytes: 8 },
    ];
    let fp = footprint_of_paths(&vec![path], &Vec::new());
    assert!(fp.is_store);
    assert!(fp.mem_addr_taints.regs.contains(&loc(X0)));
    assert!(!fp.mem_addr_taints.regs.contains(&loc(X1)));
    assert!(fp.write_data_taints.regs.contains(&loc(X1)));
    assert!(!fp.write_data_taints.regs.contains(&loc(X0)));
}

#[test]
fn branch_collects_fork_taints() {
    let path = vec![
        Event::ReadReg(X1, Vec::new(), Val::Symbolic(0)),
        Event::Smt(Def::DefineConst(1, Exp::Eq(Box::new(Exp::Var(0)), Box::new(Exp::Bits64(0, 64))))),
        Event::Fork(1),
        Event::ReadReg(X2, Vec::new(), Val::Symbolic(2)),
        Event::Branch { address: Val::Symbolic(2) },
    ];
    let fp = footprint_of_paths(&vec![path], &Vec::new());
    assert!(fp.is_branch);
    assert!(fp.branch_addr_taints.regs.contains(&loc(X1)));
    assert!(fp.branch_addr_taints.regs.contains(&loc(X2)));
    assert_eq!(fp.branch_addr_taints.regs.len(), 2);
}

#[test]
fn footprint_joins_paths() {
    let reads_x0 = vec![Event::ReadReg(X0, Vec::new(), Val::Symbolic(0))];
    let branches = vec![
        Event::ReadReg(X1, Vec::new(), Val::Symbolic(0)),
        Event::Branch { address: bits(4, 64) },
    ];
    let fp = footprint_of_paths(&vec![reads_x0, branches], &Vec::new());
    assert!(fp.register_reads.contains(&loc(X0)));
    assert!(fp.register_reads.contains(&loc(X1)));
    assert_eq!(fp.register_reads.len(), 2);
    assert!(fp.is_branch);
    assert_eq!(fp.branch_addr_taints.regs.len(), 0);
}

#[test]
fn value_taints_follow_definitions_and_structs() {
    let evs = load_path();
    let refs = EventReferences::from_events(&evs);
    let t = refs.value_taints(&Val::Symbolic(2), &evs);
    assert!(t.mem);
    assert_eq!(t.regs.len(), 0);
    let s = Val::Struct(vec![(1, Val::Symbolic(0)), (2, Val::Vector(vec![Val::Symbolic(1)]))]);
    let t2 = refs.value_taints(&s, &evs);
    assert!(t2.mem);
    assert!(t2.regs.contains(&loc(X0)));
    let t3 = refs.value_taints(&bits(7, 8), &evs);
    assert!(!t3.mem);
    assert_eq!(t3.regs.len(), 0);
}

#[test]
fn taint_index_follows_chains_of_definitions() {
    let mut evs = vec![Event::ReadReg(X0, Vec::new(), Val::Symbolic(0))];
    for v in 1..200u32 {
        evs.push(Event::Smt(Def::DefineConst(
            v,
            Exp::Bvadd(Box::new(Exp::Var(v - 1)), Box::new(Exp::Var(v - 1))),
        )));
    }
    let refs = EventReferences::from_events(&evs);
    let t = refs.value_taints(&Val::Symbolic(199), &evs);
    assert!(t.regs.contains(&loc(X0)));
    assert_eq!(t.regs.len(), 1);
    assert!(!t.mem);
}
