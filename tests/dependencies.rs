use std::collections::HashMap;

use isla_footprint::deps::{addr_dep, ctrl_dep, data_dep, touched_by};
use isla_footprint::footprint::Footprint;
use isla_footprint::regset::RegLoc;

const X0: u32 = 10;
const X1: u32 = 11;
const X2: u32 = 12;
const X3: u32 = 13;
const X5: u32 = 15;

fn loc(r: u32) -> RegLoc {
    RegLoc { reg: r, accessors: Vec::new() }
}

fn fp() -> Footprint {
    Footprint::new()
}

fn ldr(dst: u32, base: u32) -> Footprint {
    let mut f = fp();
    f.register_reads.insert(loc(base));
    f.register_writes.insert(loc(dst));
    f.register_writes_tainted.insert(loc(dst));
    f.mem_addr_taints.regs.insert(loc(base));
    f.is_load = true;
    f
}

fn add(dst: u32, src: u32) -> Footprint {
    let mut f = fp();
    f.register_reads.insert(loc(src));
    f.register_writes.insert(loc(dst));
    f
}

fn str_(data: u32, base: u32) -> Footprint {
    let mut f = fp();
    f.register_reads.insert(loc(data));
    f.register_reads.insert(loc(base));
    f.mem_addr_taints.regs.insert(loc(base));
    f.write_data_taints.regs.insert(loc(data));
    f.is_store = true;
    f
}

fn cbz(reg: u32) -> Footprint {
    let mut f = fp();
    f.register_reads.insert(loc(reg));
    f.branch_addr_taints.regs.insert(loc(reg));
    f.is_branch = true;
    f
}

#[test]
fn load_then_use_address_and_data_dependency() {
    let mut fps = HashMap::new();
    fps.insert(1u64, ldr(X1, X0));
    fps.insert(2u64, add(X2, X1));
    fps.insert(3u64, str_(X2, X1));
    let instrs = vec![1u64, 2, 3];
    assert!(addr_dep(0, 2, &instrs, &fps));
    assert!(data_dep(0, 2, &instrs, &fps));
    assert!(!addr_dep(0, 1, &instrs, &fps));
}

#[test]
fn data_dependency_without_address_dependency() {
    let mut fps = HashMap::new();
    fps.insert(1u64, ldr(X1, X0));
    fps.insert(4u64, str_(X1, X5));
    let instrs = vec![1u64, 4];
    assert!(data_dep(0, 1, &instrs, &fps));
    assert!(!addr_dep(0, 1, &instrs, &fps));
}

#[test]
fn control_dependency_through_branch() {
    let mut fps = HashMap::new();
    fps.insert(1u64, ldr(X1, X0));
    fps.insert(5u64, cbz(X1));
    fps.insert(6u64, str_(X2, X3));
    fps.insert(2u64, add(X2, X1));
    let with_branch = vec![1u64, 5, 6];
    assert!(ctrl_dep(0, 2, &with_branch, &fps));
    let without_branch = vec![1u64, 2, 6];
    assert!(!ctrl_dep(0, 2, &without_branch, &fps));
}

#[test]
fn control_dependency_ignores_final_branch() {
    let mut fps = HashMap::new();
    fps.insert(1u64, ldr(X1, X0));
    fps.insert(5u64, cbz(X1));
    let instrs = vec![1u64, 5];
    assert!(!ctrl_dep(0, 1, &instrs, &fps));
}

#[test]
fn control_dependency_needs_memory_access_first() {
    let mut fps = HashMap::new();
    fps.insert(2u64, add(X1, X0));
    fps.insert(5u64, cbz(X1));
    fps.insert(6u64, str_(X2, X3));
    let instrs = vec![2u64, 5, 6];
    assert!(!ctrl_dep(0, 2, &instrs, &fps));
}

#[test]
fn dependencies_are_false_backwards() {
    let mut fps = HashMap::new();
    fps.insert(1u64, ldr(X1, X0));
    fps.insert(3u64, str_(X1, X1));
    let instrs = vec![1u64, 3];
    assert!(addr_dep(0, 1, &instrs, &fps));
    assert!(!addr_dep(1, 0, &instrs, &fps));
    assert!(!addr_dep(1, 1, &instrs, &fps));
    assert!(!data_dep(1, 0, &instrs, &fps));
    assert!(!ctrl_dep(1, 0, &instrs, &fps));
}

#[test]
fn touched_set_grows_along_the_program() {
    let mut fps = HashMap::new();
    fps.insert(1u64, ldr(X1, X0));
    fps.insert(2u64, add(X2, X1));
    fps.insert(7u64, add(X3, X2));
    let instrs = vec![1u64, 2, 7, 7];
    assert_eq!(touched_by(0, 1, &instrs, &fps).len(), 1);
    assert_eq!(touched_by(0, 2, &instrs, &fps).len(), 2);
    assert_eq!(touched_by(0, 3, &instrs, &fps).len(), 3);
    assert_eq!(touched_by(0, 4, &instrs, &fps).len(), 3);
    let t = touched_by(0, 4, &instrs, &fps);
    assert!(t.contains(&loc(X1)));
    assert!(t.contains(&loc(X2)));
    assert!(t.contains(&loc(X3)));
}
