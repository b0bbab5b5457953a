//! Address, data and control dependencies between the instructions of a
//! straight-line program, read off their footprints.
use vstd::prelude::*;
use std::collections::HashMap;
use crate::footprint::{Footprint, FootprintView};
use crate::regset::{RegLocView, RegSet};

verus! {

broadcast use vstd::std_specs::hash::group_hash_axioms;

/// The footprint of the `i`th instruction.
pub open spec fn fp_at(instrs: Seq<u64>, fps: Map<u64, Footprint>, i: int) -> FootprintView {
    fps[instrs[i]]@
}

/// Every instruction from `lo` up to `hi` exists and has a footprint.
pub open spec fn covered(instrs: Seq<u64>, fps: Map<u64, Footprint>, lo: int, hi: int) -> bool {
    &&& 0 <= lo
    &&& hi < instrs.len()
    &&& forall|i: int| lo <= i <= hi ==> fps.contains_key(#[trigger] instrs[i])
}

/// One step of propagation: an instruction that reads a touched
/// register-location touches everything it writes.
pub open spec fn propagate(t: Set<RegLocView>, f: FootprintView) -> Set<RegLocView> {
    if t.intersect(f.register_reads).is_empty() {
        t
    } else {
        t.union(f.register_writes)
    }
}

/// The register-locations that the memory-tainted writes of instruction
/// `from` reach before instruction `k`, propagating in program order.
pub open spec fn touched(instrs: Seq<u64>, fps: Map<u64, Footprint>, from: int, k: int) -> Set<
    RegLocView,
>
    decreases k - from,
{
    if k <= from + 1 {
        fp_at(instrs, fps, from).register_writes_tainted
    } else {
        propagate(touched(instrs, fps, from, k - 1), fp_at(instrs, fps, k - 1))
    }
}

/// An address dependency from `from` to `to`.
pub open spec fn spec_addr_dep(instrs: Seq<u64>, fps: Map<u64, Footprint>, from: int, to: int) -> bool {
    from < to && !touched(instrs, fps, from, to).intersect(
        fp_at(instrs, fps, to).mem_addr_taints.0,
    ).is_empty()
}

/// A data dependency from `from` to `to`.
pub open spec fn spec_data_dep(instrs: Seq<u64>, fps: Map<u64, Footprint>, from: int, to: int) -> bool {
    from < to && !touched(instrs, fps, from, to).intersect(
        fp_at(instrs, fps, to).write_data_taints.0,
    ).is_empty()
}

/// A control dependency from `from` to `to`: `from` accesses memory, and a
/// branch strictly between the two depends on what `from` touched.
pub open spec fn spec_ctrl_dep(instrs: Seq<u64>, fps: Map<u64, Footprint>, from: int, to: int) -> bool {
    &&& fp_at(instrs, fps, from).is_load || fp_at(instrs, fps, from).is_store
    &&& from < to
    &&& exists|i: int|
        from < i < to && #[trigger] fp_at(instrs, fps, i).is_branch && !touched(
            instrs,
            fps,
            from,
            i,
        ).intersect(fp_at(instrs, fps, i).branch_addr_taints.0).is_empty()
}

fn footprint_of<'a>(footprints: &'a HashMap<u64, Footprint>, op: u64) -> (f: &'a Footprint)
    requires
        footprints@.contains_key(op),
    ensures
        *f == footprints@[op],
{
    footprints.get(&op).unwrap()
}

/// The set of register-locations that instruction `from` could
/// (syntactically) touch before reaching instruction `to`.
pub fn touched_by(from: usize, to: usize, instrs: &[u64], footprints: &HashMap<u64, Footprint>) -> (r: RegSet)
    requires
        to <= instrs@.len(),
        covered(instrs@, footprints@, from as int, if to > from + 1 { to - 1 } else { from as int }),
    ensures
        r.wf(),
        r@ == touched(instrs@, footprints@, from as int, to as int),
{
    let mut touched_set = footprint_of(footprints, instrs[from]).register_writes_tainted.copy();
    let mut i: usize = from + 1;
    while i < to
        invariant
            from < i,
            to <= instrs@.len(),
            i <= to || i == from + 1,
            covered(instrs@, footprints@, from as int, if to > from + 1 { to - 1 } else { from as int }),
            touched_set.wf(),
            touched_set@ == touched(instrs@, footprints@, from as int, i as int),
        decreases to - i,
    {
        let f = footprint_of(footprints, instrs[i]);
        if touched_set.intersects(&f.register_reads) {
            touched_set.extend(&f.register_writes);
        }
        i += 1;
    }
    touched_set
}

/// Whether there is a read-read or read-write address dependency from
/// `instrs[from]` to `instrs[to]`.
pub fn addr_dep(from: usize, to: usize, instrs: &[u64], footprints: &HashMap<u64, Footprint>) -> (b: bool)
    requires
        from < to ==> covered(instrs@, footprints@, from as int, to as int),
    ensures
        b == spec_addr_dep(instrs@, footprints@, from as int, to as int),
{
    if from >= to {
        return false;
    }
    let touched_set = touched_by(from, to, instrs, footprints);
    touched_set.intersects(&footprint_of(footprints, instrs[to]).mem_addr_taints.regs)
}

/// Whether there is a read-write data dependency from `instrs[from]` to
/// `instrs[to]`.
pub fn data_dep(from: usize, to: usize, instrs: &[u64], footprints: &HashMap<u64, Footprint>) -> (b: bool)
    requires
        from < to ==> covered(instrs@, footprints@, from as int, to as int),
    ensures
        b == spec_data_dep(instrs@, footprints@, from as int, to as int),
{
    if from >= to {
        return false;
    }
    let touched_set = touched_by(from, to, instrs, footprints);
    touched_set.intersects(&footprint_of(footprints, instrs[to]).write_data_taints.regs)
}

/// Whether there is a read-read or read-write control dependency from
/// `instrs[from]` to `instrs[to]`.
pub fn ctrl_dep(from: usize, to: usize, instrs: &[u64], footprints: &HashMap<u64, Footprint>) -> (b: bool)
    requires
        covered(instrs@, footprints@, from as int, from as int),
        from < to ==> covered(instrs@, footprints@, from as int, to as int),
    ensures
        b == spec_ctrl_dep(instrs@, footprints@, from as int, to as int),
{
    let from_footprint = footprint_of(footprints, instrs[from]);
    if !(from_footprint.is_load || from_footprint.is_store) || from >= to {
        return false;
    }
    let mut touched_set = from_footprint.register_writes_tainted.copy();
    let mut i: usize = from + 1;
    while i < to
        invariant
            from < i <= to,
            covered(instrs@, footprints@, from as int, to as int),
            fp_at(instrs@, footprints@, from as int).is_load || fp_at(instrs@, footprints@, from as int).is_store,
            touched_set.wf(),
            touched_set@ == touched(instrs@, footprints@, from as int, i as int),
            forall|j: int|
                from < j < i ==> !(#[trigger] fp_at(instrs@, footprints@, j).is_branch && !touched(
                    instrs@,
                    footprints@,
                    from as int,
                    j,
                ).intersect(fp_at(instrs@, footprints@, j).branch_addr_taints.0).is_empty()),
        decreases to - i,
    {
        let f = footprint_of(footprints, instrs[i]);
        if f.is_branch {
            if touched_set.intersects(&f.branch_addr_taints.regs) {
                assert(fp_at(instrs@, footprints@, i as int).is_branch);
                return true;
            }
        }
        if touched_set.intersects(&f.register_reads) {
            touched_set.extend(&f.register_writes);
        }
        i += 1;
    }
    false
}

/// An address dependency only ever goes forward in program order.
pub proof fn lemma_addr_dep_forward(instrs: Seq<u64>, fps: Map<u64, Footprint>, from: int, to: int)
    requires
        spec_addr_dep(instrs, fps, from, to),
    ensures
        from < to,
{
}

/// Propagation only adds register-locations: the set touched by `from`
/// before `to` holds the set touched before any earlier `to2`, and so the
/// memory-tainted writes of `from` itself.
pub proof fn lemma_touched_grows(
    instrs: Seq<u64>,
    fps: Map<u64, Footprint>,
    from: int,
    from2: int,
    to2: int,
    to: int,
)
    requires
        from <= from2 <= to2 <= to,
    ensures
        touched(instrs, fps, from, to2).subset_of(touched(instrs, fps, from, to)),
        fp_at(instrs, fps, from).register_writes_tainted.subset_of(touched(instrs, fps, from, to)),
    decreases to - to2,
{
    if to2 < to {
        lemma_touched_grows(instrs, fps, from, from2, to2, to - 1);
    }
    lemma_touched_holds_tainted(instrs, fps, from, to);
}

proof fn lemma_touched_holds_tainted(instrs: Seq<u64>, fps: Map<u64, Footprint>, from: int, k: int)
    ensures
        fp_at(instrs, fps, from).register_writes_tainted.subset_of(touched(instrs, fps, from, k)),
    decreases k - from,
{
    if k > from + 1 {
        lemma_touched_holds_tainted(instrs, fps, from, k - 1);
    }
}

} // verus!
