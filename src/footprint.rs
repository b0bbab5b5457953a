//! Per-opcode footprints, folded from the events of every execution path of
//! the opcode.
use vstd::prelude::*;
use crate::smt::{Event, Name, Sym};
use crate::regset::{RegLoc, RegLocView, RegSet, Taints};
use crate::taint::{EventReferences, TaintView, join, no_taint, syms_taint, value_taint};

verus! {

/// The registers and memory reads that can feed the addresses, the data and
/// the branch targets of one instruction.
#[derive(Debug)]
pub struct Footprint {
    /// What can feed into the data of a memory write.
    pub write_data_taints: Taints,
    /// What can feed into the address of a memory read or write.
    pub mem_addr_taints: Taints,
    /// What can feed into a branch target, or into a fork taken before it.
    pub branch_addr_taints: Taints,
    /// The register-locations read.
    pub register_reads: RegSet,
    /// The register-locations written.
    pub register_writes: RegSet,
    /// The register-locations written with a value that a memory read feeds.
    pub register_writes_tainted: RegSet,
    /// Some path writes memory.
    pub is_store: bool,
    /// Some path reads memory.
    pub is_load: bool,
    /// Some path branches.
    pub is_branch: bool,
}

/// The mathematical form of a footprint.
pub struct FootprintView {
    pub write_data_taints: TaintView,
    pub mem_addr_taints: TaintView,
    pub branch_addr_taints: TaintView,
    pub register_reads: Set<RegLocView>,
    pub register_writes: Set<RegLocView>,
    pub register_writes_tainted: Set<RegLocView>,
    pub is_store: bool,
    pub is_load: bool,
    pub is_branch: bool,
}

impl View for Footprint {
    type V = FootprintView;

    open spec fn view(&self) -> FootprintView {
        FootprintView {
            write_data_taints: self.write_data_taints@,
            mem_addr_taints: self.mem_addr_taints@,
            branch_addr_taints: self.branch_addr_taints@,
            register_reads: self.register_reads@,
            register_writes: self.register_writes@,
            register_writes_tainted: self.register_writes_tainted@,
            is_store: self.is_store,
            is_load: self.is_load,
            is_branch: self.is_branch,
        }
    }
}

/// The footprint of an instruction that does nothing.
pub open spec fn empty_footprint() -> FootprintView {
    FootprintView {
        write_data_taints: no_taint(),
        mem_addr_taints: no_taint(),
        branch_addr_taints: no_taint(),
        register_reads: Set::empty(),
        register_writes: Set::empty(),
        register_writes_tainted: Set::empty(),
        is_store: false,
        is_load: false,
        is_branch: false,
    }
}

/// Both footprints together: every set joined, every flag or-ed.
pub open spec fn fp_join(a: FootprintView, b: FootprintView) -> FootprintView {
    FootprintView {
        write_data_taints: join(a.write_data_taints, b.write_data_taints),
        mem_addr_taints: join(a.mem_addr_taints, b.mem_addr_taints),
        branch_addr_taints: join(a.branch_addr_taints, b.branch_addr_taints),
        register_reads: a.register_reads.union(b.register_reads),
        register_writes: a.register_writes.union(b.register_writes),
        register_writes_tainted: a.register_writes_tainted.union(b.register_writes_tainted),
        is_store: a.is_store || b.is_store,
        is_load: a.is_load || b.is_load,
        is_branch: a.is_branch || b.is_branch,
    }
}

/// The variables of the forks among `evs`, in order.
pub open spec fn fork_syms(evs: Seq<Event>) -> Seq<Sym>
    decreases evs.len(),
{
    if evs.len() == 0 {
        seq![]
    } else {
        let r = fork_syms(evs.subrange(0, evs.len() - 1));
        match evs[evs.len() - 1] {
            Event::Fork(v) => r.push(v),
            _ => r,
        }
    }
}

/// What event `i` of `path` adds to the footprint; taints are taken over the
/// whole path, and registers in `ignored` are left out.
pub open spec fn event_footprint(path: Seq<Event>, i: int, ignored: Seq<Name>) -> FootprintView {
    let e = empty_footprint();
    match path[i] {
        Event::ReadReg(r, acc, _) => if ignored.contains(r) {
            e
        } else {
            FootprintView { register_reads: set![(r, acc@)], ..e }
        },
        Event::WriteReg(r, acc, data) => if ignored.contains(r) {
            e
        } else {
            FootprintView {
                register_writes: set![(r, acc@)],
                register_writes_tainted: if value_taint(path, data).1 {
                    set![(r, acc@)]
                } else {
                    Set::empty()
                },
                ..e
            }
        },
        Event::ReadMem { address, .. } => FootprintView {
            is_load: true,
            mem_addr_taints: value_taint(path, address),
            ..e
        },
        Event::WriteMem { address, data, .. } => FootprintView {
            is_store: true,
            mem_addr_taints: value_taint(path, address),
            write_data_taints: value_taint(path, data),
            ..e
        },
        Event::Branch { address } => FootprintView {
            is_branch: true,
            branch_addr_taints: join(
                value_taint(path, address),
                syms_taint(path, fork_syms(path.subrange(0, i))),
            ),
            ..e
        },
        _ => e,
    }
}

/// The footprint of the first `n` events of `path`.
pub open spec fn path_footprint(path: Seq<Event>, n: int, ignored: Seq<Name>) -> FootprintView
    decreases n,
{
    if n <= 0 {
        empty_footprint()
    } else {
        fp_join(path_footprint(path, n - 1, ignored), event_footprint(path, n - 1, ignored))
    }
}

/// The footprint of a set of paths: the join of the footprints of each.
pub open spec fn paths_footprint(paths: Seq<Vec<Event>>, ignored: Seq<Name>) -> FootprintView
    decreases paths.len(),
{
    if paths.len() == 0 {
        empty_footprint()
    } else {
        let last = paths[paths.len() - 1]@;
        fp_join(
            paths_footprint(paths.subrange(0, paths.len() - 1), ignored),
            path_footprint(last, last.len() as int, ignored),
        )
    }
}

impl Footprint {
    /// Every set of the footprint is kept without repetition.
    pub open spec fn wf(&self) -> bool {
        &&& self.write_data_taints.regs.wf()
        &&& self.mem_addr_taints.regs.wf()
        &&& self.branch_addr_taints.regs.wf()
        &&& self.register_reads.wf()
        &&& self.register_writes.wf()
        &&& self.register_writes_tainted.wf()
    }

    /// The footprint with nothing in it.
    pub fn new() -> (fp: Footprint)
        ensures
            fp.wf(),
            fp@ == empty_footprint(),
    {
        Footprint {
            write_data_taints: Taints::new(),
            mem_addr_taints: Taints::new(),
            branch_addr_taints: Taints::new(),
            register_reads: RegSet::new(),
            register_writes: RegSet::new(),
            register_writes_tainted: RegSet::new(),
            is_store: false,
            is_load: false,
            is_branch: false,
        }
    }
}

proof fn lemma_join_unit(a: TaintView)
    ensures
        join(a, no_taint()) == a,
        join(no_taint(), a) == a,
{
    assert(join(a, no_taint()).0 =~= a.0);
    assert(join(no_taint(), a).0 =~= a.0);
}

proof fn lemma_fp_join_unit(a: FootprintView)
    ensures
        fp_join(a, empty_footprint()) == a,
{
    lemma_join_unit(a.write_data_taints);
    lemma_join_unit(a.mem_addr_taints);
    lemma_join_unit(a.branch_addr_taints);
    assert(a.register_reads.union(Set::empty()) =~= a.register_reads);
    assert(a.register_writes.union(Set::empty()) =~= a.register_writes);
    assert(a.register_writes_tainted.union(Set::empty()) =~= a.register_writes_tainted);
}

proof fn lemma_fp_join_assoc(a: FootprintView, b: FootprintView, c: FootprintView)
    ensures
        fp_join(fp_join(a, b), c) == fp_join(a, fp_join(b, c)),
{
    assert(fp_join(fp_join(a, b), c).write_data_taints.0 =~= fp_join(a, fp_join(b, c)).write_data_taints.0);
    assert(fp_join(fp_join(a, b), c).mem_addr_taints.0 =~= fp_join(a, fp_join(b, c)).mem_addr_taints.0);
    assert(fp_join(fp_join(a, b), c).branch_addr_taints.0 =~= fp_join(a, fp_join(b, c)).branch_addr_taints.0);
    assert(fp_join(fp_join(a, b), c).register_reads =~= fp_join(a, fp_join(b, c)).register_reads);
    assert(fp_join(fp_join(a, b), c).register_writes =~= fp_join(a, fp_join(b, c)).register_writes);
    assert(fp_join(fp_join(a, b), c).register_writes_tainted =~= fp_join(a, fp_join(b, c)).register_writes_tainted);
}

/// Whether `r` is in `names`.
fn name_listed(names: &Vec<Name>, r: Name) -> (b: bool)
    ensures
        b == names@.contains(r),
{
    let mut i: usize = 0;
    while i < names.len()
        invariant
            i <= names.len(),
            forall|j: int| 0 <= j < i ==> names@[j] != r,
        decreases names.len() - i,
    {
        if names[i] == r {
            return true;
        }
        i += 1;
    }
    false
}

impl Footprint {
    /// Adds what event `i` of `path` contributes; `forks` holds the variables
    /// of the forks before it.
    pub fn add_event(
        &mut self,
        path: &Vec<Event>,
        refs: &EventReferences,
        i: usize,
        forks: &Vec<Sym>,
        ignored: &Vec<Name>,
    )
        requires
            old(self).wf(),
            refs.indexes(path@),
            i < path@.len(),
            forks@ == fork_syms(path@.subrange(0, i as int)),
        ensures
            final(self).wf(),
            final(self)@ == fp_join(old(self)@, event_footprint(path@, i as int, ignored@)),
    {
        let ghost pre = self@;
        let ghost e = event_footprint(path@, i as int, ignored@);
        match &path[i] {
            Event::ReadReg(r, acc, _) => {
                if !name_listed(ignored, *r) {
                    self.register_reads.insert(RegLoc::new(*r, acc));
                    assert(self@.register_reads =~= fp_join(pre, e).register_reads);
                }
                proof { lemma_fp_join_unit(pre); }
                assert(self@.register_reads =~= fp_join(pre, e).register_reads);
                proof {
                    lemma_join_unit(pre.write_data_taints);
                    lemma_join_unit(pre.mem_addr_taints);
                    lemma_join_unit(pre.branch_addr_taints);
                    assert(self@.register_writes =~= fp_join(pre, e).register_writes);
                    assert(self@.register_writes_tainted =~= fp_join(pre, e).register_writes_tainted);
                }
            },
            Event::WriteReg(r, acc, data) => {
                if !name_listed(ignored, *r) {
                    self.register_writes.insert(RegLoc::new(*r, acc));
                    let t = refs.value_taints(data, path);
                    if t.mem {
                        self.register_writes_tainted.insert(RegLoc::new(*r, acc));
                    }
                }
                proof {
                    lemma_fp_join_unit(pre);
                    lemma_join_unit(pre.write_data_taints);
                    lemma_join_unit(pre.mem_addr_taints);
                    lemma_join_unit(pre.branch_addr_taints);
                    assert(self@.register_reads =~= fp_join(pre, e).register_reads);
                    assert(self@.register_writes =~= fp_join(pre, e).register_writes);
                    assert(self@.register_writes_tainted =~= fp_join(pre, e).register_writes_tainted);
                }
            },
            Event::ReadMem { address, .. } => {
                self.is_load = true;
                refs.collect_value_taints(address, path, &mut self.mem_addr_taints);
                proof {
                    lemma_join_unit(pre.write_data_taints);
                    lemma_join_unit(pre.branch_addr_taints);
                    assert(self@.register_reads =~= fp_join(pre, e).register_reads);
                    assert(self@.register_writes =~= fp_join(pre, e).register_writes);
                    assert(self@.register_writes_tainted =~= fp_join(pre, e).register_writes_tainted);
                }
            },
            Event::WriteMem { address, data, .. } => {
                self.is_store = true;
                refs.collect_value_taints(address, path, &mut self.mem_addr_taints);
                refs.collect_value_taints(data, path, &mut self.write_data_taints);
                proof {
                    lemma_join_unit(pre.branch_addr_taints);
                    assert(self@.register_reads =~= fp_join(pre, e).register_reads);
                    assert(self@.register_writes =~= fp_join(pre, e).register_writes);
                    assert(self@.register_writes_tainted =~= fp_join(pre, e).register_writes_tainted);
                }
            },
            Event::Branch { address } => {
                self.is_branch = true;
                let ghost b0 = self.branch_addr_taints@;
                refs.collect_value_taints(address, path, &mut self.branch_addr_taints);
                let mut j: usize = 0;
                let ghost b1 = self.branch_addr_taints@;
                assert(forks@.subrange(0, 0) =~= Seq::<Sym>::empty());
                proof { lemma_join_unit(b1); }
                while j < forks.len()
                    invariant
                        j <= forks@.len(),
                        refs.indexes(path@),
                        self.wf(),
                        self.register_reads@ == pre.register_reads,
                        self.register_writes@ == pre.register_writes,
                        self.register_writes_tainted@ == pre.register_writes_tainted,
                        self.write_data_taints@ == pre.write_data_taints,
                        self.mem_addr_taints@ == pre.mem_addr_taints,
                        self.is_load == pre.is_load,
                        self.is_store == pre.is_store,
                        self.is_branch,
                        self.branch_addr_taints@ == join(b1, syms_taint(path@, forks@.subrange(0, j as int))),
                    decreases forks@.len() - j,
                {
                    refs.collect_taints(forks[j], path, &mut self.branch_addr_taints);
                    proof {
                        let s = forks@.subrange(0, j + 1);
                        assert(s.subrange(0, s.len() - 1) =~= forks@.subrange(0, j as int));
                        let x = b1;
                        let y = syms_taint(path@, forks@.subrange(0, j as int));
                        let z = crate::taint::sym_taint(path@, forks@[j as int]);
                        assert(join(join(x, y), z).0 =~= join(x, join(y, z)).0);
                    }
                    j += 1;
                }
                assert(forks@.subrange(0, forks@.len() as int) =~= forks@);
                proof {
                    let x = b0;
                    let y = value_taint(path@, *address);
                    let z = syms_taint(path@, forks@);
                    assert(join(join(x, y), z).0 =~= join(x, join(y, z)).0);
                    lemma_join_unit(pre.write_data_taints);
                    lemma_join_unit(pre.mem_addr_taints);
                    assert(self@.register_reads =~= fp_join(pre, e).register_reads);
                    assert(self@.register_writes =~= fp_join(pre, e).register_writes);
                    assert(self@.register_writes_tainted =~= fp_join(pre, e).register_writes_tainted);
                }
            },
            _ => {
                proof { lemma_fp_join_unit(pre); }
            },
        }
    }

    /// Adds every event of `path`.
    pub fn add_path(&mut self, path: &Vec<Event>, ignored: &Vec<Name>)
        requires
            old(self).wf(),
        ensures
            final(self).wf(),
            final(self)@ == fp_join(old(self)@, path_footprint(path@, path@.len() as int, ignored@)),
    {
        let refs = EventReferences::from_events(path);
        let mut forks: Vec<Sym> = Vec::new();
        let mut i: usize = 0;
        assert(path@.subrange(0, 0) =~= Seq::<Event>::empty());
        proof { lemma_fp_join_unit(old(self)@); }
        while i < path.len()
            invariant
                i <= path@.len(),
                refs.indexes(path@),
                self.wf(),
                forks@ == fork_syms(path@.subrange(0, i as int)),
                self@ == fp_join(old(self)@, path_footprint(path@, i as int, ignored@)),
            decreases path@.len() - i,
        {
            self.add_event(path, &refs, i, &forks, ignored);
            proof {
                lemma_fp_join_assoc(
                    old(self)@,
                    path_footprint(path@, i as int, ignored@),
                    event_footprint(path@, i as int, ignored@),
                );
                let s = path@.subrange(0, i + 1);
                assert(s.subrange(0, s.len() - 1) =~= path@.subrange(0, i as int));
            }
            match &path[i] {
                Event::Fork(v) => {
                    forks.push(*v);
                },
                _ => {},
            }
            i += 1;
        }
    }
}

/// The footprint of an opcode from the paths that its execution took.
pub fn footprint_of_paths(paths: &Vec<Vec<Event>>, ignored: &Vec<Name>) -> (fp: Footprint)
    ensures
        fp.wf(),
        fp@ == paths_footprint(paths@, ignored@),
{
    let mut fp = Footprint::new();
    let mut k: usize = 0;
    assert(paths@.subrange(0, 0) =~= Seq::<Vec<Event>>::empty());
    while k < paths.len()
        invariant
            k <= paths@.len(),
            fp.wf(),
            fp@ == paths_footprint(paths@.subrange(0, k as int), ignored@),
        decreases paths@.len() - k,
    {
        fp.add_path(&paths[k], ignored);
        let ghost s = paths@.subrange(0, k + 1);
        assert(s.subrange(0, s.len() - 1) =~= paths@.subrange(0, k as int));
        k += 1;
    }
    assert(paths@.subrange(0, paths@.len() as int) =~= paths@);
    fp
}

proof fn lemma_path_tainted_subset(path: Seq<Event>, n: int, ignored: Seq<Name>)
    ensures
        path_footprint(path, n, ignored).register_writes_tainted.subset_of(
            path_footprint(path, n, ignored).register_writes,
        ),
    decreases n,
{
    if n > 0 {
        lemma_path_tainted_subset(path, n - 1, ignored);
    }
}

/// In every footprint folded from paths, the register-locations written with
/// a memory-tainted value are among the register-locations written.
pub proof fn lemma_tainted_writes_are_writes(paths: Seq<Vec<Event>>, ignored: Seq<Name>)
    ensures
        paths_footprint(paths, ignored).register_writes_tainted.subset_of(
            paths_footprint(paths, ignored).register_writes,
        ),
    decreases paths.len(),
{
    if paths.len() > 0 {
        let last = paths[paths.len() - 1]@;
        lemma_tainted_writes_are_writes(paths.subrange(0, paths.len() - 1), ignored);
        lemma_path_tainted_subset(last, last.len() as int, ignored);
    }
}

proof fn lemma_path_keeps_tainted_write(path: Seq<Event>, n: int, i: int, ignored: Seq<Name>)
    requires
        0 <= i < n,
    ensures
        event_footprint(path, i, ignored).register_writes_tainted.subset_of(
            path_footprint(path, n, ignored).register_writes_tainted,
        ),
    decreases n,
{
    if i < n - 1 {
        lemma_path_keeps_tainted_write(path, n - 1, i, ignored);
    }
}

proof fn lemma_paths_keep_path(paths: Seq<Vec<Event>>, k: int, ignored: Seq<Name>)
    requires
        0 <= k < paths.len(),
    ensures
        path_footprint(paths[k]@, paths[k]@.len() as int, ignored).register_writes_tainted.subset_of(
            paths_footprint(paths, ignored).register_writes_tainted,
        ),
    decreases paths.len(),
{
    if k < paths.len() - 1 {
        let init = paths.subrange(0, paths.len() - 1);
        assert(init[k] == paths[k]);
        lemma_paths_keep_path(init, k, ignored);
    }
}

/// A register write on any path whose value a memory read feeds puts its
/// register-location in the footprint's tainted writes, unless the register
/// is ignored.
pub proof fn lemma_tainted_write_recorded(paths: Seq<Vec<Event>>, ignored: Seq<Name>, k: int, i: int)
    requires
        0 <= k < paths.len(),
        0 <= i < paths[k]@.len(),
        paths[k]@[i] is WriteReg,
        !ignored.contains(paths[k]@[i]->WriteReg_0),
        value_taint(paths[k]@, paths[k]@[i]->WriteReg_2).1,
    ensures
        paths_footprint(paths, ignored).register_writes_tainted.contains(
            (paths[k]@[i]->WriteReg_0, paths[k]@[i]->WriteReg_1@),
        ),
{
    let path = paths[k]@;
    assert(event_footprint(path, i, ignored).register_writes_tainted.contains(
        (path[i]->WriteReg_0, path[i]->WriteReg_1@),
    ));
    lemma_path_keeps_tainted_write(path, path.len() as int, i, ignored);
    lemma_paths_keep_path(paths, k, ignored);
}

} // verus!
