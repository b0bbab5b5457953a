//! Provenance of symbolic values.
//!
//! The taint of a variable gathers, over the events of a path: for each
//! register read whose value mentions the variable, that register-location;
//! for each memory read whose value mentions it, the memory flag; and for
//! each definition of the variable, the taints of the variables of its
//! defining expression as the events before it give them. An
//! `EventReferences` index holds the taint of every variable of a path,
//! built in one pass.
use vstd::prelude::*;
use std::collections::HashMap;
use crate::smt::{Def, Event, Sym, Val, exp_syms, push_exp_syms, push_val_syms, val_syms};
use crate::regset::{RegLoc, RegLocView, Taints};

verus! {

/// Register-locations and a memory flag.
pub type TaintView = (Set<RegLocView>, bool);

/// No source at all.
pub open spec fn no_taint() -> TaintView {
    (Set::empty(), false)
}

/// Both sources together.
pub open spec fn join(a: TaintView, b: TaintView) -> TaintView {
    (a.0.union(b.0), a.1 || b.1)
}

/// The taint of variable `v` in the events `evs`.
pub open spec fn sym_taint(evs: Seq<Event>, v: Sym) -> TaintView
    decreases evs.len(), 0int,
{
    if evs.len() == 0 {
        no_taint()
    } else {
        let rest = evs.subrange(0, evs.len() - 1);
        let t = sym_taint(rest, v);
        match evs[evs.len() - 1] {
            Event::ReadReg(r, acc, val) => if val_syms(val).contains(v) {
                join(t, (set![(r, acc@)], false))
            } else {
                t
            },
            Event::ReadMem { value, .. } => if val_syms(value).contains(v) {
                (t.0, true)
            } else {
                t
            },
            Event::Smt(Def::DefineConst(w, e)) => if w == v {
                join(t, syms_taint(rest, exp_syms(e)))
            } else {
                t
            },
            _ => t,
        }
    }
}

/// The joined taints of the variables `vs` in the events `evs`.
pub open spec fn syms_taint(evs: Seq<Event>, vs: Seq<Sym>) -> TaintView
    decreases evs.len(), vs.len(),
{
    if vs.len() == 0 {
        no_taint()
    } else {
        join(syms_taint(evs, vs.subrange(0, vs.len() - 1)), sym_taint(evs, vs[vs.len() - 1]))
    }
}

/// The taint of a value in the events `evs`.
pub open spec fn value_taint(evs: Seq<Event>, v: Val) -> TaintView {
    syms_taint(evs, val_syms(v))
}

proof fn lemma_join_assoc(a: TaintView, b: TaintView, c: TaintView)
    ensures
        join(join(a, b), c) == join(a, join(b, c)),
        join(a, b) == join(b, a),
        join(a, no_taint()) == a,
{
    assert(join(join(a, b), c).0 =~= join(a, join(b, c)).0);
    assert(join(a, b).0 =~= join(b, a).0);
    assert(join(a, no_taint()).0 =~= a.0);
}

broadcast use vstd::std_specs::hash::group_hash_axioms;

/// The taint that an index records for `v`: nothing where it has no entry.
pub open spec fn indexed(m: Map<Sym, Taints>, v: Sym) -> TaintView {
    if m.contains_key(v) {
        m[v]@
    } else {
        no_taint()
    }
}

/// An index from each variable of a path to its taint over the path.
#[derive(Debug)]
pub struct EventReferences {
    pub taints: HashMap<Sym, Taints>,
}

proof fn lemma_join_idem(a: TaintView, b: TaintView)
    ensures
        join(join(a, b), b) == join(a, b),
{
    assert(join(join(a, b), b).0 =~= join(a, b).0);
}

impl EventReferences {
    /// The index holds the taint over `evs` of every variable.
    pub open spec fn indexes(&self, evs: Seq<Event>) -> bool {
        forall|v: Sym|
            #![trigger self.taints@.contains_key(v)]
            #![trigger sym_taint(evs, v)]
            indexed(self.taints@, v) == sym_taint(evs, v) && (self.taints@.contains_key(v)
                ==> self.taints@[v].regs.wf())
    }

    /// Joins `t` into the entry of `v`.
    fn join_into(&mut self, v: Sym, t: &Taints)
        requires
            forall|u: Sym| #[trigger] old(self).taints@.contains_key(u) ==> old(self).taints@[u].regs.wf(),
        ensures
            forall|u: Sym| #[trigger] final(self).taints@.contains_key(u) ==> final(self).taints@[u].regs.wf(),
            indexed(final(self).taints@, v) == join(indexed(old(self).taints@, v), t@),
            forall|u: Sym| u != v ==> #[trigger] indexed(final(self).taints@, u) == indexed(old(self).taints@, u),
    {
        let entry = match self.taints.remove(&v) {
            Some(mut e) => {
                e.regs.extend(&t.regs);
                e.mem = e.mem || t.mem;
                e
            },
            None => {
                let mut e = Taints::new();
                e.regs.extend(&t.regs);
                e.mem = t.mem;
                proof {
                    lemma_join_assoc(no_taint(), t@, no_taint());
                }
                e
            },
        };
        self.taints.insert(v, entry);
        assert forall|u: Sym| u != v implies #[trigger] indexed(self.taints@, u) == indexed(old(self).taints@, u) by {
            assert(self.taints@.contains_key(u) == old(self).taints@.contains_key(u));
        }
    }

    /// The taint of the variables `vs` as the index records them.
    fn lookup_all(&self, vs: &Vec<Sym>, evs: Ghost<Seq<Event>>) -> (t: Taints)
        requires
            self.indexes(evs@),
        ensures
            t.regs.wf(),
            t@ == syms_taint(evs@, vs@),
    {
        let mut t = Taints::new();
        let mut j: usize = 0;
        assert(vs@.subrange(0, 0) =~= Seq::<Sym>::empty());
        while j < vs.len()
            invariant
                j <= vs@.len(),
                self.indexes(evs@),
                t.regs.wf(),
                t@ == syms_taint(evs@, vs@.subrange(0, j as int)),
            decreases vs@.len() - j,
        {
            let u = vs[j];
            let ghost before = t@;
            match self.taints.get(&u) {
                Some(e) => {
                    t.regs.extend(&e.regs);
                    t.mem = t.mem || e.mem;
                    assert(indexed(self.taints@, u) == sym_taint(evs@, u));
                },
                None => {
                    assert(indexed(self.taints@, u) == sym_taint(evs@, u));
                    proof {
                        lemma_join_assoc(before, no_taint(), no_taint());
                    }
                },
            }
            proof {
                let s = vs@.subrange(0, j + 1);
                assert(s.subrange(0, s.len() - 1) =~= vs@.subrange(0, j as int));
                assert(t@.0 =~= join(before, sym_taint(evs@, u)).0);
            }
            j += 1;
        }
        assert(vs@.subrange(0, vs@.len() as int) =~= vs@);
        t
    }

    /// Builds the index in one pass over the events of a path.
    pub fn from_events(evs: &Vec<Event>) -> (r: EventReferences)
        ensures
            r.indexes(evs@),
    {
        let mut r = EventReferences { taints: HashMap::new() };
        let mut i: usize = 0;
        assert forall|v: Sym| #[trigger] indexed(r.taints@, v) == sym_taint(evs@.subrange(0, 0), v) by {
            assert(evs@.subrange(0, 0).len() == 0);
        }
        while i < evs.len()
            invariant
                i <= evs@.len(),
                r.indexes(evs@.subrange(0, i as int)),
            decreases evs@.len() - i,
        {
            let ghost pre = evs@.subrange(0, i as int);
            let ghost next = evs@.subrange(0, i + 1);
            assert(next.subrange(0, next.len() - 1) =~= pre);
            assert(next[next.len() - 1] == evs@[i as int]);
            match &evs[i] {
                Event::ReadReg(reg, acc, val) => {
                    let mut vs: Vec<Sym> = Vec::new();
                    push_val_syms(val, &mut vs);
                    assert(vs@ =~= val_syms(*val));
                    let mut piece = Taints::new();
                    piece.regs.insert(RegLoc::new(*reg, acc));
                    assert(piece@.0 =~= set![(*reg, acc@)]);
                    let mut j: usize = 0;
                    while j < vs.len()
                        invariant
                            j <= vs@.len(),
                            vs@ == val_syms(*val),
                            piece@ == (set![(*reg, acc@)], false),
                            forall|u: Sym| #[trigger] r.taints@.contains_key(u) ==> r.taints@[u].regs.wf(),
                            forall|u: Sym|
                                #[trigger] indexed(r.taints@, u) == if vs@.subrange(0, j as int).contains(u) {
                                    join(sym_taint(pre, u), piece@)
                                } else {
                                    sym_taint(pre, u)
                                },
                        decreases vs@.len() - j,
                    {
                        let ghost before = r.taints@;
                        r.join_into(vs[j], &piece);
                        assert forall|u: Sym|
                            #[trigger] indexed(r.taints@, u) == if vs@.subrange(0, j + 1).contains(u) {
                                join(sym_taint(pre, u), piece@)
                            } else {
                                sym_taint(pre, u)
                            } by {
                            let s = vs@.subrange(0, j + 1);
                            if u == vs@[j as int] {
                                assert(s[j as int] == u);
                                if vs@.subrange(0, j as int).contains(u) {
                                    lemma_join_idem(sym_taint(pre, u), piece@);
                                }
                            } else {
                                if s.contains(u) {
                                    let k = choose|k: int| 0 <= k < s.len() && s[k] == u;
                                    assert(vs@.subrange(0, j as int)[k] == u);
                                }
                                if vs@.subrange(0, j as int).contains(u) {
                                    let k = choose|k: int| 0 <= k < j && vs@.subrange(0, j as int)[k] == u;
                                    assert(s[k] == u);
                                }
                            }
                        }
                        j += 1;
                    }
                    assert(vs@.subrange(0, vs@.len() as int) =~= vs@);
                },
                Event::ReadMem { value, .. } => {
                    let mut vs: Vec<Sym> = Vec::new();
                    push_val_syms(value, &mut vs);
                    assert(vs@ =~= val_syms(*value));
                    let mut piece = Taints::new();
                    piece.mem = true;
                    let mut j: usize = 0;
                    while j < vs.len()
                        invariant
                            j <= vs@.len(),
                            vs@ == val_syms(*value),
                            piece@ == (Set::<RegLocView>::empty(), true),
                            forall|u: Sym| #[trigger] r.taints@.contains_key(u) ==> r.taints@[u].regs.wf(),
                            forall|u: Sym|
                                #[trigger] indexed(r.taints@, u) == if vs@.subrange(0, j as int).contains(u) {
                                    join(sym_taint(pre, u), piece@)
                                } else {
                                    sym_taint(pre, u)
                                },
                        decreases vs@.len() - j,
                    {
                        r.join_into(vs[j], &piece);
                        assert forall|u: Sym|
                            #[trigger] indexed(r.taints@, u) == if vs@.subrange(0, j + 1).contains(u) {
                                join(sym_taint(pre, u), piece@)
                            } else {
                                sym_taint(pre, u)
                            } by {
                            let s = vs@.subrange(0, j + 1);
                            if u == vs@[j as int] {
                                assert(s[j as int] == u);
                                if vs@.subrange(0, j as int).contains(u) {
                                    lemma_join_idem(sym_taint(pre, u), piece@);
                                }
                            } else {
                                if s.contains(u) {
                                    let k = choose|k: int| 0 <= k < s.len() && s[k] == u;
                                    assert(vs@.subrange(0, j as int)[k] == u);
                                }
                                if vs@.subrange(0, j as int).contains(u) {
                                    let k = choose|k: int| 0 <= k < j && vs@.subrange(0, j as int)[k] == u;
                                    assert(s[k] == u);
                                }
                            }
                        }
                        j += 1;
                    }
                    assert(vs@.subrange(0, vs@.len() as int) =~= vs@);
                    assert forall|u: Sym| #[trigger] indexed(r.taints@, u) == sym_taint(next, u) by {
                        if val_syms(*value).contains(u) {
                            assert(join(sym_taint(pre, u), piece@).0 =~= sym_taint(pre, u).0);
                        }
                    }
                },
                Event::Smt(Def::DefineConst(w, e)) => {
                    let mut vs: Vec<Sym> = Vec::new();
                    push_exp_syms(e, &mut vs);
                    assert(vs@ =~= exp_syms(*e));
                    let t = r.lookup_all(&vs, Ghost(pre));
                    r.join_into(*w, &t);
                },
                _ => {},
            }
            assert forall|v: Sym| #[trigger] indexed(r.taints@, v) == sym_taint(next, v) by {}
            i += 1;
        }
        assert(evs@.subrange(0, evs@.len() as int) =~= evs@);
        r
    }

    /// Joins the taint of `v` over the indexed path into `t`.
    pub fn collect_taints(&self, v: Sym, evs: &Vec<Event>, t: &mut Taints)
        requires
            self.indexes(evs@),
            old(t).regs.wf(),
        ensures
            final(t).regs.wf(),
            final(t)@ == join(old(t)@, sym_taint(evs@, v)),
    {
        match self.taints.get(&v) {
            Some(e) => {
                t.regs.extend(&e.regs);
                t.mem = t.mem || e.mem;
                assert(indexed(self.taints@, v) == sym_taint(evs@, v));
            },
            None => {
                assert(indexed(self.taints@, v) == sym_taint(evs@, v));
                proof {
                    lemma_join_assoc(old(t)@, no_taint(), no_taint());
                }
            },
        }
    }

    /// Joins the taint of the value `v` over the indexed path into `t`.
    pub fn collect_value_taints(&self, v: &Val, evs: &Vec<Event>, t: &mut Taints)
        requires
            self.indexes(evs@),
            old(t).regs.wf(),
        ensures
            final(t).regs.wf(),
            final(t)@ == join(old(t)@, value_taint(evs@, *v)),
    {
        let mut vs: Vec<Sym> = Vec::new();
        push_val_syms(v, &mut vs);
        assert(vs@ =~= val_syms(*v));
        let found = self.lookup_all(&vs, Ghost(evs@));
        t.regs.extend(&found.regs);
        t.mem = t.mem || found.mem;
    }

    /// The taint of the value `v` over the indexed path.
    pub fn value_taints(&self, v: &Val, evs: &Vec<Event>) -> (t: Taints)
        requires
            self.indexes(evs@),
        ensures
            t.regs.wf(),
            t@ == value_taint(evs@, *v),
    {
        let mut vs: Vec<Sym> = Vec::new();
        push_val_syms(v, &mut vs);
        assert(vs@ =~= val_syms(*v));
        self.lookup_all(&vs, Ghost(evs@))
    }
}

} // verus!
