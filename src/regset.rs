//! Register-locations and finite sets of them.
use vstd::prelude::*;
use crate::smt::{Accessor, Name};

verus! {

/// A register together with the accessors that select a part of it.
#[derive(Debug)]
pub struct RegLoc {
    pub reg: Name,
    pub accessors: Vec<Accessor>,
}

/// The mathematical form of a register-location.
pub type RegLocView = (Name, Seq<Accessor>);

impl View for RegLoc {
    type V = RegLocView;

    open spec fn view(&self) -> RegLocView {
        (self.reg, self.accessors@)
    }
}

/// Copies a list of accessors.
pub fn copy_accessors(acc: &Vec<Accessor>) -> (r: Vec<Accessor>)
    ensures
        r@ == acc@,
{
    let mut r: Vec<Accessor> = Vec::new();
    let mut i: usize = 0;
    while i < acc.len()
        invariant
            i <= acc.len(),
            r@ == acc@.take(i as int),
        decreases acc.len() - i,
    {
        r.push(acc[i]);
        i += 1;
        assert(r@ =~= acc@.take(i as int));
    }
    assert(r@ =~= acc@);
    r
}

impl RegLoc {
    /// A register-location for register `reg` with the given accessors.
    pub fn new(reg: Name, accessors: &Vec<Accessor>) -> (r: RegLoc)
        ensures
            r@ == (reg, accessors@),
    {
        RegLoc { reg, accessors: copy_accessors(accessors) }
    }

    /// A copy of this register-location.
    pub fn copy(&self) -> (r: RegLoc)
        ensures
            r@ == self@,
    {
        RegLoc::new(self.reg, &self.accessors)
    }

    /// Structural equality.
    pub fn same(&self, other: &RegLoc) -> (b: bool)
        ensures
            b == (self@ == other@),
    {
        if self.reg != other.reg || self.accessors.len() != other.accessors.len() {
            return false;
        }
        let mut i: usize = 0;
        while i < self.accessors.len()
            invariant
                i <= self.accessors.len(),
                self.accessors.len() == other.accessors.len(),
                forall|j: int| 0 <= j < i ==> self.accessors@[j] == other.accessors@[j],
            decreases self.accessors.len() - i,
        {
            if self.accessors[i] != other.accessors[i] {
                return false;
            }
            i += 1;
        }
        assert(self.accessors@ =~= other.accessors@);
        true
    }
}

/// A finite set of register-locations, kept without repetition.
#[derive(Debug)]
pub struct RegSet {
    pub items: Vec<RegLoc>,
}

impl View for RegSet {
    type V = Set<RegLocView>;

    open spec fn view(&self) -> Set<RegLocView> {
        Set::new(|x: RegLocView| exists|i: int| 0 <= i < self.items@.len() && self.items@[i]@ == x)
    }
}

impl RegSet {
    /// No register-location occurs twice.
    pub open spec fn wf(&self) -> bool {
        forall|i: int, j: int|
            0 <= i < j < self.items@.len() ==> self.items@[i]@ != self.items@[j]@
    }

    /// The empty set.
    pub fn new() -> (r: RegSet)
        ensures
            r.wf(),
            r@ == Set::<RegLocView>::empty(),
    {
        let r = RegSet { items: Vec::new() };
        assert(r@ =~= Set::<RegLocView>::empty());
        r
    }

    /// The number of register-locations in the set.
    pub fn len(&self) -> (n: usize)
        ensures
            n == self.items@.len(),
    {
        self.items.len()
    }

    /// Whether `r` is in the set.
    pub fn contains(&self, r: &RegLoc) -> (b: bool)
        ensures
            b == self@.contains(r@),
    {
        let mut i: usize = 0;
        while i < self.items.len()
            invariant
                i <= self.items.len(),
                forall|j: int| 0 <= j < i ==> self.items@[j]@ != r@,
            decreases self.items.len() - i,
        {
            if self.items[i].same(r) {
                return true;
            }
            i += 1;
        }
        false
    }

    /// Adds `r` to the set.
    pub fn insert(&mut self, r: RegLoc)
        requires
            old(self).wf(),
        ensures
            final(self).wf(),
            final(self)@ == old(self)@.insert(r@),
    {
        if !self.contains(&r) {
            let ghost rv = r@;
            self.items.push(r);
            assert forall|x: RegLocView| #[trigger] self@.contains(x) == old(self)@.insert(rv).contains(x) by {
                if old(self)@.contains(x) {
                    let i = choose|i: int| 0 <= i < old(self).items@.len() && old(self).items@[i]@ == x;
                    assert(self.items@[i]@ == x);
                }
                if x == rv {
                    assert(self.items@[self.items@.len() - 1]@ == x);
                }
            }
            assert(self@ =~= old(self)@.insert(rv));
        } else {
            assert(self@ =~= old(self)@.insert(r@));
        }
    }

    /// Adds every register-location of `other` to the set.
    pub fn extend(&mut self, other: &RegSet)
        requires
            old(self).wf(),
        ensures
            final(self).wf(),
            final(self)@ == old(self)@.union(other@),
    {
        let mut i: usize = 0;
        while i < other.items.len()
            invariant
                i <= other.items.len(),
                self.wf(),
                self@ == old(self)@.union(
                    Set::new(|x: RegLocView| exists|j: int| 0 <= j < i && other.items@[j]@ == x),
                ),
            decreases other.items.len() - i,
        {
            let ghost before = self@;
            self.insert(other.items[i].copy());
            i += 1;
            assert(self@ =~= old(self)@.union(
                Set::new(|x: RegLocView| exists|j: int| 0 <= j < i && other.items@[j]@ == x),
            )) by {
                assert forall|x: RegLocView|
                    Set::new(|x: RegLocView| exists|j: int| 0 <= j < i && other.items@[j]@ == x).contains(x)
                        implies #[trigger] self@.contains(x) by {
                    let j = choose|j: int| 0 <= j < i && other.items@[j]@ == x;
                    if j < i - 1 {
                        assert(Set::new(|x: RegLocView| exists|j: int| 0 <= j < i - 1 && other.items@[j]@ == x).contains(x));
                    }
                }
            }
        }
        assert(self@ =~= old(self)@.union(other@));
    }

    /// A copy of the set.
    pub fn copy(&self) -> (r: RegSet)
        ensures
            r.wf(),
            r@ == self@,
    {
        let mut r = RegSet::new();
        r.extend(self);
        assert(r@ =~= self@);
        r
    }

    /// Whether the two sets share a register-location.
    pub fn intersects(&self, other: &RegSet) -> (b: bool)
        ensures
            b == !self@.intersect(other@).is_empty(),
    {
        let mut i: usize = 0;
        while i < self.items.len()
            invariant
                i <= self.items.len(),
                forall|j: int| 0 <= j < i ==> !other@.contains(#[trigger] self.items@[j]@),
            decreases self.items.len() - i,
        {
            if other.contains(&self.items[i]) {
                assert(self@.intersect(other@).contains(self.items@[i as int]@));
                return true;
            }
            i += 1;
        }
        assert(self@.intersect(other@) =~= Set::<RegLocView>::empty());
        false
    }
}

/// The sources of a value: register-locations, and whether a memory read is
/// among them.
#[derive(Debug)]
pub struct Taints {
    pub regs: RegSet,
    pub mem: bool,
}

impl View for Taints {
    type V = (Set<RegLocView>, bool);

    open spec fn view(&self) -> (Set<RegLocView>, bool) {
        (self.regs@, self.mem)
    }
}

impl Taints {
    /// No sources.
    pub fn new() -> (t: Taints)
        ensures
            t.regs.wf(),
            t@ == (Set::<RegLocView>::empty(), false),
    {
        Taints { regs: RegSet::new(), mem: false }
    }
}

} // verus!
