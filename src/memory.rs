//! Memory split into regions, each a half-open address range with its own
//! semantics: concrete read-only bytes, unconstrained symbolic bytes
//! (for data or for code), or one symbolic value constrained to a list of
//! candidates. Reads and writes record events in the solver context.
use vstd::prelude::*;
use std::collections::HashMap;
use std::ops::Range;
use crate::bytes::{be_value, le_value, lemma_be_reverse, reverse_endianness, value_of_bytes};
use crate::smt::{Bits, Def, Event, Exp, Solver, Sym, Ty, Val};

verus! {

broadcast use vstd::std_specs::hash::group_hash_axioms;

/// A 64-bit address.
pub type Address = u64;

/// A region of memory.
#[derive(Debug)]
pub enum Region {
    /// One fresh bitvector for the whole range, constrained to equal one of
    /// the listed `(bits, length)` values.
    Constrained(Range<Address>, Vec<(u64, u32)>),
    /// Arbitrary symbolic locations.
    Symbolic(Range<Address>),
    /// Arbitrary symbolic locations holding code.
    SymbolicCode(Range<Address>),
    /// Concrete read-only bytes; absent addresses read as zero.
    Concrete(Range<Address>, HashMap<Address, u8>),
}

/// Which accesses an address constraint admits.
#[derive(Clone, Copy, Debug, PartialEq, Eq, Structural)]
pub enum SmtKind {
    ReadData,
    ReadInstr,
    WriteData,
}

/// What a memory access can fail with.
#[derive(Clone, Copy, Debug, PartialEq, Eq, Structural)]
pub enum ExecError {
    /// The number of bytes is not concrete.
    SymbolicLength,
    /// A partial read of a constrained region, or a concrete read of more
    /// than eight bytes.
    BadRead,
    /// Written data whose length is not a whole number of bytes.
    Type,
}

/// The range of a region.
pub open spec fn range_of(r: Region) -> Range<Address> {
    match r {
        Region::Constrained(range, _) => range,
        Region::Symbolic(range) => range,
        Region::SymbolicCode(range) => range,
        Region::Concrete(range, _) => range,
    }
}

/// Whether `a` lies in `range`.
pub open spec fn in_range(range: Range<Address>, a: Address) -> bool {
    range.start <= a < range.end
}

/// The first region that contains `a`.
pub open spec fn region_for(regions: Seq<Region>, a: Address) -> Option<int>
    decreases regions.len(),
{
    if regions.len() == 0 {
        None
    } else {
        match region_for(regions.subrange(0, regions.len() - 1), a) {
            Some(i) => Some(i),
            None => if in_range(range_of(regions[regions.len() - 1]), a) {
                Some(regions.len() - 1)
            } else {
                None
            },
        }
    }
}

/// The first concrete region that contains `a`.
pub open spec fn concrete_region_for(regions: Seq<Region>, a: Address) -> Option<int>
    decreases regions.len(),
{
    if regions.len() == 0 {
        None
    } else {
        match concrete_region_for(regions.subrange(0, regions.len() - 1), a) {
            Some(i) => Some(i),
            None => if regions[regions.len() - 1] is Concrete && in_range(
                range_of(regions[regions.len() - 1]),
                a,
            ) {
                Some(regions.len() - 1)
            } else {
                None
            },
        }
    }
}

/// The byte at `a` of concrete contents.
pub open spec fn byte_at(contents: Map<Address, u8>, a: Address) -> u8 {
    if contents.contains_key(a) {
        contents[a]
    } else {
        0
    }
}

/// The `n` bytes from `a` upwards, addresses wrapping round.
pub open spec fn bytes_at(contents: Map<Address, u8>, a: Address, n: nat) -> Seq<u8> {
    Seq::new(n, |i: int| byte_at(contents, ((a + i) % 0x1_0000_0000_0000_0000) as Address))
}

/// The little-endian value of `n` bytes from `a`.
pub open spec fn concrete_value(contents: Map<Address, u8>, a: Address, n: nat) -> nat {
    le_value(bytes_at(contents, a, n))
}

/// The constraint that a constrained region's variable `v` equals one of
/// `values`, the last listed first.
pub open spec fn candidates_exp(v: Sym, values: Seq<(u64, u32)>) -> Exp
    decreases values.len(),
{
    if values.len() == 0 {
        Exp::Bool(false)
    } else {
        let (bits, len) = values[values.len() - 1];
        Exp::Or(
            Box::new(Exp::Eq(Box::new(Exp::Var(v)), Box::new(Exp::Bits64(bits, len)))),
            Box::new(candidates_exp(v, values.subrange(0, values.len() - 1))),
        )
    }
}

/// Declares the variable of a constrained region of `bytes` bytes and asserts
/// that it is one of `values`.
pub fn encode_constrained(values: &Vec<(u64, u32)>, bytes: u32, solver: &mut Solver) -> (v: Sym)
    requires
        old(solver).next_var < u32::MAX,
        bytes <= 0x1fff_ffff,
    ensures
        v == old(solver).next_var,
        final(solver).next_var == old(solver).next_var + 1,
        final(solver).events@ == old(solver).events@,
        final(solver).defs@ == old(solver).defs@.push(Def::DeclareConst(v, Ty::BitVec((8 * bytes) as u32))).push(
            Def::Assert(candidates_exp(v, values@)),
        ),
{
    let v = solver.fresh();
    let mut exp = Exp::Bool(false);
    let mut i: usize = 0;
    while i < values.len()
        invariant
            i <= values@.len(),
            exp == candidates_exp(v, values@.subrange(0, i as int)),
        decreases values@.len() - i,
    {
        let (bits, len) = values[i];
        exp = Exp::Or(
            Box::new(Exp::Eq(Box::new(Exp::Var(v)), Box::new(Exp::Bits64(bits, len)))),
            Box::new(exp),
        );
        let ghost s = values@.subrange(0, i + 1);
        assert(s.subrange(0, s.len() - 1) =~= values@.subrange(0, i as int));
        i += 1;
    }
    assert(values@.subrange(0, values@.len() as int) =~= values@);
    solver.add(Def::DeclareConst(v, Ty::BitVec(8 * bytes)));
    solver.add(Def::Assert(exp));
    v
}

impl Region {
    /// The address range of the region.
    pub fn region_range(&self) -> (r: &Range<Address>)
        ensures
            *r == range_of(*self),
    {
        match self {
            Region::Constrained(r, _) => r,
            Region::Symbolic(r) => r,
            Region::SymbolicCode(r) => r,
            Region::Concrete(r, _) => r,
        }
    }
}

fn range_contains(range: &Range<Address>, a: Address) -> (b: bool)
    ensures
        b == in_range(*range, a),
{
    range.start <= a && a < range.end
}

/// A hook that sees every symbolic read and write, so that a client can add
/// constraints of its own. It may add definitions but not events.
pub trait MemoryCallbacks {
    fn symbolic_read(
        &self,
        regions: &Vec<Region>,
        solver: &mut Solver,
        value: &Val,
        read_kind: &Val,
        address: &Val,
        bytes: u32,
    )
        ensures
            final(solver).events@ == old(solver).events@,
            final(solver).next_var >= old(solver).next_var,
            old(solver).defs@.is_prefix_of(final(solver).defs@),
    ;

    fn symbolic_write(
        &mut self,
        regions: &Vec<Region>,
        solver: &mut Solver,
        value: Sym,
        write_kind: &Val,
        address: &Val,
        data: &Val,
        bytes: u32,
    )
        ensures
            final(solver).events@ == old(solver).events@,
            final(solver).next_var >= old(solver).next_var,
            old(solver).defs@.is_prefix_of(final(solver).defs@),
    ;
}

/// The hook that adds nothing.
#[derive(Clone, Copy, Debug)]
pub struct NoCallbacks;

impl MemoryCallbacks for NoCallbacks {
    fn symbolic_read(
        &self,
        regions: &Vec<Region>,
        solver: &mut Solver,
        value: &Val,
        read_kind: &Val,
        address: &Val,
        bytes: u32,
    ) {
        assert(solver.defs@.is_prefix_of(solver.defs@));
    }

    fn symbolic_write(
        &mut self,
        regions: &Vec<Region>,
        solver: &mut Solver,
        value: Sym,
        write_kind: &Val,
        address: &Val,
        data: &Val,
        bytes: u32,
    ) {
        assert(solver.defs@.is_prefix_of(solver.defs@));
    }
}

/// The regions of memory, matched in the order they were added, and an
/// optional client hook.
#[derive(Debug)]
pub struct Memory<C> {
    pub regions: Vec<Region>,
    pub client_info: Option<C>,
}

/// The solver after a symbolic read of `bytes` bytes that recorded `ev`: a
/// fresh bitvector variable is declared, and a client hook may add
/// definitions of its own.
pub open spec fn symbolic_step(hooked: bool, s0: Solver, s1: Solver, v: Sym, ty: Ty, ev: Event) -> bool {
    &&& v == s0.next_var
    &&& s1.events@ == s0.events@.push(ev)
    &&& if hooked {
        &&& s1.next_var >= s0.next_var + 1
        &&& s0.defs@.push(Def::DeclareConst(v, ty)).is_prefix_of(s1.defs@)
    } else {
        &&& s1.next_var == s0.next_var + 1
        &&& s1.defs@ == s0.defs@.push(Def::DeclareConst(v, ty))
    }
}

/// The solver is as it was.
pub open spec fn unchanged(s0: Solver, s1: Solver) -> bool {
    s1.next_var == s0.next_var && s1.defs@ == s0.defs@ && s1.events@ == s0.events@
}

/// A 64-bit concrete address value.
pub open spec fn address_val(a: Address) -> Val {
    Val::Bits(Bits { bits: a, length: 64 })
}

/// What a read of `n` bytes at `address` in `regions` returns and records.
pub open spec fn read_outcome(
    regions: Seq<Region>,
    hooked: bool,
    read_kind: Val,
    address: Val,
    n: u32,
    s0: Solver,
    s1: Solver,
    r: Result<Val, ExecError>,
) -> bool {
    let v = s0.next_var;
    let symbolic = symbolic_step(
        hooked,
        s0,
        s1,
        v,
        Ty::BitVec((8 * n) as u32),
        Event::ReadMem { value: Val::Symbolic(v), read_kind, address, bytes: n },
    ) && r == Ok::<Val, ExecError>(Val::Symbolic(v));
    match address {
        Val::Bits(a) => match region_for(regions, a.bits) {
            Some(i) => match regions[i] {
                Region::Constrained(range, values) => {
                    &&& s1.next_var == s0.next_var + 1
                    &&& s1.defs@ == s0.defs@.push(
                        Def::DeclareConst(v, Ty::BitVec((8 * n) as u32)),
                    ).push(Def::Assert(candidates_exp(v, values@)))
                    &&& if a.bits == range.start && range.end - a.bits == n {
                        &&& s1.events@ == s0.events@.push(
                            Event::ReadMem {
                                value: Val::Symbolic(v),
                                read_kind,
                                address: address_val(a.bits),
                                bytes: n,
                            },
                        )
                        &&& r == Ok::<Val, ExecError>(Val::Symbolic(v))
                    } else {
                        s1.events@ == s0.events@ && r == Err::<Val, ExecError>(ExecError::BadRead)
                    }
                },
                Region::Concrete(_, contents) => if n <= 8 {
                    let value = Val::Bits(
                        Bits { bits: concrete_value(contents@, a.bits, n as nat) as u64, length: (8 * n) as u32 },
                    );
                    &&& s1.next_var == s0.next_var
                    &&& s1.defs@ == s0.defs@
                    &&& s1.events@ == s0.events@.push(
                        Event::ReadMem { value, read_kind, address: address_val(a.bits), bytes: n },
                    )
                    &&& r == Ok::<Val, ExecError>(value)
                } else {
                    unchanged(s0, s1) && r == Err::<Val, ExecError>(ExecError::BadRead)
                },
                _ => symbolic,
            },
            None => symbolic,
        },
        _ => symbolic,
    }
}

proof fn lemma_region_for_prefix(regions: Seq<Region>, k: int, a: Address)
    requires
        0 <= k <= regions.len(),
        region_for(regions.subrange(0, k), a) is Some,
    ensures
        region_for(regions, a) == region_for(regions.subrange(0, k), a),
    decreases regions.len() - k,
{
    if k < regions.len() {
        let s = regions.subrange(0, k + 1);
        assert(s.subrange(0, k) =~= regions.subrange(0, k));
        lemma_region_for_prefix(regions, k + 1, a);
    } else {
        assert(regions.subrange(0, k) =~= regions);
    }
}

proof fn lemma_concrete_region_for_prefix(regions: Seq<Region>, k: int, a: Address)
    requires
        0 <= k <= regions.len(),
        concrete_region_for(regions.subrange(0, k), a) is Some,
    ensures
        concrete_region_for(regions, a) == concrete_region_for(regions.subrange(0, k), a),
    decreases regions.len() - k,
{
    if k < regions.len() {
        let s = regions.subrange(0, k + 1);
        assert(s.subrange(0, k) =~= regions.subrange(0, k));
        lemma_concrete_region_for_prefix(regions, k + 1, a);
    } else {
        assert(regions.subrange(0, k) =~= regions);
    }
}

proof fn lemma_region_for_step(regions: Seq<Region>, k: int, a: Address)
    requires
        0 <= k < regions.len(),
        region_for(regions.subrange(0, k), a) is None,
    ensures
        region_for(regions.subrange(0, k + 1), a) == if in_range(range_of(regions[k]), a) {
            Some(k)
        } else {
            None::<int>
        },
{
    let s = regions.subrange(0, k + 1);
    assert(s.subrange(0, k) =~= regions.subrange(0, k));
}

/// Reads a constrained region: its variable is declared whatever the access,
/// and the read succeeds only when it spans the whole region.
fn read_constrained(
    range: &Range<Address>,
    values: &Vec<(u64, u32)>,
    read_kind: Val,
    address: Address,
    bytes: u32,
    solver: &mut Solver,
) -> (r: Result<Val, ExecError>)
    requires
        old(solver).next_var < u32::MAX,
        bytes <= 0x1fff_ffff,
        in_range(*range, address),
    ensures
        final(solver).next_var == old(solver).next_var + 1,
        final(solver).defs@ == old(solver).defs@.push(
            Def::DeclareConst(old(solver).next_var, Ty::BitVec((8 * bytes) as u32)),
        ).push(Def::Assert(candidates_exp(old(solver).next_var, values@))),
        if address == range.start && range.end - address == bytes {
            &&& final(solver).events@ == old(solver).events@.push(
                Event::ReadMem {
                    value: Val::Symbolic(old(solver).next_var),
                    read_kind,
                    address: address_val(address),
                    bytes,
                },
            )
            &&& r == Ok::<Val, ExecError>(Val::Symbolic(old(solver).next_var))
        } else {
            final(solver).events@ == old(solver).events@ && r == Err::<Val, ExecError>(ExecError::BadRead)
        },
{
    let region = encode_constrained(values, bytes, solver);
    if address == range.start && range.end - address == bytes as u64 {
        solver.add_event(
            Event::ReadMem {
                value: Val::Symbolic(region),
                read_kind,
                address: Val::Bits(Bits { bits: address, length: 64 }),
                bytes,
            },
        );
        Ok(Val::Symbolic(region))
    } else {
        Err(ExecError::BadRead)
    }
}

/// Reads concrete bytes, least significant first.
fn read_concrete(
    region: &HashMap<Address, u8>,
    read_kind: Val,
    address: Address,
    bytes: u32,
    solver: &mut Solver,
) -> (r: Result<Val, ExecError>)
    ensures
        final(solver).next_var == old(solver).next_var,
        final(solver).defs@ == old(solver).defs@,
        if bytes <= 8 {
            let value = Val::Bits(
                Bits { bits: concrete_value(region@, address, bytes as nat) as u64, length: (8 * bytes) as u32 },
            );
            &&& final(solver).events@ == old(solver).events@.push(
                Event::ReadMem { value, read_kind, address: address_val(address), bytes },
            )
            &&& r == Ok::<Val, ExecError>(value)
        } else {
            final(solver).events@ == old(solver).events@ && r == Err::<Val, ExecError>(ExecError::BadRead)
        },
{
    if bytes > 8 {
        return Err(ExecError::BadRead);
    }
    let mut byte_vec: Vec<u8> = Vec::new();
    let mut i: u32 = 0;
    while i < bytes
        invariant
            i <= bytes <= 8,
            byte_vec@ == bytes_at(region@, address, i as nat),
        decreases bytes - i,
    {
        let a = address.wrapping_add(i as u64);
        let b = match region.get(&a) {
            Some(b) => *b,
            None => 0,
        };
        byte_vec.push(b);
        i += 1;
        assert(byte_vec@ =~= bytes_at(region@, address, i as nat));
    }
    let ghost le = byte_vec@;
    reverse_endianness(&mut byte_vec);
    proof {
        lemma_be_reverse(le);
    }
    let v = value_of_bytes(&byte_vec);
    solver.add_event(
        Event::ReadMem {
            value: Val::Bits(Bits { bits: v, length: 8 * bytes }),
            read_kind,
            address: Val::Bits(Bits { bits: address, length: 64 }),
            bytes,
        },
    );
    Ok(Val::Bits(Bits { bits: v, length: 8 * bytes }))
}

/// The declared width of variable `v`: the last bitvector declaration of it.
pub open spec fn declared_width(defs: Seq<Def>, v: Sym) -> Option<u32>
    decreases defs.len(),
{
    if defs.len() == 0 {
        None
    } else {
        match defs[defs.len() - 1] {
            Def::DeclareConst(w, Ty::BitVec(n)) if w == v => Some(n),
            _ => declared_width(defs.subrange(0, defs.len() - 1), v),
        }
    }
}

/// The length in bits of a bitvector value, if it is one.
pub open spec fn length_bits(data: Val, defs: Seq<Def>) -> Option<u32> {
    match data {
        Val::Bits(b) => Some(b.length),
        Val::Symbolic(v) => declared_width(defs, v),
        _ => None,
    }
}

fn value_length_bits(data: &Val, solver: &Solver) -> (r: Option<u32>)
    ensures
        r == length_bits(*data, solver.defs@),
{
    match data {
        Val::Bits(b) => Some(b.length),
        Val::Symbolic(v) => {
            let mut k: usize = solver.defs.len();
            assert(solver.defs@.subrange(0, k as int) =~= solver.defs@);
            while k > 0
                invariant
                    k <= solver.defs@.len(),
                    *data == Val::Symbolic(*v),
                    declared_width(solver.defs@, *v) == declared_width(solver.defs@.subrange(0, k as int), *v),
                decreases k,
            {
                let ghost s = solver.defs@.subrange(0, k as int);
                assert(s.subrange(0, s.len() - 1) =~= solver.defs@.subrange(0, k - 1));
                assert(s[s.len() - 1] == solver.defs@[k - 1]);
                match &solver.defs[k - 1] {
                    Def::DeclareConst(w, Ty::BitVec(n)) => {
                        if *w == *v {
                            assert(declared_width(s, *v) == Some(*n));
                            return Some(*n);
                        }
                    },
                    _ => {},
                }
                k -= 1;
            }
            None
        },
        _ => None,
    }
}

/// What a write at `address` of `data` returns and records.
pub open spec fn write_outcome(
    hooked: bool,
    write_kind: Val,
    address: Val,
    data: Val,
    s0: Solver,
    s1: Solver,
    r: Result<Val, ExecError>,
) -> bool {
    match length_bits(data, s0.defs@) {
        Some(len) if len % 8 == 0 => {
            let v = s0.next_var;
            &&& symbolic_step(
                hooked,
                s0,
                s1,
                v,
                Ty::Bool,
                Event::WriteMem { value: v, write_kind, address, data, bytes: len / 8 },
            )
            &&& r == Ok::<Val, ExecError>(Val::Symbolic(v))
        },
        _ => unchanged(s0, s1) && r == Err::<Val, ExecError>(ExecError::Type),
    }
}

impl<C: MemoryCallbacks> Memory<C> {
    /// Memory with no regions and no hook.
    pub fn new() -> (m: Memory<C>)
        ensures
            m.regions@.len() == 0,
            m.client_info is None,
    {
        Memory { regions: Vec::new(), client_info: None }
    }

    /// Appends a region.
    pub fn add_region(&mut self, region: Region)
        ensures
            final(self).regions@ == old(self).regions@.push(region),
            final(self).client_info == old(self).client_info,
    {
        self.regions.push(region)
    }

    /// Appends a symbolic region.
    pub fn add_symbolic_region(&mut self, range: Range<Address>)
        ensures
            final(self).regions@ == old(self).regions@.push(Region::Symbolic(range)),
            final(self).client_info == old(self).client_info,
    {
        self.regions.push(Region::Symbolic(range))
    }

    /// Appends a symbolic code region.
    pub fn add_symbolic_code_region(&mut self, range: Range<Address>)
        ensures
            final(self).regions@ == old(self).regions@.push(Region::SymbolicCode(range)),
            final(self).client_info == old(self).client_info,
    {
        self.regions.push(Region::SymbolicCode(range))
    }

    /// Appends a concrete region.
    pub fn add_concrete_region(&mut self, range: Range<Address>, contents: HashMap<Address, u8>)
        ensures
            final(self).regions@ == old(self).regions@.push(Region::Concrete(range, contents)),
            final(self).client_info == old(self).client_info,
    {
        self.regions.push(Region::Concrete(range, contents))
    }

    /// Installs the client hook.
    pub fn set_client_info(&mut self, info: C)
        ensures
            final(self).regions@ == old(self).regions@,
            final(self).client_info == Some(info),
    {
        self.client_info = Some(info);
    }

    /// Sets the byte at `address` in the first concrete region that contains
    /// it, or else appends an empty-ranged concrete region that holds it.
    pub fn write_byte(&mut self, address: Address, byte: u8)
        ensures
            final(self).client_info == old(self).client_info,
            match concrete_region_for(old(self).regions@, address) {
                Some(i) => {
                    &&& final(self).regions@.len() == old(self).regions@.len()
                    &&& forall|j: int|
                        0 <= j < old(self).regions@.len() && j != i ==> final(self).regions@[j]
                            == old(self).regions@[j]
                    &&& final(self).regions@[i] is Concrete
                    &&& range_of(final(self).regions@[i]) == range_of(old(self).regions@[i])
                    &&& final(self).regions@[i]->Concrete_1@ == old(self).regions@[i]->Concrete_1@.insert(
                        address,
                        byte,
                    )
                },
                None => {
                    &&& final(self).regions@.len() == old(self).regions@.len() + 1
                    &&& final(self).regions@.subrange(0, old(self).regions@.len() as int)
                        == old(self).regions@
                    &&& final(self).regions@.last() is Concrete
                    &&& range_of(final(self).regions@.last()) == (Range { start: address, end: address })
                    &&& final(self).regions@.last()->Concrete_1@ == Map::<Address, u8>::empty().insert(
                        address,
                        byte,
                    )
                },
            },
    {
        let mut i: usize = 0;
        while i < self.regions.len()
            invariant
                i <= self.regions@.len(),
                self.regions@ == old(self).regions@,
                self.client_info == old(self).client_info,
                concrete_region_for(self.regions@.subrange(0, i as int), address) is None,
            decreases self.regions@.len() - i,
        {
            let ghost s = self.regions@.subrange(0, i + 1);
            assert(s.subrange(0, i as int) =~= self.regions@.subrange(0, i as int));
            let hit = match &self.regions[i] {
                Region::Concrete(range, _) => range_contains(range, address),
                _ => false,
            };
            if hit {
                proof {
                    lemma_concrete_region_for_prefix(self.regions@, i + 1, address);
                }
                let region = self.regions.remove(i);
                match region {
                    Region::Concrete(range, mut contents) => {
                        contents.insert(address, byte);
                        self.regions.insert(i, Region::Concrete(range, contents));
                    },
                    other => {
                        self.regions.insert(i, other);
                    },
                }
                assert forall|j: int|
                    0 <= j < old(self).regions@.len() && j != i implies self.regions@[j]
                    == old(self).regions@[j] by {
                    if j < i {
                        assert(self.regions@[j] == old(self).regions@[j]);
                    }
                }
                return;
            }
            i += 1;
        }
        assert(self.regions@.subrange(0, self.regions@.len() as int) =~= self.regions@);
        let mut contents: HashMap<Address, u8> = HashMap::new();
        contents.insert(address, byte);
        self.regions.push(Region::Concrete(Range { start: address, end: address }, contents));
        assert(self.regions@.subrange(0, old(self).regions@.len() as int) =~= old(self).regions@);
    }

    /// Reads fresh symbolic bytes: declares a variable of `8 * bytes` bits
    /// and records the read.
    fn read_symbolic(&self, read_kind: Val, address: Val, bytes: u32, solver: &mut Solver) -> (r: Result<
        Val,
        ExecError,
    >)
        requires
            old(solver).next_var < u32::MAX,
            bytes <= 0x1fff_ffff,
        ensures
            symbolic_step(
                self.client_info is Some,
                *old(solver),
                *final(solver),
                old(solver).next_var,
                Ty::BitVec((8 * bytes) as u32),
                Event::ReadMem { value: Val::Symbolic(old(solver).next_var), read_kind, address, bytes },
            ),
            r == Ok::<Val, ExecError>(Val::Symbolic(old(solver).next_var)),
    {
        let value = solver.fresh();
        solver.add(Def::DeclareConst(value, Ty::BitVec(8 * bytes)));
        match &self.client_info {
            Some(c) => c.symbolic_read(&self.regions, solver, &Val::Symbolic(value), &read_kind, &address, bytes),
            None => {},
        }
        solver.add_event(Event::ReadMem { value: Val::Symbolic(value), read_kind, address, bytes });
        Ok(Val::Symbolic(value))
    }

    /// Reads `bytes` bytes at `address`. The byte count must be concrete. A
    /// concrete address is served by the first region that contains it, and
    /// by a symbolic read where none does; a symbolic address always reads
    /// symbolically.
    pub fn read(&self, read_kind: Val, address: Val, bytes: Val, solver: &mut Solver) -> (r: Result<
        Val,
        ExecError,
    >)
        requires
            old(solver).next_var < u32::MAX,
            bytes is I128 ==> 0 <= bytes->I128_0 <= 0x1fff_ffff,
        ensures
            match bytes {
                Val::I128(n) => read_outcome(
                    self.regions@,
                    self.client_info is Some,
                    read_kind,
                    address,
                    n as u32,
                    *old(solver),
                    *final(solver),
                    r,
                ),
                _ => unchanged(*old(solver), *final(solver)) && r == Err::<Val, ExecError>(
                    ExecError::SymbolicLength,
                ),
            },
    {
        match bytes {
            Val::I128(b) => {
                let n = b as u32;
                match address {
                    Val::Bits(a) => {
                        let addr = a.bits;
                        let mut i: usize = 0;
                        while i < self.regions.len()
                            invariant
                                i <= self.regions@.len(),
                                region_for(self.regions@.subrange(0, i as int), addr) is None,
                                *solver == *old(solver),
                                solver.next_var < u32::MAX,
                                bytes == Val::I128(b),
                                0 <= b <= 0x1fff_ffff,
                                n == b as u32,
                                address == Val::Bits(a),
                                addr == a.bits,
                            decreases self.regions@.len() - i,
                        {
                            proof {
                                lemma_region_for_step(self.regions@, i as int, addr);
                            }
                            if range_contains(self.regions[i].region_range(), addr) {
                                proof {
                                    lemma_region_for_prefix(self.regions@, i + 1, addr);
                                }
                                match &self.regions[i] {
                                    Region::Constrained(range, values) => {
                                        return read_constrained(range, values, read_kind, addr, n, solver);
                                    },
                                    Region::Concrete(_, contents) => {
                                        return read_concrete(contents, read_kind, addr, n, solver);
                                    },
                                    _ => {
                                        return self.read_symbolic(read_kind, Val::Bits(a), n, solver);
                                    },
                                }
                            }
                            i += 1;
                        }
                        assert(self.regions@.subrange(0, self.regions@.len() as int) =~= self.regions@);
                        self.read_symbolic(read_kind, Val::Bits(a), n, solver)
                    },
                    _ => self.read_symbolic(read_kind, address, n, solver),
                }
            },
            _ => Err(ExecError::SymbolicLength),
        }
    }

    /// Writes `data` at `address`: records the write and returns a fresh
    /// boolean for its success. Memory itself is left as it is.
    fn write_symbolic(&mut self, write_kind: Val, address: Val, data: Val, solver: &mut Solver) -> (r:
        Result<Val, ExecError>)
        requires
            old(solver).next_var < u32::MAX,
        ensures
            final(self).regions@ == old(self).regions@,
            write_outcome(
                old(self).client_info is Some,
                write_kind,
                address,
                data,
                *old(solver),
                *final(solver),
                r,
            ),
    {
        let data_length = match value_length_bits(&data, solver) {
            Some(len) => len,
            None => {
                return Err(ExecError::Type);
            },
        };
        if data_length % 8 != 0 {
            return Err(ExecError::Type);
        }
        let bytes = data_length / 8;
        let value = solver.fresh();
        solver.add(Def::DeclareConst(value, Ty::Bool));
        match &mut self.client_info {
            Some(c) => c.symbolic_write(&self.regions, solver, value, &write_kind, &address, &data, bytes),
            None => {},
        }
        solver.add_event(Event::WriteMem { value, write_kind, address, data, bytes });
        Ok(Val::Symbolic(value))
    }

    /// Writes `data` at `address`, concrete or symbolic alike.
    pub fn write(&mut self, write_kind: Val, address: Val, data: Val, solver: &mut Solver) -> (r: Result<
        Val,
        ExecError,
    >)
        requires
            old(solver).next_var < u32::MAX,
        ensures
            final(self).regions@ == old(self).regions@,
            write_outcome(
                old(self).client_info is Some,
                write_kind,
                address,
                data,
                *old(solver),
                *final(solver),
                r,
            ),
    {
        self.write_symbolic(write_kind, address, data, solver)
    }
}

/// Whether an address constraint of `kind` admits the region `r`: reads
/// admit every region, instruction fetches only code, writes only plain
/// symbolic regions.
pub open spec fn admits(kind: SmtKind, r: Region) -> bool {
    match kind {
        SmtKind::ReadData => true,
        SmtKind::ReadInstr => r is SymbolicCode,
        SmtKind::WriteData => r is Symbolic,
    }
}

/// Whether `range` has room for `bytes` bytes.
pub open spec fn fits(range: Range<Address>, bytes: u32) -> bool {
    range.start <= range.end && range.end - range.start >= bytes
}

/// `range.start <= a` and `a + bytes < range.end`, computed one bit wider so
/// that the sum cannot wrap.
pub open spec fn range_constraint(a: Sym, range: Range<Address>, bytes: u32) -> Exp {
    Exp::And(
        Box::new(Exp::Bvule(Box::new(Exp::Bits64(range.start, 64)), Box::new(Exp::Var(a)))),
        Box::new(
            Exp::Bvult(
                Box::new(
                    Exp::Bvadd(
                        Box::new(Exp::ZeroExtend(65, Box::new(Exp::Var(a)))),
                        Box::new(Exp::ZeroExtend(65, Box::new(Exp::Bits64(bytes as u64, 64)))),
                    ),
                ),
                Box::new(Exp::ZeroExtend(65, Box::new(Exp::Bits64(range.end, 64)))),
            ),
        ),
    )
}

/// The disjunction of the range constraints of the admitted regions with
/// room for the access, in region order; `false` when there is none.
pub open spec fn address_constraint(regions: Seq<Region>, a: Sym, bytes: u32, kind: SmtKind) -> Exp
    decreases regions.len(),
{
    if regions.len() == 0 {
        Exp::Bool(false)
    } else {
        let acc = address_constraint(regions.subrange(0, regions.len() - 1), a, bytes, kind);
        let r = regions[regions.len() - 1];
        if admits(kind, r) && fits(range_of(r), bytes) {
            let e = range_constraint(a, range_of(r), bytes);
            match acc {
                Exp::Bool(false) => e,
                _ => Exp::Or(Box::new(acc), Box::new(e)),
            }
        } else {
            acc
        }
    }
}

/// A copy of an expression.
pub fn copy_exp(e: &Exp) -> (r: Exp)
    ensures
        r == *e,
    decreases e,
{
    match e {
        Exp::Var(v) => Exp::Var(*v),
        Exp::Bits64(b, n) => Exp::Bits64(*b, *n),
        Exp::Bool(b) => Exp::Bool(*b),
        Exp::Not(a) => Exp::Not(Box::new(copy_exp(a))),
        Exp::And(a, b) => Exp::And(Box::new(copy_exp(a)), Box::new(copy_exp(b))),
        Exp::Or(a, b) => Exp::Or(Box::new(copy_exp(a)), Box::new(copy_exp(b))),
        Exp::Eq(a, b) => Exp::Eq(Box::new(copy_exp(a)), Box::new(copy_exp(b))),
        Exp::Bvadd(a, b) => Exp::Bvadd(Box::new(copy_exp(a)), Box::new(copy_exp(b))),
        Exp::Bvule(a, b) => Exp::Bvule(Box::new(copy_exp(a)), Box::new(copy_exp(b))),
        Exp::Bvult(a, b) => Exp::Bvult(Box::new(copy_exp(a)), Box::new(copy_exp(b))),
        Exp::ZeroExtend(n, a) => Exp::ZeroExtend(*n, Box::new(copy_exp(a))),
    }
}

fn admits_exec(kind: SmtKind, r: &Region) -> (b: bool)
    ensures
        b == admits(kind, *r),
{
    match kind {
        SmtKind::ReadData => true,
        SmtKind::ReadInstr => match r {
            Region::SymbolicCode(_) => true,
            _ => false,
        },
        SmtKind::WriteData => match r {
            Region::Symbolic(_) => true,
            _ => false,
        },
    }
}

/// A predicate that `address` lies, with room for `bytes` bytes, in one of
/// the regions that `kind` admits. An address that is not a variable is first
/// bound to a fresh one.
pub fn smt_address_constraint(
    regions: &Vec<Region>,
    address: &Exp,
    bytes: u32,
    kind: SmtKind,
    solver: &mut Solver,
) -> (r: Exp)
    requires
        old(solver).next_var < u32::MAX,
    ensures
        match *address {
            Exp::Var(v) => unchanged(*old(solver), *final(solver)) && r == address_constraint(
                regions@,
                v,
                bytes,
                kind,
            ),
            _ => {
                let v = old(solver).next_var;
                &&& final(solver).next_var == v + 1
                &&& final(solver).defs@ == old(solver).defs@.push(Def::DefineConst(v, *address))
                &&& final(solver).events@ == old(solver).events@
                &&& r == address_constraint(regions@, v, bytes, kind)
            },
        },
{
    let addr_var = match address {
        Exp::Var(v) => *v,
        _ => {
            let v = solver.fresh();
            solver.add(Def::DefineConst(v, copy_exp(address)));
            v
        },
    };
    let mut acc = Exp::Bool(false);
    let mut i: usize = 0;
    while i < regions.len()
        invariant
            i <= regions@.len(),
            acc == address_constraint(regions@.subrange(0, i as int), addr_var, bytes, kind),
        decreases regions@.len() - i,
    {
        let ghost s = regions@.subrange(0, i + 1);
        assert(s.subrange(0, s.len() - 1) =~= regions@.subrange(0, i as int));
        let r = &regions[i];
        let range = r.region_range();
        if admits_exec(kind, r) && range.start <= range.end && range.end - range.start >= bytes as u64 {
            let e = Exp::And(
                Box::new(Exp::Bvule(Box::new(Exp::Bits64(range.start, 64)), Box::new(Exp::Var(addr_var)))),
                Box::new(
                    Exp::Bvult(
                        Box::new(
                            Exp::Bvadd(
                                Box::new(Exp::ZeroExtend(65, Box::new(Exp::Var(addr_var)))),
                                Box::new(Exp::ZeroExtend(65, Box::new(Exp::Bits64(bytes as u64, 64)))),
                            ),
                        ),
                        Box::new(Exp::ZeroExtend(65, Box::new(Exp::Bits64(range.end, 64)))),
                    ),
                ),
            );
            acc = match acc {
                Exp::Bool(false) => e,
                other => Exp::Or(Box::new(other), Box::new(e)),
            };
        }
        i += 1;
    }
    assert(regions@.subrange(0, regions@.len() as int) =~= regions@);
    acc
}

impl<C: MemoryCallbacks> Memory<C> {
    /// The address predicate of `smt_address_constraint` over this memory's
    /// regions.
    pub fn smt_address_constraint(&self, address: &Exp, bytes: u32, kind: SmtKind, solver: &mut Solver) -> (r: Exp)
        requires
            old(solver).next_var < u32::MAX,
        ensures
            match *address {
                Exp::Var(v) => unchanged(*old(solver), *final(solver)) && r == address_constraint(
                    self.regions@,
                    v,
                    bytes,
                    kind,
                ),
                _ => {
                    let v = old(solver).next_var;
                    &&& final(solver).next_var == v + 1
                    &&& final(solver).defs@ == old(solver).defs@.push(Def::DefineConst(v, *address))
                    &&& final(solver).events@ == old(solver).events@
                    &&& r == address_constraint(self.regions@, v, bytes, kind)
                },
            },
    {
        smt_address_constraint(&self.regions, address, bytes, kind, solver)
    }
}

proof fn lemma_zero_le(s: Seq<u8>)
    requires
        forall|i: int| 0 <= i < s.len() ==> s[i] == 0,
    ensures
        le_value(s) == 0,
    decreases s.len(),
{
    if s.len() > 0 {
        lemma_zero_le(s.subrange(1, s.len() as int));
    }
}

/// Reading `n` bytes, for `n` of 1, 2, 4 or 8, from a concrete region that
/// holds zero (or nothing) at each of them gives the `8 * n`-bit zero.
pub proof fn lemma_zero_read(
    regions: Seq<Region>,
    hooked: bool,
    read_kind: Val,
    a: Address,
    n: u32,
    s0: Solver,
    s1: Solver,
    r: Result<Val, ExecError>,
)
    requires
        n == 1 || n == 2 || n == 4 || n == 8,
        region_for(regions, a) is Some,
        regions[region_for(regions, a)->0] is Concrete,
        forall|i: int|
            0 <= i < n ==> #[trigger] bytes_at(
                regions[region_for(regions, a)->0]->Concrete_1@,
                a,
                n as nat,
            )[i] == 0,
        read_outcome(regions, hooked, read_kind, address_val(a), n, s0, s1, r),
    ensures
        r == Ok::<Val, ExecError>(Val::Bits(Bits { bits: 0, length: (8 * n) as u32 })),
{
    let contents = regions[region_for(regions, a)->0]->Concrete_1@;
    lemma_zero_le(bytes_at(contents, a, n as nat));
}

} // verus!