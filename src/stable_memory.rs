//! A memory region that remembers the values written to it, keyed by the
//! address of each write.
use vstd::prelude::*;
use std::collections::HashMap;
use crate::memory::{Address, ExecError};
use crate::smt::{Bits, Def, Solver, Ty, Val};

verus! {

broadcast use vstd::std_specs::hash::group_hash_axioms;

/// The low `n` bits set.
pub open spec fn low_mask(n: u32) -> u64 {
    if n >= 64 {
        u64::MAX
    } else {
        ((1u64 << n) - 1) as u64
    }
}

/// The `len` bits of `b` from bit `from` up.
pub open spec fn slice_bits(b: Bits, from: u32, len: u32) -> Bits {
    Bits { bits: (if from >= 64 { 0 } else { b.bits >> from }) & low_mask(len), length: len }
}

fn mask(n: u32) -> (m: u64)
    ensures
        m == low_mask(n),
{
    if n >= 64 {
        u64::MAX
    } else {
        assert(1u64 << n >= 1) by (bit_vector)
            requires
                n < 64,
        ;
        (1u64 << n) - 1
    }
}

fn slice(b: Bits, from: u32, len: u32) -> (r: Bits)
    ensures
        r == slice_bits(b, from, len),
{
    let shifted = if from >= 64 { 0 } else { b.bits >> from };
    Bits { bits: shifted & mask(len), length: len }
}

/// The nearest write below `a`, at most six bytes down, from `i` bytes down
/// on.
pub open spec fn left_write(data: Map<Address, Val>, a: Address, i: int) -> Option<int>
    decreases 7 - i,
{
    if i < 1 || i > 6 || a < i {
        None
    } else if data.contains_key((a - i) as Address) {
        Some(i)
    } else {
        left_write(data, a, i + 1)
    }
}

/// What a read of `bytes` bytes at `a` returns and declares; `fresh` is the
/// solver's next variable.
pub open spec fn stable_read(data: Map<Address, Val>, a: Address, bytes: u32, fresh: u32) -> (Result<Val, ExecError>, bool) {
    let bit_len = (8 * bytes) as u32;
    if data.contains_key(a) {
        match data[a] {
            Val::Bits(b) => if b.length < bit_len {
                (Ok(Val::Symbolic(fresh)), true)
            } else if b.length == bit_len {
                (Ok(Val::Bits(b)), false)
            } else {
                (Ok(Val::Bits(slice_bits(b, 0, bit_len))), false)
            },
            Val::Symbolic(_) => (Ok(Val::Symbolic(fresh)), true),
            _ => (Err(ExecError::BadRead), false),
        }
    } else {
        match left_write(data, a, 1) {
            Some(i) => (Ok(Val::Bits(slice_bits(data[(a - i) as Address]->Bits_0, (8 * i) as u32, bit_len))), false),
            None => (Ok(Val::Symbolic(fresh)), true),
        }
    }
}

/// The values written, by address.
#[derive(Debug)]
pub struct StableMemoryRegion {
    pub data: HashMap<Address, Val>,
}

impl StableMemoryRegion {
    /// A region with nothing written.
    pub fn new() -> (r: StableMemoryRegion)
        ensures
            r.data@ == Map::<Address, Val>::empty(),
    {
        StableMemoryRegion { data: HashMap::new() }
    }

    /// Reads `bytes` bytes at `address`: a value written there, cut to size
    /// when it is wider, or a part of a wider value written up to six bytes
    /// below; otherwise a fresh variable.
    pub fn read(&mut self, read_kind: Val, address: Address, bytes: u32, solver: &mut Solver) -> (r: Result<
        Val,
        ExecError,
    >)
        requires
            bytes <= 0x1fff_ffff,
            old(solver).next_var < u32::MAX,
            !old(self).data@.contains_key(address) ==> match left_write(old(self).data@, address, 1) {
                Some(i) => old(self).data@[(address - i) as Address] is Bits
                    && old(self).data@[(address - i) as Address]->Bits_0.length >= 8 * bytes + 8,
                None => true,
            },
        ensures
            final(self).data@ == old(self).data@,
            r == stable_read(old(self).data@, address, bytes, old(solver).next_var).0,
            final(solver).events@ == old(solver).events@,
            if stable_read(old(self).data@, address, bytes, old(solver).next_var).1 {
                &&& final(solver).next_var == old(solver).next_var + 1
                &&& final(solver).defs@ == old(solver).defs@.push(
                    Def::DeclareConst(old(solver).next_var, Ty::BitVec((8 * bytes) as u32)),
                )
            } else {
                unchanged_solver(*old(solver), *final(solver))
            },
    {
        let bit_len = bytes * 8;
        match self.data.get(&address) {
            Some(Val::Bits(b)) => {
                if b.length < bit_len {
                    let value = solver.fresh();
                    solver.add(Def::DeclareConst(value, Ty::BitVec(8 * bytes)));
                    Ok(Val::Symbolic(value))
                } else if b.length == bit_len {
                    Ok(Val::Bits(*b))
                } else {
                    Ok(Val::Bits(slice(*b, 0, bit_len)))
                }
            },
            Some(Val::Symbolic(_)) => {
                let value = solver.fresh();
                solver.add(Def::DeclareConst(value, Ty::BitVec(8 * bytes)));
                Ok(Val::Symbolic(value))
            },
            Some(_) => Err(ExecError::BadRead),
            None => {
                let mut i: u64 = 1;
                while i < 7 && i <= address
                    invariant
                        1 <= i <= 7,
                        !self.data@.contains_key(address),
                        left_write(self.data@, address, 1) == left_write(self.data@, address, i as int),
                        bit_len == 8 * bytes,
                        bytes <= 0x1fff_ffff,
                        match left_write(self.data@, address, 1) {
                            Some(j) => self.data@[(address - j) as Address] is Bits
                                && self.data@[(address - j) as Address]->Bits_0.length >= 8 * bytes + 8,
                            None => true,
                        },
                        self.data@ == old(self).data@,
                        *solver == *old(solver),
                    decreases 7 - i,
                {
                    if let Some(Val::Bits(b)) = self.data.get(&(address - i)) {
                        let overlap_bit_width: u32 = 8 * i as u32;
                        return Ok(Val::Bits(slice(*b, overlap_bit_width, bit_len)));
                    }
                    assert(!self.data@.contains_key((address - i) as Address));
                    i += 1;
                }
                assert(left_write(self.data@, address, i as int) is None);
                let value = solver.fresh();
                solver.add(Def::DeclareConst(value, Ty::BitVec(bit_len)));
                Ok(Val::Symbolic(value))
            },
        }
    }

    /// Remembers `data` as written at `address`.
    pub fn write(&mut self, address: Address, data: Val) -> (r: Val)
        ensures
            final(self).data@ == old(self).data@.insert(address, data),
            r == Val::Unit,
    {
        self.data.insert(address, data);
        Val::Unit
    }
}

/// The solver is as it was.
pub open spec fn unchanged_solver(s0: Solver, s1: Solver) -> bool {
    s1.next_var == s0.next_var && s1.defs@ == s0.defs@ && s1.events@ == s0.events@
}

} // verus!
