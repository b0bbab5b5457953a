//! Symbolic values, solver definitions and trace events, together with a
//! solver context that records what a symbolic execution declares.
use vstd::prelude::*;

verus! {

/// An SMT variable.
pub type Sym = u32;

/// An index into the symbol table.
pub type Name = u32;

/// A concrete bitvector of at most 64 bits.
#[derive(Clone, Copy, Debug, PartialEq, Eq, Structural)]
pub struct Bits {
    pub bits: u64,
    pub length: u32,
}

/// A step into a structured register value.
#[derive(Clone, Copy, Debug, PartialEq, Eq, Structural, Hash)]
pub enum Accessor {
    Field(Name),
    Index(u64),
    Slice(u32, u32),
}

/// The values that the executor, the memory and the solver exchange.
#[derive(Debug)]
pub enum Val {
    Symbolic(Sym),
    Bits(Bits),
    Bool(bool),
    I64(i64),
    I128(i128),
    Unit,
    Struct(Vec<(Name, Val)>),
    Vector(Vec<Val>),
    Ctor(Name, Box<Val>),
}

/// SMT sorts.
#[derive(Clone, Copy, Debug, PartialEq, Eq, Structural)]
pub enum Ty {
    Bool,
    BitVec(u32),
}

/// SMT expressions.
#[derive(Debug)]
pub enum Exp {
    Var(Sym),
    Bits64(u64, u32),
    Bool(bool),
    Not(Box<Exp>),
    And(Box<Exp>, Box<Exp>),
    Or(Box<Exp>, Box<Exp>),
    Eq(Box<Exp>, Box<Exp>),
    Bvadd(Box<Exp>, Box<Exp>),
    Bvule(Box<Exp>, Box<Exp>),
    Bvult(Box<Exp>, Box<Exp>),
    ZeroExtend(u32, Box<Exp>),
}

/// Solver definitions and assertions.
#[derive(Debug)]
pub enum Def {
    DeclareConst(Sym, Ty),
    DefineConst(Sym, Exp),
    Assert(Exp),
}

/// The observable events of one execution path.
#[derive(Debug)]
pub enum Event {
    ReadReg(Name, Vec<Accessor>, Val),
    WriteReg(Name, Vec<Accessor>, Val),
    ReadMem { value: Val, read_kind: Val, address: Val, bytes: u32 },
    WriteMem { value: Sym, write_kind: Val, address: Val, data: Val, bytes: u32 },
    Branch { address: Val },
    Fork(Sym),
    Smt(Def),
    Cycle,
    Instr(Val),
}

/// The variables that occur in an expression, left to right.
pub open spec fn exp_syms(e: Exp) -> Seq<Sym>
    decreases e,
{
    match e {
        Exp::Var(v) => seq![v],
        Exp::Bits64(_, _) => seq![],
        Exp::Bool(_) => seq![],
        Exp::Not(a) => exp_syms(*a),
        Exp::ZeroExtend(_, a) => exp_syms(*a),
        Exp::And(a, b) => exp_syms(*a) + exp_syms(*b),
        Exp::Or(a, b) => exp_syms(*a) + exp_syms(*b),
        Exp::Eq(a, b) => exp_syms(*a) + exp_syms(*b),
        Exp::Bvadd(a, b) => exp_syms(*a) + exp_syms(*b),
        Exp::Bvule(a, b) => exp_syms(*a) + exp_syms(*b),
        Exp::Bvult(a, b) => exp_syms(*a) + exp_syms(*b),
    }
}

/// The variables that occur in a value, left to right.
pub open spec fn val_syms(v: Val) -> Seq<Sym>
    decreases v,
{
    match v {
        Val::Symbolic(s) => seq![s],
        Val::Struct(fields) => fields_syms(fields@),
        Val::Vector(vals) => vals_syms(vals@),
        Val::Ctor(_, inner) => val_syms(*inner),
        _ => seq![],
    }
}

/// The variables of a list of values.
pub open spec fn vals_syms(vals: Seq<Val>) -> Seq<Sym>
    decreases vals,
{
    if vals.len() == 0 {
        seq![]
    } else {
        vals_syms(vals.subrange(0, vals.len() - 1)) + val_syms(vals[vals.len() - 1])
    }
}

/// The variables of the fields of a struct value.
pub open spec fn fields_syms(fields: Seq<(Name, Val)>) -> Seq<Sym>
    decreases fields,
{
    if fields.len() == 0 {
        seq![]
    } else {
        fields_syms(fields.subrange(0, fields.len() - 1)) + val_syms(fields[fields.len() - 1].1)
    }
}

/// Appends the variables of `e` to `out`.
pub fn push_exp_syms(e: &Exp, out: &mut Vec<Sym>)
    ensures
        final(out)@ == old(out)@ + exp_syms(*e),
    decreases e,
{
    match e {
        Exp::Var(v) => {
            out.push(*v);
        },
        Exp::Bits64(_, _) => {},
        Exp::Bool(_) => {},
        Exp::Not(a) => push_exp_syms(a, out),
        Exp::ZeroExtend(_, a) => push_exp_syms(a, out),
        Exp::And(a, b) | Exp::Or(a, b) | Exp::Eq(a, b) | Exp::Bvadd(a, b) | Exp::Bvule(a, b)
        | Exp::Bvult(a, b) => {
            push_exp_syms(a, out);
            push_exp_syms(b, out);
            assert(final(out)@ =~= old(out)@ + exp_syms(*e));
        },
    }
}

/// Appends the variables of `v` to `out`.
pub fn push_val_syms(v: &Val, out: &mut Vec<Sym>)
    ensures
        final(out)@ == old(out)@ + val_syms(*v),
    decreases *v,
{
    match v {
        Val::Symbolic(s) => {
            out.push(*s);
        },
        Val::Struct(fields) => {
            let mut i: usize = 0;
            while i < fields.len()
                invariant
                    i <= fields.len(),
                    *v == Val::Struct(*fields),
                    out@ == old(out)@ + fields_syms(fields@.subrange(0, i as int)),
                decreases fields.len() - i,
            {
                proof {
                                        vstd::std_specs::vec::axiom_vec_decreases_to_view(*fields);
                    assert(decreases_to!(fields@ => fields@[i as int]));
                    assert(decreases_to!(fields@[i as int] => fields@[i as int].1));
                    assert(decreases_to!(*v => v->Struct_0));
                    assert(decreases_to!(*fields => fields@));
                }
                push_val_syms(&fields[i].1, out);
                assert(fields@.subrange(0, i + 1).subrange(0, i as int) =~= fields@.subrange(0, i as int));
                i += 1;
                assert(out@ =~= old(out)@ + fields_syms(fields@.subrange(0, i as int)));
            }
            assert(fields@.subrange(0, fields@.len() as int) =~= fields@);
        },
        Val::Vector(vals) => {
            let mut i: usize = 0;
            while i < vals.len()
                invariant
                    i <= vals.len(),
                    *v == Val::Vector(*vals),
                    out@ == old(out)@ + vals_syms(vals@.subrange(0, i as int)),
                decreases vals.len() - i,
            {
                proof {
                                        vstd::std_specs::vec::axiom_vec_decreases_to_view(*vals);
                    assert(decreases_to!(vals@ => vals@[i as int]));
                    assert(decreases_to!(*v => v->Vector_0));
                    assert(decreases_to!(*vals => vals@));
                }
                push_val_syms(&vals[i], out);
                assert(vals@.subrange(0, i + 1).subrange(0, i as int) =~= vals@.subrange(0, i as int));
                i += 1;
                assert(out@ =~= old(out)@ + vals_syms(vals@.subrange(0, i as int)));
            }
            assert(vals@.subrange(0, vals@.len() as int) =~= vals@);
        },
        Val::Ctor(_, inner) => push_val_syms(inner, out),
        _ => {
            assert(out@ =~= old(out)@ + val_syms(*v));
        },
    }
}

/// A solver context: the next fresh variable, and the definitions and events
/// that one execution path has recorded so far.
#[derive(Debug)]
pub struct Solver {
    pub next_var: Sym,
    pub defs: Vec<Def>,
    pub events: Vec<Event>,
}

impl Solver {
    /// A context with nothing declared.
    pub fn new() -> (s: Solver)
        ensures
            s.next_var == 0,
            s.defs@.len() == 0,
            s.events@.len() == 0,
    {
        Solver { next_var: 0, defs: Vec::new(), events: Vec::new() }
    }

    /// A variable that no earlier call returned.
    pub fn fresh(&mut self) -> (v: Sym)
        requires
            old(self).next_var < u32::MAX,
        ensures
            v == old(self).next_var,
            final(self).next_var == old(self).next_var + 1,
            final(self).defs@ == old(self).defs@,
            final(self).events@ == old(self).events@,
    {
        let v = self.next_var;
        self.next_var = v + 1;
        v
    }

    /// Records a definition or assertion.
    pub fn add(&mut self, def: Def)
        ensures
            final(self).next_var == old(self).next_var,
            final(self).defs@ == old(self).defs@.push(def),
            final(self).events@ == old(self).events@,
    {
        self.defs.push(def);
    }

    /// Records an event of the trace.
    pub fn add_event(&mut self, event: Event)
        ensures
            final(self).next_var == old(self).next_var,
            final(self).defs@ == old(self).defs@,
            final(self).events@ == old(self).events@.push(event),
    {
        self.events.push(event);
    }
}

} // verus!
