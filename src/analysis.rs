//! The decisions of a footprint analysis run: which opcodes the traces
//! execute, which of them need a symbolic execution, how an executed path is
//! trimmed, how worker results are gathered, and how the footprints are
//! assembled into the result map.
use vstd::prelude::*;
use vstd::string::StringExecFns;
use std::collections::HashMap;
use crate::footprint::{Footprint, footprint_of_paths, paths_footprint};
use crate::smt::{Event, Name, Val};

verus! {

broadcast use vstd::std_specs::hash::group_hash_axioms;

/// What to tell the user when the semantics lacks the footprint function.
pub const NO_FOOTPRINT_FN_MESSAGE: &'static str = "Footprint analysis failed. To calculate the syntactic\n\
     register footprint, isla expects a sail function\n\
     `isla_footprint' to be available in the model, which\n\
     can be used to decode and execute an instruction";

/// Why a footprint analysis fails.
#[derive(Debug, PartialEq, Eq)]
pub enum FootprintError {
    /// The semantics has no footprint function.
    NoIslaFootprintFn,
    /// A trace executes an instruction whose opcode is symbolic.
    SymbolicInstruction,
    /// A worker reported an error.
    ExecutionError(String),
}

impl FootprintError {
    /// A description of the error for the user.
    pub fn message(&self) -> (m: String)
        ensures
            self is ExecutionError ==> m@ == self->ExecutionError_0@,
            self is SymbolicInstruction ==> m@
                == "Instruction opcode found during footprint analysis was symbolic"@,
            self is NoIslaFootprintFn ==> m@ == NO_FOOTPRINT_FN_MESSAGE@,
    {
        match self {
            FootprintError::NoIslaFootprintFn => String::from_str(NO_FOOTPRINT_FN_MESSAGE),
            FootprintError::SymbolicInstruction => String::from_str(
                "Instruction opcode found during footprint analysis was symbolic",
            ),
            FootprintError::ExecutionError(msg) => msg.clone(),
        }
    }
}

/// Whether the event is the execution of opcode `o`.
pub open spec fn executes(e: Event, o: u64) -> bool {
    match e {
        Event::Instr(Val::Bits(b)) => b.bits == o,
        _ => false,
    }
}

/// The opcodes that the instructions of a path execute.
pub open spec fn path_opcodes(path: Seq<Event>) -> Set<u64> {
    Set::new(|o: u64| exists|i: int| 0 <= i < path.len() && executes(path[i], o))
}

/// Whether a path executes an instruction whose opcode is not concrete.
pub open spec fn path_symbolic(path: Seq<Event>) -> bool {
    exists|i: int| 0 <= i < path.len() && #[trigger] path[i] is Instr && !(path[i]->Instr_0 is Bits)
}

/// The opcodes that the paths of all threads execute.
pub open spec fn threads_opcodes(threads: Seq<Vec<Vec<Event>>>) -> Set<u64> {
    Set::new(
        |o: u64|
            exists|t: int, p: int|
                0 <= t < threads.len() && 0 <= p < threads[t]@.len() && #[trigger] path_opcodes(
                    threads[t]@[p]@,
                ).contains(o),
    )
}

/// Whether some path of some thread executes a symbolic instruction.
pub open spec fn threads_symbolic(threads: Seq<Vec<Vec<Event>>>) -> bool {
    exists|t: int, p: int|
        0 <= t < threads.len() && 0 <= p < threads[t]@.len() && #[trigger] path_symbolic(threads[t]@[p]@)
}

fn listed(v: &Vec<u64>, o: u64) -> (b: bool)
    ensures
        b == v@.contains(o),
{
    let mut i: usize = 0;
    while i < v.len()
        invariant
            i <= v@.len(),
            forall|j: int| 0 <= j < i ==> v@[j] != o,
        decreases v@.len() - i,
    {
        if v[i] == o {
            return true;
        }
        i += 1;
    }
    false
}

/// Adds the opcodes of `path` to `ops`; false when an instruction of the path
/// is symbolic.
fn add_path_opcodes(path: &Vec<Event>, ops: &mut Vec<u64>) -> (ok: bool)
    requires
        old(ops)@.no_duplicates(),
    ensures
        final(ops)@.no_duplicates(),
        ok == !path_symbolic(path@),
        ok ==> final(ops)@.to_set() == old(ops)@.to_set().union(path_opcodes(path@)),
{
    let mut i: usize = 0;
    while i < path.len()
        invariant
            i <= path@.len(),
            ops@.no_duplicates(),
            forall|j: int| 0 <= j < i ==> !(#[trigger] path@[j] is Instr && !(path@[j]->Instr_0 is Bits)),
            forall|o: u64|
                #[trigger] ops@.contains(o) <==> (old(ops)@.contains(o) || exists|j: int|
                    0 <= j < i && executes(path@[j], o)),
        decreases path@.len() - i,
    {
        let ghost before = ops@;
        match &path[i] {
            Event::Instr(Val::Bits(b)) => {
                if !listed(ops, b.bits) {
                    ops.push(b.bits);
                    assert forall|o: u64| #[trigger] ops@.contains(o) <==> (before.contains(o) || o == b.bits) by {
                        if ops@.contains(o) {
                            let k = choose|k: int| 0 <= k < ops@.len() && ops@[k] == o;
                            if k < before.len() {
                                assert(before[k] == o);
                            }
                        }
                        if before.contains(o) {
                            let k = choose|k: int| 0 <= k < before.len() && before[k] == o;
                            assert(ops@[k] == o);
                        }
                        if o == b.bits {
                            assert(ops@[before.len() as int] == o);
                        }
                    }
                }
            },
            Event::Instr(_) => {
                assert(path_symbolic(path@)) by {
                    assert(path@[i as int] is Instr && !(path@[i as int]->Instr_0 is Bits));
                }
                return false;
            },
            _ => {},
        }
        assert forall|o: u64|
            #[trigger] ops@.contains(o) <==> (old(ops)@.contains(o) || exists|j: int|
                0 <= j < i + 1 && executes(path@[j], o)) by {
            if exists|j: int| 0 <= j < i + 1 && executes(path@[j], o) {
                let j = choose|j: int| 0 <= j < i + 1 && executes(path@[j], o);
                if j < i {
                    assert(exists|j: int| 0 <= j < i && executes(path@[j], o));
                }
            }
            if exists|j: int| 0 <= j < i && executes(path@[j], o) {
                let j = choose|j: int| 0 <= j < i && executes(path@[j], o);
                assert(0 <= j < i + 1 && executes(path@[j], o));
            }
        }
        i += 1;
    }
    assert(ops@.to_set() =~= old(ops)@.to_set().union(path_opcodes(path@)));
    true
}

/// Whether path `p` of thread `t` comes before path `pp` of thread `tt`.
pub open spec fn before(threads: Seq<Vec<Vec<Event>>>, t: int, p: int, tt: int, pp: int) -> bool {
    &&& 0 <= t < threads.len()
    &&& 0 <= p < threads[t]@.len()
    &&& (t < tt || (t == tt && p < pp))
}

/// The opcodes of the paths before path `pp` of thread `tt`.
pub open spec fn seen_opcodes(threads: Seq<Vec<Vec<Event>>>, tt: int, pp: int) -> Set<u64> {
    Set::new(
        |o: u64|
            exists|t: int, p: int|
                before(threads, t, p, tt, pp) && #[trigger] path_opcodes(threads[t]@[p]@).contains(o),
    )
}

/// The distinct opcodes that the traces execute; an error when one of their
/// instructions is symbolic.
pub fn footprint_opcodes(threads: &Vec<Vec<Vec<Event>>>) -> (r: Result<Vec<u64>, FootprintError>)
    ensures
        match r {
            Ok(ops) => {
                &&& !threads_symbolic(threads@)
                &&& ops@.no_duplicates()
                &&& ops@.to_set() == threads_opcodes(threads@)
            },
            Err(e) => threads_symbolic(threads@) && e == FootprintError::SymbolicInstruction,
        },
{
    let mut ops: Vec<u64> = Vec::new();
    let mut t: usize = 0;
    assert(ops@.to_set() =~= seen_opcodes(threads@, 0, 0));
    while t < threads.len()
        invariant
            t <= threads@.len(),
            ops@.no_duplicates(),
            ops@.to_set() == seen_opcodes(threads@, t as int, 0),
            forall|tp: int, pp: int|
                before(threads@, tp, pp, t as int, 0) ==> !#[trigger] path_symbolic(threads@[tp]@[pp]@),
        decreases threads@.len() - t,
    {
        let mut p: usize = 0;
        while p < threads[t].len()
            invariant
                t < threads@.len(),
                p <= threads@[t as int]@.len(),
                ops@.no_duplicates(),
                ops@.to_set() == seen_opcodes(threads@, t as int, p as int),
                forall|tp: int, pp: int|
                    before(threads@, tp, pp, t as int, p as int) ==> !#[trigger] path_symbolic(
                        threads@[tp]@[pp]@,
                    ),
            decreases threads@[t as int]@.len() - p,
        {
            let ghost pre = ops@;
            if !add_path_opcodes(&threads[t][p], &mut ops) {
                assert(before(threads@, t as int, p as int, t + 1, 0));
                return Err(FootprintError::SymbolicInstruction);
            }
            assert(ops@.to_set() =~= seen_opcodes(threads@, t as int, p + 1)) by {
                assert forall|o: u64| seen_opcodes(threads@, t as int, p + 1).contains(o) implies #[trigger] ops@.to_set().contains(o) by {
                    let (tp, pp) = choose|tp: int, pp: int|
                        before(threads@, tp, pp, t as int, p + 1) && #[trigger] path_opcodes(threads@[tp]@[pp]@).contains(o);
                    if !(tp == t && pp == p) {
                        assert(before(threads@, tp, pp, t as int, p as int));
                        assert(seen_opcodes(threads@, t as int, p as int).contains(o));
                    }
                }
                assert forall|o: u64| #[trigger] ops@.to_set().contains(o) implies seen_opcodes(threads@, t as int, p + 1).contains(o) by {
                    if pre.to_set().contains(o) {
                        let (tp, pp) = choose|tp: int, pp: int|
                            before(threads@, tp, pp, t as int, p as int) && #[trigger] path_opcodes(threads@[tp]@[pp]@).contains(o);
                        assert(before(threads@, tp, pp, t as int, p + 1));
                    } else {
                        assert(before(threads@, t as int, p as int, t as int, p + 1));
                        assert(path_opcodes(threads@[t as int]@[p as int]@).contains(o));
                    }
                }
            }
            p += 1;
        }
        assert(ops@.to_set() =~= seen_opcodes(threads@, t + 1, 0)) by {
            assert forall|o: u64| seen_opcodes(threads@, t + 1, 0).contains(o) implies #[trigger] ops@.to_set().contains(o) by {
                let (tp, pp) = choose|tp: int, pp: int|
                    before(threads@, tp, pp, t + 1, 0) && #[trigger] path_opcodes(threads@[tp]@[pp]@).contains(o);
                assert(before(threads@, tp, pp, t as int, p as int));
            }
            assert forall|o: u64| #[trigger] ops@.to_set().contains(o) implies seen_opcodes(threads@, t + 1, 0).contains(o) by {
                let (tp, pp) = choose|tp: int, pp: int|
                    before(threads@, tp, pp, t as int, p as int) && #[trigger] path_opcodes(threads@[tp]@[pp]@).contains(o);
                assert(before(threads@, tp, pp, t + 1, 0));
            }
        }
        assert forall|tp: int, pp: int| before(threads@, tp, pp, t + 1, 0) implies !#[trigger] path_symbolic(
            threads@[tp]@[pp]@,
        ) by {
            assert(before(threads@, tp, pp, t as int, p as int));
        }
        t += 1;
    }
    assert(ops@.to_set() =~= threads_opcodes(threads@)) by {
        assert forall|o: u64| threads_opcodes(threads@).contains(o) implies #[trigger] ops@.to_set().contains(o) by {
            let (tp, pp) = choose|tp: int, pp: int|
                0 <= tp < threads@.len() && 0 <= pp < threads@[tp]@.len() && #[trigger] path_opcodes(threads@[tp]@[pp]@).contains(o);
            assert(before(threads@, tp, pp, t as int, 0));
        }
    }
    assert(!threads_symbolic(threads@)) by {
        assert forall|tp: int, pp: int| 0 <= tp < threads@.len() && 0 <= pp < threads@[tp]@.len() implies !#[trigger] path_symbolic(threads@[tp]@[pp]@) by {
            assert(before(threads@, tp, pp, t as int, 0));
        }
    }
    Ok(ops)
}

/// The opcodes of `ops` that `cache` does not hold, in order.
pub open spec fn uncached(ops: Seq<u64>, cache: Map<u64, Footprint>) -> Seq<u64>
    decreases ops.len(),
{
    if ops.len() == 0 {
        seq![]
    } else {
        let rest = uncached(ops.subrange(0, ops.len() - 1), cache);
        if cache.contains_key(ops[ops.len() - 1]) {
            rest
        } else {
            rest.push(ops[ops.len() - 1])
        }
    }
}

/// The opcodes that need a symbolic execution: those the cache lacks.
pub fn uncached_opcodes(ops: &Vec<u64>, cache: &HashMap<u64, Footprint>) -> (r: Vec<u64>)
    ensures
        r@ == uncached(ops@, cache@),
{
    let mut r: Vec<u64> = Vec::new();
    let mut i: usize = 0;
    while i < ops.len()
        invariant
            i <= ops@.len(),
            r@ == uncached(ops@.subrange(0, i as int), cache@),
        decreases ops@.len() - i,
    {
        let ghost s = ops@.subrange(0, i + 1);
        assert(s.subrange(0, i as int) =~= ops@.subrange(0, i as int));
        if !cache.contains_key(&ops[i]) {
            r.push(ops[i]);
        }
        i += 1;
    }
    assert(ops@.subrange(0, ops@.len() as int) =~= ops@);
    r
}

/// With every opcode already in the cache, nothing is left to execute.
pub proof fn lemma_warm_cache_executes_nothing(ops: Seq<u64>, cache: Map<u64, Footprint>)
    requires
        forall|i: int| 0 <= i < ops.len() ==> cache.contains_key(#[trigger] ops[i]),
    ensures
        uncached(ops, cache).len() == 0,
    decreases ops.len(),
{
    if ops.len() > 0 {
        let init = ops.subrange(0, ops.len() - 1);
        assert forall|i: int| 0 <= i < init.len() implies cache.contains_key(#[trigger] init[i]) by {
            assert(init[i] == ops[i]);
        }
        lemma_warm_cache_executes_nothing(init, cache);
    }
}

/// Whether an event matters to the footprint.
pub open spec fn relevant(e: Event) -> bool {
    e is ReadReg || e is WriteReg || e is ReadMem || e is WriteMem || e is Branch || e is Smt || e is Fork
}

/// The relevant events of `s`, in order.
pub open spec fn relevant_events(s: Seq<Event>) -> Seq<Event>
    decreases s.len(),
{
    if s.len() == 0 {
        seq![]
    } else {
        let rest = relevant_events(s.subrange(0, s.len() - 1));
        if relevant(s[s.len() - 1]) {
            rest.push(s[s.len() - 1])
        } else {
            rest
        }
    }
}

/// The position of the first cycle marker of `s`, or its length.
pub open spec fn first_cycle(s: Seq<Event>) -> int
    decreases s.len(),
{
    if s.len() == 0 {
        0
    } else if s[0] is Cycle {
        0
    } else {
        1 + first_cycle(s.subrange(1, s.len() as int))
    }
}

proof fn lemma_first_cycle(s: Seq<Event>)
    ensures
        0 <= first_cycle(s) <= s.len(),
        forall|j: int| 0 <= j < first_cycle(s) ==> !(#[trigger] s[j] is Cycle),
        first_cycle(s) < s.len() ==> s[first_cycle(s)] is Cycle,
    decreases s.len(),
{
    if s.len() > 0 && !(s[0] is Cycle) {
        let t = s.subrange(1, s.len() as int);
        lemma_first_cycle(t);
        assert forall|j: int| 0 <= j < first_cycle(s) implies !(#[trigger] s[j] is Cycle) by {
            if j > 0 {
                assert(s[j] == t[j - 1]);
            }
        }
    }
}

/// A recorded path as the analysis reads it: oldest event first, from the
/// first cycle marker on, and only the events that matter.
pub open spec fn trimmed(events: Seq<Event>) -> Seq<Event> {
    let r = events.reverse();
    relevant_events(r.subrange(first_cycle(r), r.len() as int))
}

fn is_relevant(e: &Event) -> (b: bool)
    ensures
        b == relevant(*e),
{
    match e {
        Event::ReadReg(..) | Event::WriteReg(..) | Event::ReadMem { .. } | Event::WriteMem { .. }
        | Event::Branch { .. } | Event::Smt(_) | Event::Fork(_) => true,
        _ => false,
    }
}

/// Trims a recorded path for the analysis.
pub fn trim_path(events: Vec<Event>) -> (r: Vec<Event>)
    ensures
        r@ == trimmed(events@),
{
    let ghost rev = events@.reverse();
    let ghost k = first_cycle(rev);
    proof {
        lemma_first_cycle(rev);
    }
    let mut events = events;
    let n = events.len();
    let mut out: Vec<Event> = Vec::new();
    let mut started = false;
    let mut j: usize = 0;
    while j < n
        invariant
            j <= n == rev.len(),
            k == first_cycle(rev),
            0 <= k <= rev.len(),
            forall|i: int| 0 <= i < k ==> !(#[trigger] rev[i] is Cycle),
            k < rev.len() ==> rev[k] is Cycle,
            events@.len() == n - j,
            forall|i: int| 0 <= i < events@.len() ==> events@[i] == rev[n - 1 - i],
            started == (k < j),
            started ==> out@ == relevant_events(rev.subrange(k, j as int)),
            !started ==> out@.len() == 0,
        decreases n - j,
    {
        let e = events.pop().unwrap();
        assert(e == rev[j as int]);
        if !started {
            match e {
                Event::Cycle => {
                    started = true;
                    assert(j == k);
                    let ghost t = rev.subrange(k, j + 1);
                    assert(t.subrange(0, t.len() - 1) =~= Seq::<Event>::empty());
                    assert(t[t.len() - 1] == rev[k]);
                    assert(!relevant(t[t.len() - 1]));
                    assert(relevant_events(t.subrange(0, t.len() - 1)) =~= Seq::<Event>::empty());
                    assert(relevant_events(rev.subrange(k, j + 1)) == Seq::<Event>::empty());
                },
                _ => {},
            }
        } else {
            let ghost t = rev.subrange(k, j + 1);
            assert(t.subrange(0, t.len() - 1) =~= rev.subrange(k, j as int));
            if is_relevant(&e) {
                out.push(e);
            }
        }
        j += 1;
    }
    if !started {
        assert(rev.subrange(k, rev.len() as int) =~= Seq::<Event>::empty());
    }
    out
}

/// A worker's report: the task and the events of one path it completed, or
/// an error message.
pub type TaskResult = Result<(usize, Vec<Event>), String>;

/// The trimmed paths that `results` report for task `t`, in order.
pub open spec fn task_paths(results: Seq<TaskResult>, t: int) -> Seq<Seq<Event>>
    decreases results.len(),
{
    if results.len() == 0 {
        seq![]
    } else {
        let rest = task_paths(results.subrange(0, results.len() - 1), t);
        match results[results.len() - 1] {
            Ok((id, evs)) => if id == t {
                rest.push(trimmed(evs@))
            } else {
                rest
            },
            Err(_) => rest,
        }
    }
}

/// The events of each path of a list of paths.
pub open spec fn path_views(paths: Seq<Vec<Event>>) -> Seq<Seq<Event>> {
    paths.map_values(|p: Vec<Event>| p@)
}

/// Gathers the reported paths of `n` tasks, one list per task; the first
/// error reported, if any, fails the whole run.
pub fn collect_results(results: Vec<TaskResult>, n: usize) -> (r: Result<Vec<Vec<Vec<Event>>>, FootprintError>)
    requires
        forall|i: int| 0 <= i < results@.len() && (#[trigger] results@[i]) is Ok ==> results@[i]->Ok_0.0 < n,
    ensures
        match r {
            Ok(buckets) => {
                &&& forall|i: int| 0 <= i < results@.len() ==> (#[trigger] results@[i]) is Ok
                &&& buckets@.len() == n
                &&& forall|t: int| 0 <= t < n ==> path_views(#[trigger] buckets@[t]@) == task_paths(results@, t)
            },
            Err(e) => exists|j: int|
                0 <= j < results@.len() && (#[trigger] results@[j]) is Err && (forall|i: int|
                    0 <= i < j ==> (#[trigger] results@[i]) is Ok) && e == FootprintError::ExecutionError(
                    results@[j]->Err_0,
                ),
        },
{
    let ghost all = results@;
    let total = results.len();
    let mut buckets: Vec<Vec<Vec<Event>>> = Vec::new();
    let mut t: usize = 0;
    while t < n
        invariant
            t <= n,
            buckets@.len() == t,
            forall|u: int| 0 <= u < t ==> (#[trigger] buckets@[u])@.len() == 0,
        decreases n - t,
    {
        buckets.push(Vec::new());
        t += 1;
    }
    assert(all.subrange(0, 0) =~= Seq::<TaskResult>::empty());
    assert forall|u: int| 0 <= u < n implies path_views(#[trigger] buckets@[u]@) == task_paths(all.subrange(0, 0), u) by {
        assert(path_views(buckets@[u]@) =~= Seq::<Seq<Event>>::empty());
    }
    let mut pending = results;
    let mut i: usize = 0;
    while pending.len() > 0
        invariant
            i <= all.len(),
            all.len() == total,
            all == results@,
            pending@ == all.subrange(i as int, all.len() as int),
            buckets@.len() == n,
            forall|k: int| 0 <= k < all.len() && (#[trigger] all[k]) is Ok ==> all[k]->Ok_0.0 < n,
            forall|k: int| 0 <= k < i ==> (#[trigger] all[k]) is Ok,
            forall|u: int| 0 <= u < n ==> path_views(#[trigger] buckets@[u]@) == task_paths(all.subrange(0, i as int), u),
        decreases pending@.len(),
    {
        let item = pending.remove(0);
        assert(item == all[i as int]);
        let ghost pre = all.subrange(0, i + 1);
        assert(pre.subrange(0, i as int) =~= all.subrange(0, i as int));
        match item {
            Ok((id, events)) => {
                let ghost evs = events@;
                let path = trim_path(events);
                let mut b = buckets.remove(id);
                let ghost old_b = b@;
                b.push(path);
                buckets.insert(id, b);
                assert forall|u: int| 0 <= u < n implies path_views(#[trigger] buckets@[u]@) == task_paths(pre, u) by {
                    if u == id {
                        assert(path_views(buckets@[u]@) =~= path_views(old_b).push(trimmed(evs)));
                    }
                }
            },
            Err(msg) => {
                assert(all[i as int] is Err);
                assert(FootprintError::ExecutionError(msg) == FootprintError::ExecutionError(all[i as int]->Err_0));
                assert(0 <= i < all.len() && all[i as int] is Err && (forall|k: int| 0 <= k < i ==> (#[trigger] all[k]) is Ok));
                return Err(FootprintError::ExecutionError(msg));
            },
        }
        i += 1;
    }
    assert(all.subrange(0, i as int) =~= all);
    Ok(buckets)
}

/// Puts the footprint of each opcode, folded from that opcode's paths, into
/// the result map.
pub fn insert_footprints(
    footprints: &mut HashMap<u64, Footprint>,
    opcodes: &Vec<u64>,
    buckets: &Vec<Vec<Vec<Event>>>,
    ignored: &Vec<Name>,
)
    requires
        opcodes@.len() == buckets@.len(),
        opcodes@.no_duplicates(),
    ensures
        forall|i: int|
            0 <= i < opcodes@.len() ==> final(footprints)@.contains_key(#[trigger] opcodes@[i])
                && final(footprints)@[opcodes@[i]]@ == paths_footprint(buckets@[i]@, ignored@),
        forall|o: u64|
            !opcodes@.contains(o) ==> (#[trigger] final(footprints)@.contains_key(o) == old(
                footprints,
            )@.contains_key(o) && (old(footprints)@.contains_key(o) ==> final(footprints)@[o]
                == old(footprints)@[o])),
{
    let mut i: usize = 0;
    while i < opcodes.len()
        invariant
            i <= opcodes@.len() == buckets@.len(),
            opcodes@.no_duplicates(),
            forall|j: int|
                0 <= j < i ==> footprints@.contains_key(#[trigger] opcodes@[j])
                    && footprints@[opcodes@[j]]@ == paths_footprint(buckets@[j]@, ignored@),
            forall|o: u64|
                !opcodes@.subrange(0, i as int).contains(o) ==> (#[trigger] footprints@.contains_key(o)
                    == old(footprints)@.contains_key(o) && (old(footprints)@.contains_key(o)
                    ==> footprints@[o] == old(footprints)@[o])),
        decreases opcodes@.len() - i,
    {
        let fp = footprint_of_paths(&buckets[i], ignored);
        footprints.insert(opcodes[i], fp);
        assert forall|j: int| 0 <= j < i + 1 implies footprints@.contains_key(#[trigger] opcodes@[j])
            && footprints@[opcodes@[j]]@ == paths_footprint(buckets@[j]@, ignored@) by {
            if j < i {
                assert(opcodes@[j] != opcodes@[i as int]);
            }
        }
        assert forall|o: u64| !opcodes@.subrange(0, i + 1).contains(o) implies (#[trigger] footprints@.contains_key(o)
            == old(footprints)@.contains_key(o) && (old(footprints)@.contains_key(o)
            ==> footprints@[o] == old(footprints)@[o])) by {
            assert(opcodes@.subrange(0, i + 1)[i as int] == opcodes@[i as int]);
            if opcodes@.subrange(0, i as int).contains(o) {
                let k = choose|k: int| 0 <= k < i && opcodes@.subrange(0, i as int)[k] == o;
                assert(opcodes@.subrange(0, i + 1)[k] == o);
            }
        }
        i += 1;
    }
    assert(opcodes@.subrange(0, opcodes@.len() as int) =~= opcodes@);
}

/// The lowercase hexadecimal digit of `d`.
pub open spec fn hex_char(d: u64) -> char {
    seq!['0', '1', '2', '3', '4', '5', '6', '7', '8', '9', 'a', 'b', 'c', 'd', 'e', 'f'][(d % 16) as int]
}

/// The lowercase hexadecimal digits of `v`, without leading zeros.
pub open spec fn hex_digits(v: u64) -> Seq<char>
    decreases v,
{
    if v < 16 {
        seq![hex_char(v)]
    } else {
        hex_digits(v / 16) + seq![hex_char(v % 16)]
    }
}

/// Relies on std's `LowerHex` formatting of `u64` (`format!("{:x}")`):
/// lowercase digits, no prefix, no leading zeros.
#[verifier::external_body]
fn lower_hex(v: u64) -> (r: String)
    ensures
        r@ == hex_digits(v),
{
    format!("{:x}", v)
}

/// The lowercase hexadecimal digits of an address.
pub fn lower_hex_addr(v: u64) -> (r: String)
    ensures
        r@ == hex_digits(v),
{
    lower_hex(v)
}

/// The cache key of an opcode's footprint.
#[derive(Debug)]
pub struct Footprintkey {
    pub opcode: String,
}

impl Footprintkey {
    /// The key of `opcode`, written in hexadecimal.
    pub fn for_opcode(opcode: u64) -> (k: Footprintkey)
        ensures
            k.opcode@ == hex_digits(opcode),
    {
        Footprintkey { opcode: lower_hex(opcode) }
    }

    /// The name of the cache file: `opcode_` and the opcode.
    pub fn key(&self) -> (r: String)
        ensures
            r@ == "opcode_"@ + self.opcode@,
    {
        let mut r = String::from_str("opcode_");
        r.append(self.opcode.as_str());
        r
    }
}

} // verus!
