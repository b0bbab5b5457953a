use std::collections::HashMap;

use isla_footprint::analysis::{
    FootprintError, Footprintkey, TaskResult, collect_results, footprint_opcodes, insert_footprints, trim_path,
    uncached_opcodes,
};
use isla_footprint::footprint::Footprint;
use isla_footprint::smt::{Bits, Event, Val};

fn instr(op: u64) -> Event {
    Event::Instr(Val::Bits(Bits { bits: op, length: 32 }))
}

#[test]
fn opcodes_are_collected_once() {
    let threads = vec![
        vec![vec![instr(0xd28065e1), Event::Cycle, instr(0xf9400001)]],
        vec![vec![instr(0xd28065e1)], vec![Event::Fork(0), instr(7)]],
    ];
    let ops = footprint_opcodes(&threads).expect("concrete opcodes");
    assert_eq!(ops, vec![0xd28065e1, 0xf9400001, 7]);
}

#[test]
fn symbolic_opcode_is_rejected() {
    let threads = vec![vec![vec![instr(1), Event::Instr(Val::Symbolic(4))]]];
    assert_eq!(footprint_opcodes(&threads), Err(FootprintError::SymbolicInstruction));
}

#[test]
fn warm_cache_leaves_nothing_to_execute() {
    let ops = vec![1u64, 2, 3];
    let mut cache = HashMap::new();
    cache.insert(2u64, Footprint::new());
    assert_eq!(uncached_opcodes(&ops, &cache), vec![1, 3]);
    cache.insert(1u64, Footprint::new());
    cache.insert(3u64, Footprint::new());
    assert!(uncached_opcodes(&ops, &cache).is_empty());
}

#[test]
fn path_is_trimmed_to_execution_epoch() {
    // recorded newest first: the reversal puts initialization before the cycle marker
    let recorded = vec![
        Event::Branch { address: Val::Unit },
        Event::Instr(Val::Unit),
        Event::ReadReg(3, Vec::new(), Val::Unit),
        Event::Cycle,
        Event::ReadReg(1, Vec::new(), Val::Unit),
        Event::Cycle,
        Event::ReadReg(2, Vec::new(), Val::Unit),
    ];
    let trimmed = trim_path(recorded);
    assert_eq!(trimmed.len(), 3);
    assert!(matches!(trimmed[0], Event::ReadReg(1, _, _)));
    assert!(matches!(trimmed[1], Event::ReadReg(3, _, _)));
    assert!(matches!(trimmed[2], Event::Branch { .. }));
}

#[test]
fn path_without_cycle_is_empty() {
    let recorded = vec![Event::ReadReg(1, Vec::new(), Val::Unit), Event::Fork(2)];
    assert!(trim_path(recorded).is_empty());
}

#[test]
fn results_are_bucketed_by_task() {
    let results: Vec<TaskResult> = vec![
        Ok((1, vec![Event::ReadReg(5, Vec::new(), Val::Unit), Event::Cycle])),
        Ok((0, vec![Event::Cycle])),
        Ok((1, vec![Event::Cycle])),
    ];
    let buckets = collect_results(results, 3).expect("no errors");
    assert_eq!(buckets.len(), 3);
    assert_eq!(buckets[0].len(), 1);
    assert_eq!(buckets[1].len(), 2);
    assert_eq!(buckets[1][0].len(), 1);
    assert_eq!(buckets[2].len(), 0);
}

#[test]
fn first_worker_error_fails_the_run() {
    let results: Vec<TaskResult> = vec![
        Ok((0, vec![Event::Cycle])),
        Err("solver died".to_string()),
        Err("later".to_string()),
    ];
    let e = collect_results(results, 1).unwrap_err();
    assert_eq!(e, FootprintError::ExecutionError("solver died".to_string()));
    assert_eq!(e.message(), "solver died");
}

#[test]
fn footprints_join_the_result_map() {
    let mut map = HashMap::new();
    map.insert(9u64, Footprint::new());
    let buckets = vec![vec![vec![Event::WriteReg(1, Vec::new(), Val::Unit)]], vec![]];
    insert_footprints(&mut map, &vec![4u64, 5], &buckets, &Vec::new());
    assert_eq!(map.len(), 3);
    assert_eq!(map[&4].register_writes.len(), 1);
    assert_eq!(map[&5].register_writes.len(), 0);
    assert_eq!(map[&9].register_writes.len(), 0);
}

#[test]
fn cache_key_is_hex_opcode() {
    let k = Footprintkey::for_opcode(0xd28065e1);
    assert_eq!(k.opcode, "d28065e1");
    assert_eq!(k.key(), "opcode_d28065e1");
    assert_eq!(Footprintkey::for_opcode(0).key(), "opcode_0");
}

#[test]
fn error_messages() {
    assert_eq!(
        FootprintError::SymbolicInstruction.message(),
        "Instruction opcode found during footprint analysis was symbolic"
    );
    assert!(FootprintError::NoIslaFootprintFn.message().contains("isla_footprint"));
}
