//! Metrics events: plain records the surrounding program hands to its
//! metrics sink. The constructors here only assemble the rows.

use vstd::prelude::*;

verus! {

/// What happened to a mutation step, for the metrics log.
#[derive(Debug)]
pub struct MutationEvent {
    pub event: String,
    pub mutation_name: String,
    pub input_id: String,
    pub output_id: Option<String>,
}

impl MutationEvent {
    pub fn new(event: &str, mutation_name: String, input_id: String, output_id: Option<String>)
        -> (r: MutationEvent)
        ensures
            r.event@ == event@,
            r.mutation_name == mutation_name,
            r.input_id == input_id,
            r.output_id == output_id,
    {
        MutationEvent { event: event.to_owned(), mutation_name, input_id, output_id }
    }
}

/// A periodic snapshot of the fuzzing run's counters.
#[derive(Debug)]
pub struct HeartbeatEvent {
    pub objectives: u64,
    pub execs: u64,
    pub corpus: u64,
    pub coverage: u64,
    pub valid_execs: u64,
    pub valid_corpus: u64,
    pub valid_coverage: u64,
    pub total_edges: u64,
    pub labels: String,
}

/// Assemble a heartbeat row from the counters.
pub fn fire_heartbeat_event(
    coverage: u64,
    execs: u64,
    valid_execs: u64,
    valid_corpus: u64,
    corpus: u64,
) -> (r: HeartbeatEvent)
    ensures
        r.coverage == coverage,
        r.execs == execs,
        r.valid_execs == valid_execs,
        r.valid_corpus == valid_corpus,
        r.corpus == corpus,
        r.objectives == 0,
        r.valid_coverage == 0,
        r.total_edges == 0,
{
    HeartbeatEvent {
        objectives: 0,
        execs,
        corpus,
        coverage,
        valid_execs,
        valid_corpus,
        valid_coverage: 0,
        total_edges: 0,
        labels: String::new(),
    }
}

/// A skipped mutation, as a metrics row.
pub fn fire_mutation_skip_event(name: String, input: String) -> (r: MutationEvent)
    ensures
        r.mutation_name == name,
        r.input_id == input,
        r.output_id is None,
{
    MutationEvent::new("mutation_skip", name, input, None)
}

/// An undone mutation, as a metrics row.
pub fn fire_mutation_undo_event(name: String, input: String) -> (r: MutationEvent)
    ensures
        r.mutation_name == name,
        r.input_id == input,
        r.output_id is None,
{
    MutationEvent::new("mutation_undo", name, input, None)
}

/// A failed mutation, as a metrics row.
pub fn fire_mutation_error_event(name: String, input: String) -> (r: MutationEvent)
    ensures
        r.mutation_name == name,
        r.input_id == input,
        r.output_id is None,
{
    MutationEvent::new("mutation_error", name, input, None)
}

/// A successful mutation, as a metrics row naming the produced input.
pub fn fire_mutation_success_event(name: String, input: String, output: String) -> (r:
    MutationEvent)
    ensures
        r.mutation_name == name,
        r.input_id == input,
        r.output_id == Option::Some(output),
{
    MutationEvent::new("mutation_success", name, input, Some(output))
}

/// A mutation that changed nothing, as a metrics row.
pub fn fire_mutation_noop_event(name: String, input: String) -> (r: MutationEvent)
    ensures
        r.mutation_name == name,
        r.input_id == input,
        r.output_id is None,
{
    MutationEvent::new("mutation_noop", name, input, None)
}

} // verus!
