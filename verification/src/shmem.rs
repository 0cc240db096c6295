//! Model of the shared-memory record the worker fills while executing an
//! input: edge total, validity flag, call count, and the coverage map whose
//! cells saturate by wrapping to one.

use vstd::prelude::*;

use crate::COVERAGE_MAP_SIZE;

verus! {

/// The shared region's contents: `total_edges`, `is_valid`,
/// `num_calls_executed` and the fixed-size coverage map. The worker writes
/// it during a run; the supervisor reads it between runs.
#[derive(Debug)]
pub struct ShMemView {
    pub total_edges: u32,
    pub is_valid: bool,
    pub num_calls_executed: u32,
    pub coverage: Vec<u8>,
}

/// A well-formed view has exactly the fixed coverage size.
pub open spec fn shmem_wf(v: ShMemView) -> bool {
    v.coverage@.len() == COVERAGE_MAP_SIZE
}

/// The cell update on an edge hit: count up, and wrap a saturated cell back
/// to one so it never reads as never-hit again.
pub open spec fn spec_hit_cell(c: u8) -> u8 {
    if c == 255 {
        1
    } else {
        (c + 1) as u8
    }
}

impl ShMemView {
    /// A fresh, zeroed region.
    pub fn new() -> (r: ShMemView)
        ensures
            shmem_wf(r),
            r.total_edges == 0,
            !r.is_valid,
            r.num_calls_executed == 0,
            forall|i: int| 0 <= i < r.coverage@.len() ==> r.coverage@[i] == 0,
    {
        let mut coverage: Vec<u8> = Vec::new();
        let mut i: usize = 0;
        while i < COVERAGE_MAP_SIZE
            invariant
                i <= COVERAGE_MAP_SIZE,
                coverage@.len() == i,
                forall|j: int| 0 <= j < i ==> coverage@[j] == 0,
            decreases COVERAGE_MAP_SIZE - i,
        {
            coverage.push(0);
            i = i + 1;
        }
        ShMemView { total_edges: 0, is_valid: false, num_calls_executed: 0, coverage }
    }

    /// The coverage map, mutably.
    pub fn coverage_mut(&mut self) -> (r: &mut Vec<u8>)
        ensures
            *r == old(self).coverage,
            final(self).coverage == *final(r),
            final(self).total_edges == old(self).total_edges,
            final(self).is_valid == old(self).is_valid,
            final(self).num_calls_executed == old(self).num_calls_executed,
    {
        &mut self.coverage
    }

    /// The validity flag.
    pub fn is_valid(&self) -> (r: bool)
        ensures
            r == self.is_valid,
    {
        self.is_valid
    }

    /// Overwrite the validity flag; the harness resets it to true before
    /// each run, and the worker clears it on a known-invalid input.
    pub fn set_is_valid(&mut self, v: bool)
        ensures
            *final(self) == (ShMemView { is_valid: v, ..*old(self) }),
    {
        self.is_valid = v;
    }

    /// Total number of instrumented edges the worker has registered.
    pub fn total_edges(&self) -> (r: u32)
        ensures
            r == self.total_edges,
    {
        self.total_edges
    }

    /// Overwrite the edge total.
    pub fn set_total_edges(&mut self, v: u32)
        ensures
            *final(self) == (ShMemView { total_edges: v, ..*old(self) }),
    {
        self.total_edges = v;
    }

    /// How many calls of the input the worker executed.
    pub fn num_calls_executed(&self) -> (r: u32)
        ensures
            r == self.num_calls_executed,
    {
        self.num_calls_executed
    }

    /// Overwrite the executed-call count.
    pub fn set_num_calls_executed(&mut self, v: u32)
        ensures
            *final(self) == (ShMemView { num_calls_executed: v, ..*old(self) }),
    {
        self.num_calls_executed = v;
    }

    /// Record a hit on an edge: the edge id is reduced into the map, and
    /// its cell counts up, wrapping from the saturation value back to one.
    pub fn record_hit(&mut self, edge_id: usize)
        requires
            old(self).coverage@.len() > 0,
        ensures
            final(self).coverage@ == old(self).coverage@.update(
                (edge_id as int) % (old(self).coverage@.len() as int),
                spec_hit_cell(
                    old(self).coverage@[(edge_id as int) % (old(self).coverage@.len() as int)],
                ),
            ),
            final(self).total_edges == old(self).total_edges,
            final(self).is_valid == old(self).is_valid,
            final(self).num_calls_executed == old(self).num_calls_executed,
    {
        let cell = edge_id % self.coverage.len();
        let c = self.coverage[cell];
        let c2: u8 = if c == 255 {
            1
        } else {
            c + 1
        };
        self.coverage.set(cell, c2);
    }
}

} // verus!
