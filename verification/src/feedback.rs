//! Feedback logic over the shared-memory observations: coverage novelty,
//! validity accounting, the monotone edge total, and the progress score, and
//! the two composites built from them.

use vstd::prelude::*;

use crate::RailcarError;

verus! {

/// How one execution of the worker ended, as the supervisor classified it.
#[derive(Clone, Copy, Debug, PartialEq, Eq, Structural)]
pub enum ExitKind {
    Normal,
    Crash,
    Timeout,
}

/// Corpus metadata attached to each input: whether its execution was valid.
#[derive(Clone, Copy, Debug, PartialEq, Eq, Structural)]
pub struct InputValidityMetadata {
    pub is_valid: bool,
}

/// Counters over valid inputs, kept in the fuzzer state.
#[derive(Clone, Copy, Debug, PartialEq, Eq, Structural)]
pub struct ValidInputsMetadata {
    pub num_valid_executions: u64,
    pub num_valid_corpus: u64,
}

/// The hit-count bucket a raw cell value falls into: the classes 0, 1, 2, 3,
/// 4-7, 8-15, 16-31, 32-127, 128-255, encoded by their top value.
pub open spec fn spec_bucket(c: u8) -> u8 {
    if c == 0 {
        0
    } else if c == 1 {
        1
    } else if c == 2 {
        2
    } else if c == 3 {
        4
    } else if c < 8 {
        8
    } else if c < 16 {
        16
    } else if c < 32 {
        32
    } else if c < 128 {
        64
    } else {
        128
    }
}

/// Bucket a raw hit count.
pub fn bucket(c: u8) -> (r: u8)
    ensures
        r == spec_bucket(c),
{
    if c == 0 {
        0
    } else if c == 1 {
        1
    } else if c == 2 {
        2
    } else if c == 3 {
        4
    } else if c < 8 {
        8
    } else if c < 16 {
        16
    } else if c < 32 {
        32
    } else if c < 128 {
        64
    } else {
        128
    }
}

/// Whether the map holds a cell whose bucket beats the history.
pub open spec fn spec_map_novel(history: Seq<u8>, map: Seq<u8>) -> bool {
    exists|i: int| 0 <= i < history.len() && i < map.len() && spec_bucket(#[trigger] map[i]) > history[i]
}

/// The history after a map is folded in: each cell keeps the highest bucket
/// seen.
pub open spec fn spec_absorb(history: Seq<u8>, map: Seq<u8>) -> Seq<u8> {
    Seq::new(
        history.len(),
        |i: int|
            if i < map.len() && spec_bucket(map[i]) > history[i] {
                spec_bucket(map[i])
            } else {
                history[i]
            },
    )
}

/// Coverage novelty over a history map of bucketed hit counts: an execution
/// is interesting exactly when some cell's bucket is higher than everything
/// recorded for that cell.
#[derive(Debug)]
pub struct CoverageFeedback {
    pub history: Vec<u8>,
}

impl CoverageFeedback {
    /// A feedback with an empty history for a map of `size` cells.
    pub fn new(size: usize) -> (r: CoverageFeedback)
        ensures
            r.history@.len() == size,
            forall|i: int| 0 <= i < size ==> r.history@[i] == 0,
    {
        let mut history: Vec<u8> = Vec::new();
        let mut i: usize = 0;
        while i < size
            invariant
                i <= size,
                history@.len() == i,
                forall|j: int| 0 <= j < i ==> history@[j] == 0,
            decreases size - i,
        {
            history.push(0);
            i = i + 1;
        }
        CoverageFeedback { history }
    }

    /// Whether this map reaches a bucket never seen before. Leaves the
    /// history untouched.
    pub fn is_interesting(&self, map: &Vec<u8>) -> (r: bool)
        ensures
            r == spec_map_novel(self.history@, map@),
    {
        let n = self.history.len();
        let m = map.len();
        let mut i: usize = 0;
        while i < n
            invariant
                n == self.history@.len(),
                m == map@.len(),
                i <= n,
                forall|j: int|
                    0 <= j < i && j < m ==> spec_bucket(#[trigger] map@[j]) <= self.history@[j],
            decreases n - i,
        {
            if i < m {
                if bucket(map[i]) > self.history[i] {
                    return true;
                }
            }
            i = i + 1;
        }
        false
    }

    /// Fold this map into the history: each cell keeps the highest bucket
    /// seen.
    pub fn absorb(&mut self, map: &Vec<u8>)
        ensures
            final(self).history@ == spec_absorb(old(self).history@, map@),
    {
        let n = self.history.len();
        let m = map.len();
        let mut i: usize = 0;
        while i < n
            invariant
                n == self.history@.len(),
                m == map@.len(),
                i <= n,
                forall|j: int|
                    i <= j < n ==> #[trigger] self.history@[j] == old(self).history@[j],
                forall|j: int|
                    0 <= j < i ==> #[trigger] self.history@[j] == (if j < map@.len()
                        && spec_bucket(map@[j]) > old(self).history@[j] {
                        spec_bucket(map@[j])
                    } else {
                        old(self).history@[j]
                    }),
            decreases n - i,
        {
            if i < m {
                let b = bucket(map[i]);
                if b > self.history[i] {
                    self.history.set(i, b);
                }
            }
            i = i + 1;
        }
        proof {
            assert(self.history@ =~= spec_absorb(old(self).history@, map@));
        }
    }
}

/// Validity feedback: an execution is interesting when the worker marked it
/// valid; the counters track valid executions and valid corpus additions.
#[derive(Debug)]
pub struct ValidityFeedback {
    pub meta: ValidInputsMetadata,
    pub last_result: Option<bool>,
}

impl ValidityFeedback {
    pub fn new() -> (r: ValidityFeedback)
        ensures
            r.meta.num_valid_executions == 0,
            r.meta.num_valid_corpus == 0,
            r.last_result is None,
    {
        ValidityFeedback {
            meta: ValidInputsMetadata { num_valid_executions: 0, num_valid_corpus: 0 },
            last_result: None,
        }
    }

    /// Record one execution's validity flag; interesting exactly when valid.
    /// The valid-execution counter grows by one on a valid run (saturating
    /// at its limit).
    pub fn is_interesting(&mut self, is_valid: bool) -> (r: bool)
        ensures
            r == is_valid,
            final(self).last_result == Option::Some(is_valid),
            is_valid ==> final(self).meta.num_valid_executions == (if old(
                self,
            ).meta.num_valid_executions < u64::MAX {
                old(self).meta.num_valid_executions + 1
            } else {
                old(self).meta.num_valid_executions as int
            }),
            !is_valid ==> final(self).meta == old(self).meta,
            final(self).meta.num_valid_corpus == old(self).meta.num_valid_corpus,
    {
        if is_valid {
            if self.meta.num_valid_executions < u64::MAX {
                self.meta.num_valid_executions = self.meta.num_valid_executions + 1;
            }
        }
        self.last_result = Some(is_valid);
        is_valid
    }

    /// On a corpus addition, label the testcase with the last validity and
    /// count it when valid.
    pub fn append_metadata(&mut self) -> (r: Result<InputValidityMetadata, RailcarError>)
        ensures
            match r {
                Ok(meta) => {
                    &&& old(self).last_result == Option::Some(meta.is_valid)
                    &&& (meta.is_valid ==> final(self).meta.num_valid_corpus == (if old(
                        self,
                    ).meta.num_valid_corpus < u64::MAX {
                        old(self).meta.num_valid_corpus + 1
                    } else {
                        old(self).meta.num_valid_corpus as int
                    }))
                    &&& (!meta.is_valid ==> final(self).meta == old(self).meta)
                },
                Err(_) => old(self).last_result is None && *final(self) == *old(self),
            },
    {
        let is_valid = match self.last_result {
            Some(v) => v,
            None => {
                return Err(
                    RailcarError::Unknown("validity feedback ran before any execution".to_owned()),
                );
            },
        };
        if is_valid {
            if self.meta.num_valid_corpus < u64::MAX {
                self.meta.num_valid_corpus = self.meta.num_valid_corpus + 1;
            }
        }
        Ok(InputValidityMetadata { is_valid })
    }
}

/// The monotone edge total: interesting when the number of instrumented
/// edges grew; a shrinking total is an error and never updates the record.
#[derive(Debug)]
pub struct TotalEdgesFeedback {
    pub edges: u32,
    pub last_result: bool,
}

impl TotalEdgesFeedback {
    pub fn new() -> (r: TotalEdgesFeedback)
        ensures
            r.edges == 0,
            !r.last_result,
    {
        TotalEdgesFeedback { edges: 0, last_result: false }
    }

    /// Record a new edge total. The stored total never decreases; a total
    /// below it is refused.
    pub fn is_interesting(&mut self, new_edges: u32) -> (r: Result<bool, RailcarError>)
        ensures
            final(self).edges >= old(self).edges,
            r is Err <==> new_edges < old(self).edges,
            r is Ok ==> {
                &&& r->Ok_0 == (new_edges > old(self).edges)
                &&& final(self).edges == (if new_edges > old(self).edges {
                    new_edges
                } else {
                    old(self).edges
                })
                &&& final(self).last_result == r->Ok_0
            },
            r is Err ==> *final(self) == *old(self),
    {
        if new_edges < self.edges {
            return Err(
                RailcarError::Unknown(
                    "total number of instrumented edges must not decrease".to_owned(),
                ),
            );
        }
        let interesting = new_edges > self.edges;
        if interesting {
            self.edges = new_edges;
        }
        self.last_result = interesting;
        Ok(interesting)
    }
}

/// The quadratic progress curve that peaks when a chain of
/// `PROGRESS_PEAK` calls completes in full.
pub const PROGRESS_PEAK: i64 = 10;

/// A count clamped to the scoring bound.
pub open spec fn spec_clamp_count(c: int) -> int {
    if c > 1_000_000_000 {
        1_000_000_000
    } else {
        c
    }
}

/// The score `M*M - ((s-M)*(s-M) + (t-M)*(t-M))` with `M = PROGRESS_PEAK`.
pub open spec fn spec_progress(successful: int, total: int) -> int {
    PROGRESS_PEAK * PROGRESS_PEAK - ((successful - PROGRESS_PEAK) * (successful - PROGRESS_PEAK) + (
    total - PROGRESS_PEAK) * (total - PROGRESS_PEAK))
}

/// Interest in API chains that complete in full: the score peaks when
/// exactly `PROGRESS_PEAK` calls exist and all succeed; interesting when the
/// best score so far is beaten.
#[derive(Debug)]
pub struct ApiProgressFeedback {
    pub max_progress: i64,
    pub last_result: bool,
}

impl ApiProgressFeedback {
    pub fn new() -> (r: ApiProgressFeedback)
        ensures
            r.max_progress == 0,
            !r.last_result,
    {
        ApiProgressFeedback { max_progress: 0, last_result: false }
    }

    /// The progress score of an execution; counts are clamped to a bound
    /// that keeps the squares in range.
    pub fn progress(successful: u32, total: u32) -> (r: i64)
        ensures
            r == spec_progress(
                spec_clamp_count(successful as int),
                spec_clamp_count(total as int),
            ),
    {
        let s: i64 = if successful > 1_000_000_000 {
            1_000_000_000
        } else {
            successful as i64
        };
        let t: i64 = if total > 1_000_000_000 {
            1_000_000_000
        } else {
            total as i64
        };
        let a: i64 = s - PROGRESS_PEAK;
        let b: i64 = t - PROGRESS_PEAK;
        proof {
            assert(a * a >= 0 && a * a < 0x1000_0000_0000_0000) by (nonlinear_arith)
                requires
                    -0x4000_0000 < a < 0x4000_0000,
            ;
            assert(b * b >= 0 && b * b < 0x1000_0000_0000_0000) by (nonlinear_arith)
                requires
                    -0x4000_0000 < b < 0x4000_0000,
            ;
        }
        PROGRESS_PEAK * PROGRESS_PEAK - (a * a + b * b)
    }

    /// Record one execution: interesting exactly when its score beats the
    /// best so far, which is then updated.
    pub fn is_interesting(&mut self, successful: u32, total: u32) -> (r: bool)
        ensures
            r == (spec_progress(
                spec_clamp_count(successful as int),
                spec_clamp_count(total as int),
            ) > old(self).max_progress),
            r ==> final(self).max_progress == spec_progress(
                spec_clamp_count(successful as int),
                spec_clamp_count(total as int),
            ),
            !r ==> *final(self) == (ApiProgressFeedback { last_result: false, ..*old(self) }),
            final(self).last_result == r,
    {
        let p = Self::progress(successful, total);
        if p > self.max_progress {
            self.max_progress = p;
            self.last_result = true;
            true
        } else {
            self.last_result = false;
            false
        }
    }
}

/// What one execution showed, as handed to the composite feedbacks: how it
/// exited, the validity flag, the coverage map, the edge total, and how many
/// of the input's calls ran.
pub struct Observation<'a> {
    pub exit: ExitKind,
    pub is_valid: bool,
    pub coverage: &'a Vec<u8>,
    pub total_edges: u32,
    pub num_calls_executed: u32,
}

/// The corpus feedback: validity accounting first; a crashing or timed-out
/// execution never enters the corpus; then total-coverage novelty,
/// valid-only coverage novelty, the edge total and the progress score.
/// Interesting means new total coverage, or new valid coverage when
/// validity weighing is on.
pub struct StdFeedback {
    pub use_validity: bool,
    pub validity: ValidityFeedback,
    pub total_coverage: CoverageFeedback,
    pub valid_coverage: CoverageFeedback,
    pub total_edges: TotalEdgesFeedback,
    pub api_progress: ApiProgressFeedback,
    pub last_result: Option<bool>,
}

impl StdFeedback {
    pub fn new(use_validity: bool, map_size: usize) -> (r: StdFeedback)
        ensures
            r.use_validity == use_validity,
            r.total_coverage.history@.len() == map_size,
            r.valid_coverage.history@.len() == map_size,
            r.total_edges.edges == 0,
            r.last_result is None,
    {
        StdFeedback {
            use_validity,
            validity: ValidityFeedback::new(),
            total_coverage: CoverageFeedback::new(map_size),
            valid_coverage: CoverageFeedback::new(map_size),
            total_edges: TotalEdgesFeedback::new(),
            api_progress: ApiProgressFeedback::new(),
            last_result: None,
        }
    }

    /// Judge one execution. Interesting means new total coverage, or (with
    /// validity weighing) new valid coverage. A crashing or timed-out
    /// execution is never corpus-interesting: it routes to the objective.
    /// The edge total must not shrink.
    pub fn is_interesting(&mut self, obs: Observation<'_>, seq_len: u32) -> (r: Result<
        bool,
        RailcarError,
    >)
        ensures
            r is Err <==> (obs.exit == ExitKind::Normal && obs.total_edges < old(
                self,
            ).total_edges.edges),
            r is Ok ==> {
                let interesting = r->Ok_0;
                &&& final(self).last_result == Option::Some(interesting)
                &&& (obs.exit != ExitKind::Normal ==> !interesting)
                &&& (obs.exit == ExitKind::Normal ==> interesting == (spec_map_novel(
                    old(self).total_coverage.history@,
                    obs.coverage@,
                ) || (old(self).use_validity && obs.is_valid && spec_map_novel(
                    old(self).valid_coverage.history@,
                    obs.coverage@,
                ))))
                &&& (obs.exit == ExitKind::Normal ==> final(self).total_edges.edges == (if obs.total_edges > old(
                    self,
                ).total_edges.edges {
                    obs.total_edges
                } else {
                    old(self).total_edges.edges
                }))
                &&& (obs.exit != ExitKind::Normal ==> final(self).total_edges == old(
                    self,
                ).total_edges)
            },
            final(self).total_edges.edges >= old(self).total_edges.edges,
            final(self).use_validity == old(self).use_validity,
            final(self).total_coverage == old(self).total_coverage,
            final(self).valid_coverage == old(self).valid_coverage,
            final(self).validity.last_result == Option::Some(obs.is_valid),
            obs.is_valid ==> final(self).validity.meta.num_valid_executions == (if old(
                self,
            ).validity.meta.num_valid_executions < u64::MAX {
                old(self).validity.meta.num_valid_executions + 1
            } else {
                old(self).validity.meta.num_valid_executions as int
            }),
            !obs.is_valid ==> final(self).validity.meta == old(self).validity.meta,
    {
        let is_valid = self.validity.is_interesting(obs.is_valid);
        let should_consider = match obs.exit {
            ExitKind::Normal => true,
            _ => false,
        };
        if !should_consider {
            self.last_result = Some(false);
            return Ok(false);
        }
        let is_new_total = self.total_coverage.is_interesting(obs.coverage);
        let is_new_valid = if is_valid {
            self.valid_coverage.is_interesting(obs.coverage)
        } else {
            false
        };
        match self.total_edges.is_interesting(obs.total_edges) {
            Ok(_) => {},
            Err(e) => {
                return Err(e);
            },
        }
        let _ = self.api_progress.is_interesting(obs.num_calls_executed, seq_len);
        let interesting = if self.use_validity {
            is_new_total || is_new_valid
        } else {
            is_new_total
        };
        self.last_result = Some(interesting);
        Ok(interesting)
    }

    /// On a corpus addition: label the testcase with the last execution's
    /// validity, count a valid addition, and fold the map into the total
    /// history, and into the valid history when the run was valid.
    pub fn append_metadata(&mut self, coverage: &Vec<u8>) -> (r: Result<
        InputValidityMetadata,
        RailcarError,
    >)
        ensures
            r is Err <==> old(self).validity.last_result is None,
            r is Err ==> *final(self) == *old(self),
            r is Ok ==> {
                let meta = r->Ok_0;
                &&& old(self).validity.last_result == Option::Some(meta.is_valid)
                &&& final(self).total_coverage.history@ == spec_absorb(
                    old(self).total_coverage.history@,
                    coverage@,
                )
                &&& (meta.is_valid ==> final(self).valid_coverage.history@ == spec_absorb(
                    old(self).valid_coverage.history@,
                    coverage@,
                ))
                &&& (!meta.is_valid ==> final(self).valid_coverage == old(self).valid_coverage)
                &&& (meta.is_valid ==> final(self).validity.meta.num_valid_corpus == (if old(
                    self,
                ).validity.meta.num_valid_corpus < u64::MAX {
                    old(self).validity.meta.num_valid_corpus + 1
                } else {
                    old(self).validity.meta.num_valid_corpus as int
                }))
                &&& (!meta.is_valid ==> final(self).validity.meta == old(self).validity.meta)
                &&& final(self).total_edges == old(self).total_edges
                &&& final(self).api_progress == old(self).api_progress
            },
    {
        let meta = match self.validity.append_metadata() {
            Ok(m) => m,
            Err(e) => {
                return Err(e);
            },
        };
        self.total_coverage.absorb(coverage);
        if meta.is_valid {
            self.valid_coverage.absorb(coverage);
        }
        Ok(meta)
    }
}

/// The objective feedback: a crashing (or timed-out) execution of a valid
/// input whose coverage is new among crashes.
pub struct UniqCrashFeedback {
    pub coverage: CoverageFeedback,
    pub last_result: Option<bool>,
}

impl UniqCrashFeedback {
    pub fn new(map_size: usize) -> (r: UniqCrashFeedback)
        ensures
            r.coverage.history@.len() == map_size,
            r.last_result is None,
    {
        UniqCrashFeedback { coverage: CoverageFeedback::new(map_size), last_result: None }
    }

    /// Judge one execution as an objective: interesting exactly when it did
    /// not exit cleanly, was valid, and shows new crash coverage.
    pub fn is_interesting(&mut self, obs: Observation<'_>) -> (r: bool)
        ensures
            r == (obs.exit != ExitKind::Normal && obs.is_valid && spec_map_novel(
                old(self).coverage.history@,
                obs.coverage@,
            )),
            final(self).last_result == Option::Some(r),
            final(self).coverage == old(self).coverage,
    {
        let crashed = match obs.exit {
            ExitKind::Normal => false,
            _ => true,
        };
        if !crashed {
            self.last_result = Some(false);
            return false;
        }
        let is_new = self.coverage.is_interesting(obs.coverage);
        let r = obs.is_valid && is_new;
        self.last_result = Some(r);
        r
    }

    /// On an objective addition, fold the map into the crash history.
    pub fn append_metadata(&mut self, coverage: &Vec<u8>)
        ensures
            final(self).last_result == old(self).last_result,
    {
        self.coverage.absorb(coverage);
    }
}

} // verus!
