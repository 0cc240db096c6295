//! The worker supervisor's decision core: the per-child state machine, the
//! length-delimited framing of the wire protocol, and the classification of
//! the worker's exit codes. The process plumbing (pipes, forking) lives with
//! the program around the library, which feeds events in and carries the
//! decided actions out.

use vstd::prelude::*;

use crate::feedback::ExitKind;
use crate::schema::Schema;
use crate::FuzzerMode;
use crate::RailcarError;

verus! {

/// Arguments the supervisor is configured with.
#[derive(Debug)]
pub struct WorkerArgs {
    pub mode: FuzzerMode,
    pub entrypoint: String,
    pub schema_file: Option<String>,
    pub replay: bool,
    pub config_file: Option<String>,
}

/// Payload of an invocation message.
#[derive(Debug)]
pub struct InvokeArgs {
    pub bytes: Vec<u8>,
}

/// One frame of the wire protocol, by tag. The framed payloads themselves
/// are encoded at the boundary; the supervisor decides on tags alone.
#[derive(Debug)]
pub enum Message {
    Init(WorkerArgs),
    InitOk(Option<Schema>),
    Invoke(InvokeArgs),
    InvokeOk(u8),
    Log(String),
    Terminate,
}

/// The life of one child process.
#[derive(Clone, Copy, Debug, PartialEq, Eq, Structural)]
pub enum WorkerPhase {
    Spawned,
    Ready,
    Invoking,
    Terminated,
}

/// What the surrounding program must do next. `Abort` is the harness-panic
/// signal: the whole fuzzing client stops.
#[derive(Clone, Copy, Debug, PartialEq, Eq, Structural)]
pub enum WorkerAction {
    Proceed,
    RestartChild,
    StopChild,
    Abort,
}

/// The supervisor's state machine: `Spawned -> Ready` on a successful init,
/// `Ready <-> Invoking` per input, and `Terminated` at shutdown. A transport
/// fault mid-invoke restarts the child and reports the input as a crash.
#[derive(Debug)]
pub struct Supervisor {
    pub phase: WorkerPhase,
    pub restarts: u64,
}

impl Supervisor {
    /// A freshly spawned, not yet initialized child.
    pub fn new() -> (r: Supervisor)
        ensures
            r.phase == WorkerPhase::Spawned,
            r.restarts == 0,
    {
        Supervisor { phase: WorkerPhase::Spawned, restarts: 0 }
    }

    /// The child answered the init message: with an `InitOk` it becomes
    /// ready; anything else is a protocol error and the child is stopped.
    pub fn on_init_reply(&mut self, ok: bool) -> (r: Result<(), RailcarError>)
        requires
            old(self).phase == WorkerPhase::Spawned,
        ensures
            final(self).restarts == old(self).restarts,
            ok ==> r is Ok && final(self).phase == WorkerPhase::Ready,
            !ok ==> r is Err && final(self).phase == WorkerPhase::Terminated,
    {
        if ok {
            self.phase = WorkerPhase::Ready;
            Ok(())
        } else {
            self.phase = WorkerPhase::Terminated;
            Err(RailcarError::Unknown("expected an init acknowledgement".to_owned()))
        }
    }

    /// Hand an input to the child: only a ready child can take one.
    pub fn start_invoke(&mut self) -> (r: bool)
        ensures
            r == (old(self).phase == WorkerPhase::Ready),
            r ==> final(self).phase == WorkerPhase::Invoking,
            !r ==> *final(self) == *old(self),
            final(self).restarts == old(self).restarts,
    {
        let ready = match self.phase {
            WorkerPhase::Ready => true,
            _ => false,
        };
        if ready {
            self.phase = WorkerPhase::Invoking;
        }
        ready
    }

    /// The round-trip for the current input ended: either the child
    /// answered with an exit code, or the transport failed. A fault means
    /// the child is restarted and the input reports as a crash; the next
    /// invocation can then proceed. The code for a harness panic is the one
    /// exception: it aborts the whole client rather than feeding back.
    pub fn on_invoke_reply(&mut self, reply: Option<u8>) -> (r: (ExitKind, WorkerAction))
        requires
            old(self).phase == WorkerPhase::Invoking,
        ensures
            (match reply {
                Option::Some(code) => {
                    &&& r.1 == (if code == 3 {
                        WorkerAction::Abort
                    } else {
                        WorkerAction::Proceed
                    })
                    &&& final(self).phase == (if code == 3 {
                        WorkerPhase::Terminated
                    } else {
                        WorkerPhase::Ready
                    })
                    &&& r.0 == spec_classify_exit(code)
                    &&& final(self).restarts == old(self).restarts
                },
                Option::None => {
                    &&& r.0 == ExitKind::Crash
                    &&& r.1 == WorkerAction::RestartChild
                    &&& final(self).phase == WorkerPhase::Ready
                    &&& final(self).restarts == (if old(self).restarts < u64::MAX {
                        old(self).restarts + 1
                    } else {
                        old(self).restarts as int
                    })
                },
            }),
    {
        match reply {
            Some(code) => {
                if code == 3 {
                    // a fuzzer-abort from the harness stops the client
                    self.phase = WorkerPhase::Terminated;
                    (classify_exit(code), WorkerAction::Abort)
                } else {
                    self.phase = WorkerPhase::Ready;
                    (classify_exit(code), WorkerAction::Proceed)
                }
            },
            None => {
                // transport fault: the child is respawned and re-initialized
                // by the caller, and this input counts as a crash
                if self.restarts < u64::MAX {
                    self.restarts = self.restarts + 1;
                }
                self.phase = WorkerPhase::Ready;
                (ExitKind::Crash, WorkerAction::RestartChild)
            },
        }
    }

    /// Shut the child down.
    pub fn terminate(&mut self) -> (r: WorkerAction)
        ensures
            final(self).phase == WorkerPhase::Terminated,
            final(self).restarts == old(self).restarts,
            r == WorkerAction::StopChild,
    {
        self.phase = WorkerPhase::Terminated;
        WorkerAction::StopChild
    }
}

/// How an exit code reads: `0` is a valid run and `1` a run that hit an
/// expected error (both clean); anything else is a crash.
pub open spec fn spec_classify_exit(code: u8) -> ExitKind {
    if code == 0 || code == 1 {
        ExitKind::Normal
    } else {
        ExitKind::Crash
    }
}

/// Classify a worker exit code.
pub fn classify_exit(code: u8) -> (r: ExitKind)
    ensures
        r == spec_classify_exit(code),
{
    if code == 0 || code == 1 {
        ExitKind::Normal
    } else {
        ExitKind::Crash
    }
}

/// Frame a payload for the pipe: a four-byte big-endian length, then the
/// payload bytes.
pub fn encode_frame(payload: &Vec<u8>) -> (r: Option<Vec<u8>>)
    ensures
        match r {
            Option::Some(out) => payload@.len() <= 0xFFFF_FFFF && out@.len() == payload@.len() + 4
                && out@.skip(4) == payload@ && spec_frame_len(out@) == payload@.len(),
            Option::None => payload@.len() > 0xFFFF_FFFF,
        },
{
    if payload.len() > 0xFFFF_FFFF {
        return None;
    }
    let n = payload.len();
    let len32: u32 = n as u32;
    let mut out: Vec<u8> = Vec::new();
    out.push(#[verifier::truncate] ((len32 >> 24u32) as u8));
    out.push(#[verifier::truncate] ((len32 >> 16u32) as u8));
    out.push(#[verifier::truncate] ((len32 >> 8u32) as u8));
    out.push(#[verifier::truncate] (len32 as u8));
    let mut i: usize = 0;
    while i < n
        invariant
            n == payload@.len(),
            i <= n,
            out@.len() == i + 4,
            forall|j: int| 0 <= j < i ==> out@[j + 4] == payload@[j],
            out@[0] == (((n as u32) >> 24u32) as u8),
            out@[1] == #[verifier::truncate] ((((n as u32) >> 16u32) as u8)),
            out@[2] == #[verifier::truncate] ((((n as u32) >> 8u32) as u8)),
            out@[3] == #[verifier::truncate] (((n as u32) as u8)),
        decreases n - i,
    {
        out.push(payload[i]);
        i = i + 1;
    }
    proof {
        assert(out@.skip(4) =~= payload@);
        let n32 = n as u32;
        let b0 = (n32 >> 24u32) as u8;
        let b1 = #[verifier::truncate] ((n32 >> 16u32) as u8);
        let b2 = #[verifier::truncate] ((n32 >> 8u32) as u8);
        let b3 = #[verifier::truncate] (n32 as u8);
        assert((b0 as u64) * 0x100_0000 + (b1 as u64) * 0x1_0000 + (b2 as u64) * 0x100 + (
        b3 as u64) == n32 as u64) by (bit_vector)
            requires
                b0 == ((n32 >> 24u32) as u8),
                b1 == #[verifier::truncate] ((n32 >> 16u32) as u8),
                b2 == #[verifier::truncate] ((n32 >> 8u32) as u8),
                b3 == #[verifier::truncate] (n32 as u8),
        ;
    }
    Some(out)
}

/// The length a frame header announces.
pub open spec fn spec_frame_len(buf: Seq<u8>) -> int
    recommends
        buf.len() >= 4,
{
    (buf[0] as int) * 0x100_0000 + (buf[1] as int) * 0x1_0000 + (buf[2] as int) * 0x100 + (
    buf[3] as int)
}

/// Split one frame off the front of a buffer: the announced payload and how
/// many bytes the frame took. `None` when the buffer does not yet hold a
/// whole frame.
pub fn decode_frame(buf: &Vec<u8>) -> (r: Option<(Vec<u8>, usize)>)
    ensures
        match r {
            Option::Some(pair) => {
                &&& buf@.len() >= 4
                &&& pair.0@.len() == spec_frame_len(buf@)
                &&& pair.1 == spec_frame_len(buf@) + 4
                &&& pair.1 <= buf@.len()
                &&& pair.0@ == buf@.subrange(4, pair.1 as int)
            },
            Option::None => buf@.len() < 4 || spec_frame_len(buf@) + 4 > buf@.len(),
        },
{
    if buf.len() < 4 {
        return None;
    }
    let hi: u64 = (buf[0] as u64) * 0x100_0000 + (buf[1] as u64) * 0x1_0000 + (buf[2] as u64)
        * 0x100 + (buf[3] as u64);
    let announced: u64 = hi;
    if announced + 4 > buf.len() as u64 {
        return None;
    }
    let take: usize = (announced + 4) as usize;
    let mut payload: Vec<u8> = Vec::new();
    let mut i: usize = 4;
    while i < take
        invariant
            4 <= i <= take,
            take <= buf@.len(),
            payload@.len() == i - 4,
            forall|j: int| 4 <= j < i ==> payload@[j - 4] == buf@[j],
        decreases take - i,
    {
        payload.push(buf[i]);
        i = i + 1;
    }
    proof {
        assert(payload@ =~= buf@.subrange(4, take as int));
    }
    Some((payload, take))
}

/// A framed payload decodes back to itself, with nothing of a following
/// frame consumed: the round trip of the wire framing.
pub proof fn lemma_frame_round_trip(payload: Seq<u8>, framed: Seq<u8>, rest: Seq<u8>)
    requires
        payload.len() <= 0xFFFF_FFFF,
        framed.len() == payload.len() as int + 4,
        framed.skip(4) == payload,
        spec_frame_len(framed) == payload.len(),
    ensures
        spec_frame_len(framed + rest) == payload.len(),
        (framed + rest).subrange(4, payload.len() as int + 4) == payload,
{
    let whole = framed + rest;
    assert(whole[0] == framed[0] && whole[1] == framed[1] && whole[2] == framed[2] && whole[3]
        == framed[3]);
    assert forall|j: int| 0 <= j < payload.len() implies whole.subrange(
        4,
        payload.len() as int + 4,
    )[j] == payload[j] by {
        assert(whole[j + 4] == framed[j + 4]);
        assert(framed.skip(4)[j] == framed[j + 4]);
    }
    assert(whole.subrange(4, payload.len() as int + 4) =~= payload);
}


/// How many inputs the client must generate after loading the seed corpus:
/// a dry corpus is topped up to the initial size, a non-empty one is used as
/// is.
pub fn initial_generation_count(loaded: usize) -> (r: usize)
    ensures
        r == (if loaded == 0 {
            crate::INITIAL_CORPUS_SIZE as int
        } else {
            0int
        }),
{
    if loaded == 0 {
        crate::INITIAL_CORPUS_SIZE
    } else {
        0
    }
}
} // verus!
