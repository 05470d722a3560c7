use vstd::prelude::*;

verus! {

/// How many flushes the drain phase makes at most before it gives up.
pub const DRAIN_ATTEMPTS: u32 = 12;

/// Where a run stands once its block stream may have ended.
#[derive(Clone, Copy, Debug, PartialEq, Eq, Structural)]
pub enum DrainState {
    /// Block events still arrive; `persist` if the run has an id.
    Streaming { persist: bool },
    /// The stream ended; in-flight dispatch tasks are awaited.
    AwaitingTasks { block_number: u64, persist: bool },
    /// Flush number `attempt` (from 1) is outstanding, tagged `block_number`.
    Draining { attempt: u32, block_number: u64 },
    /// Finished: `clean` unless the flush budget ran out with records still buffered.
    Done { clean: bool },
}

/// What the control loop observed.
#[derive(Clone, Copy, Debug, PartialEq, Eq, Structural)]
pub enum DrainEvent {
    /// Every position of the batch of block `block_number` was dispatched.
    BlockDispatched { block_number: u64 },
    /// The stream ended after block `last_block`.
    StreamEnded { last_block: u64 },
    /// Every dispatch task has finished.
    TasksFinished,
    /// A flush answered: `Some(n)` records remain, or `None` if storage failed.
    FlushReported { remaining: Option<usize> },
}

/// What the control loop does next.
#[derive(Clone, Copy, Debug, PartialEq, Eq, Structural)]
pub enum DrainAction {
    /// Nothing: the event does not apply in this state.
    Wait,
    /// Await every in-flight dispatch task.
    AwaitTasks,
    /// Flush the result buffer with this block tag.
    Flush { block_number: u64 },
    /// The run is over.
    Finish,
}

/// One block tag later, staying at the largest `u64`.
pub open spec fn next_tag(b: u64) -> u64 {
    if b < u64::MAX {
        (b + 1) as u64
    } else {
        b
    }
}

/// The drain phase's transition on one event.
pub open spec fn drain_step(s: DrainState, e: DrainEvent) -> (DrainState, DrainAction) {
    match (s, e) {
        (DrainState::Streaming { persist }, DrainEvent::BlockDispatched { block_number }) => {
            if persist {
                (s, DrainAction::Flush { block_number })
            } else {
                (s, DrainAction::Wait)
            }
        },
        (DrainState::Streaming { persist }, DrainEvent::StreamEnded { last_block }) => (
            DrainState::AwaitingTasks { block_number: last_block, persist },
            DrainAction::AwaitTasks,
        ),
        (DrainState::AwaitingTasks { block_number, persist }, DrainEvent::TasksFinished) => {
            if persist {
                (DrainState::Draining { attempt: 1, block_number }, DrainAction::Flush { block_number })
            } else {
                (DrainState::Done { clean: true }, DrainAction::Finish)
            }
        },
        (DrainState::Draining { attempt, block_number }, DrainEvent::FlushReported { remaining }) => {
            if remaining == Some(0usize) {
                (DrainState::Done { clean: true }, DrainAction::Finish)
            } else if attempt >= DRAIN_ATTEMPTS {
                (DrainState::Done { clean: false }, DrainAction::Finish)
            } else {
                (
                    DrainState::Draining { attempt: (attempt + 1) as u32, block_number: next_tag(block_number) },
                    DrainAction::Flush { block_number: next_tag(block_number) },
                )
            }
        },
        _ => (s, DrainAction::Wait),
    }
}

/// The state after the events `es`, in order, starting from `s`.
pub open spec fn drain_run(s: DrainState, es: Seq<DrainEvent>) -> DrainState
    decreases es.len(),
{
    if es.len() == 0 {
        s
    } else {
        drain_run(drain_step(s, es[0]).0, es.drop_first())
    }
}

/// Whether every event of `es` is a flush answer.
pub open spec fn all_flush_reports(es: Seq<DrainEvent>) -> bool {
    forall|i: int| 0 <= i < es.len() ==> (#[trigger] es[i] is FlushReported)
}

/// The drain phase's transition: the next state and what to do.
pub fn step(s: DrainState, e: DrainEvent) -> (r: (DrainState, DrainAction))
    ensures
        r == drain_step(s, e),
{
    match (s, e) {
        (DrainState::Streaming { persist }, DrainEvent::BlockDispatched { block_number }) => {
            if persist {
                (s, DrainAction::Flush { block_number })
            } else {
                (s, DrainAction::Wait)
            }
        },
        (DrainState::Streaming { persist }, DrainEvent::StreamEnded { last_block }) => (
            DrainState::AwaitingTasks { block_number: last_block, persist },
            DrainAction::AwaitTasks,
        ),
        (DrainState::AwaitingTasks { block_number, persist }, DrainEvent::TasksFinished) => {
            if persist {
                (DrainState::Draining { attempt: 1, block_number }, DrainAction::Flush { block_number })
            } else {
                (DrainState::Done { clean: true }, DrainAction::Finish)
            }
        },
        (DrainState::Draining { attempt, block_number }, DrainEvent::FlushReported { remaining }) => {
            let emptied = match remaining {
                Some(n) => n == 0,
                None => false,
            };
            if emptied {
                (DrainState::Done { clean: true }, DrainAction::Finish)
            } else if attempt >= DRAIN_ATTEMPTS {
                (DrainState::Done { clean: false }, DrainAction::Finish)
            } else {
                let tag = if block_number < u64::MAX {
                    block_number + 1
                } else {
                    block_number
                };
                (DrainState::Draining { attempt: attempt + 1, block_number: tag }, DrainAction::Flush {
                    block_number: tag,
                })
            }
        },
        _ => (s, DrainAction::Wait),
    }
}

proof fn lemma_done_absorbs(clean: bool, es: Seq<DrainEvent>)
    ensures
        drain_run(DrainState::Done { clean }, es) == (DrainState::Done { clean }),
    decreases es.len(),
{
    if es.len() > 0 {
        lemma_done_absorbs(clean, es.drop_first());
    }
}

proof fn lemma_budget_from(attempt: u32, b: u64, es: Seq<DrainEvent>)
    requires
        1 <= attempt <= DRAIN_ATTEMPTS,
        es.len() >= DRAIN_ATTEMPTS - attempt + 1,
        all_flush_reports(es),
    ensures
        drain_run(DrainState::Draining { attempt, block_number: b }, es) is Done,
    decreases es.len(),
{
    let s = DrainState::Draining { attempt, block_number: b };
    let next = drain_step(s, es[0]).0;
    assert(es[0] is FlushReported);
    let rest = es.drop_first();
    assert(all_flush_reports(rest)) by {
        assert forall|i: int| 0 <= i < rest.len() implies (#[trigger] rest[i] is FlushReported) by {
            assert(rest[i] == es[i + 1]);
        }
    }
    match next {
        DrainState::Done { clean } => {
            lemma_done_absorbs(clean, rest);
        },
        DrainState::Draining { attempt: a2, block_number: b2 } => {
            lemma_budget_from(a2, b2, rest);
        },
        _ => {},
    }
}

/// The drain phase always ends: from the first flush, any twelve flush answers,
/// whatever they report (storage failing every time included), reach `Done`.
pub proof fn lemma_drain_terminates(b: u64, es: Seq<DrainEvent>)
    requires
        es.len() == DRAIN_ATTEMPTS,
        all_flush_reports(es),
    ensures
        drain_run(DrainState::Draining { attempt: 1, block_number: b }, es) is Done,
{
    lemma_budget_from(1, b, es);
}

/// When storage stores everything and nothing new arrives after the stream, the
/// first flush of the drain reports zero remaining and the run ends cleanly.
pub proof fn lemma_drain_clean_when_storage_succeeds(b: u64, es: Seq<DrainEvent>)
    requires
        es.len() >= 1,
        es[0] == (DrainEvent::FlushReported { remaining: Some(0usize) }),
    ensures
        drain_run(DrainState::Draining { attempt: 1, block_number: b }, es) == (DrainState::Done {
            clean: true,
        }),
{
    lemma_done_absorbs(true, es.drop_first());
}

/// While blocks stream in, a run with an id flushes its results after every block,
/// tagged with that block's number; a run without one never flushes.
pub proof fn lemma_flush_after_every_block(persist: bool, block_number: u64)
    ensures
        drain_step(DrainState::Streaming { persist }, DrainEvent::BlockDispatched { block_number }) == (
            DrainState::Streaming { persist },
            if persist {
                DrainAction::Flush { block_number }
            } else {
                DrainAction::Wait
            },
        ),
{
}

/// Each retry of the drain tags its flush with the next block number.
pub proof fn lemma_retry_advances_tag(attempt: u32, b: u64, remaining: Option<usize>)
    requires
        1 <= attempt < DRAIN_ATTEMPTS,
        b < u64::MAX,
        remaining != Some(0usize),
    ensures
        drain_step(
            DrainState::Draining { attempt, block_number: b },
            DrainEvent::FlushReported { remaining },
        ) == (
            DrainState::Draining { attempt: (attempt + 1) as u32, block_number: (b + 1) as u64 },
            DrainAction::Flush { block_number: (b + 1) as u64 },
        ),
{
}

} // verus!
