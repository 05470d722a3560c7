use vstd::prelude::*;

verus! {

/// One completed dispatch: what was sent, when, and in which block.
#[derive(Debug)]
pub struct RunRecord {
    /// Hash of the sent transaction (or of the bundle's first member).
    pub tx_hash: Vec<u8>,
    /// The intent's "kind" tag, if it had one.
    pub kind: Option<String>,
    /// Milliseconds since the Unix epoch at which the dispatch task started.
    pub start_timestamp: u64,
    /// The block during which it was sent.
    pub block_number: u64,
}

/// What a flush request asks of storage.
#[derive(Clone, Copy, Debug, PartialEq, Eq, Structural)]
pub enum FlushStep {
    /// The run has no id: nothing is persisted.
    Skip,
    /// Nothing is buffered: zero entries remain, storage is not contacted.
    Empty,
    /// Persist the first `count` buffered records under `run_id`, tagged `block_number`.
    Persist { run_id: u64, block_number: u64, count: usize },
}

/// Storage refused a batch of records; they stay buffered.
#[derive(Clone, Copy, Debug, PartialEq, Eq, Structural)]
pub enum FlushError {
    StorageFailed,
}

/// The step that a flush of `buffered` records of run `run_id` at `block_number` takes.
pub open spec fn flush_step_of(buffered: nat, run_id: Option<u64>, block_number: u64) -> FlushStep {
    match run_id {
        None => FlushStep::Skip,
        Some(id) => if buffered == 0 {
            FlushStep::Empty
        } else {
            FlushStep::Persist { run_id: id, block_number, count: buffered as usize }
        },
    }
}

/// A flush of a run with an id leaves nothing buffered when storage stores the batch
/// and nothing new arrives meanwhile: either the buffer was empty (and storage is not
/// contacted), or the batch handed to storage is the whole buffer.
pub proof fn lemma_full_flush_empties(buffered: Seq<RunRecord>, run_id: u64, block_number: u64)
    requires
        buffered.len() <= usize::MAX,
    ensures
        match flush_step_of(buffered.len(), Some(run_id), block_number) {
            FlushStep::Empty => buffered.len() == 0,
            FlushStep::Persist { run_id: id, block_number: b, count } => id == run_id && b == block_number
                && buffered.subrange(count as int, buffered.len() as int).len() == 0,
            FlushStep::Skip => false,
        },
{
}

/// The buffer of completed dispatches, owned by one control loop that receives
/// reports and flushes them to storage.
pub struct ResultCache {
    records: Vec<RunRecord>,
}

impl ResultCache {
    /// The buffered records, oldest first.
    pub closed spec fn view(&self) -> Seq<RunRecord> {
        self.records@
    }

    /// An empty buffer.
    pub fn new() -> (r: ResultCache)
        ensures
            r@ == Seq::<RunRecord>::empty(),
    {
        ResultCache { records: Vec::new() }
    }

    /// How many records are buffered.
    pub fn len(&self) -> (r: usize)
        ensures
            r == self@.len(),
    {
        self.records.len()
    }

    /// The buffered records, oldest first.
    pub fn pending(&self) -> (r: &Vec<RunRecord>)
        ensures
            r@ == self@,
    {
        &self.records
    }

    /// Buffers `entry` for run `run_id`; a run without an id buffers nothing.
    pub fn record(&mut self, run_id: Option<u64>, entry: RunRecord)
        ensures
            run_id.is_none() ==> final(self)@ == old(self)@,
            run_id.is_some() ==> final(self)@ == old(self)@.push(entry),
    {
        if run_id.is_some() {
            self.records.push(entry);
        }
    }

    /// Decides what a flush of run `run_id` at `block_number` asks of storage.
    pub fn plan_flush(&self, run_id: Option<u64>, block_number: u64) -> (r: FlushStep)
        ensures
            r == flush_step_of(self@.len(), run_id, block_number),
    {
        match run_id {
            None => FlushStep::Skip,
            Some(id) => {
                if self.records.len() == 0 {
                    FlushStep::Empty
                } else {
                    FlushStep::Persist { run_id: id, block_number, count: self.records.len() }
                }
            },
        }
    }

    /// Applies storage's answer for the first `count` records: on success they leave
    /// the buffer and the number still buffered is returned; on failure all stay.
    pub fn complete_flush(&mut self, count: usize, stored: bool) -> (r: Result<usize, FlushError>)
        requires
            count <= old(self)@.len(),
        ensures
            stored ==> final(self)@ == old(self)@.subrange(count as int, old(self)@.len() as int)
                && r == Ok::<usize, FlushError>(final(self)@.len() as usize),
            !stored ==> final(self)@ == old(self)@ && r == Err::<usize, FlushError>(
                FlushError::StorageFailed,
            ),
    {
        if !stored {
            return Err(FlushError::StorageFailed);
        }
        let rest = self.records.split_off(count);
        self.records = rest;
        Ok(self.records.len())
    }
}

} // verus!
