//! Outcomes of the batch commands, as reported to the caller, and the
//! batching of records on their way to the output file.
use vstd::prelude::*;
use crate::records::MatchOutput;
use crate::state::BatchState;

verus! {

/// What the national aggregation produced and which inputs it lacked.
pub struct AggregateOutcome {
    pub generated: Vec<String>,
    /// Input patterns with no matching file.
    pub missing_inputs: Vec<String>,
    /// Whether some artifact was skipped for want of inputs.
    pub partial: bool,
}

impl AggregateOutcome {
    /// An outcome with nothing produced and nothing missing.
    pub fn new() -> (r: Self)
        ensures
            r.generated@.len() == 0,
            r.missing_inputs@.len() == 0,
            !r.partial,
    {
        AggregateOutcome { generated: Vec::new(), missing_inputs: Vec::new(), partial: false }
    }

    /// Records an artifact written to `path`.
    pub fn record_generated(&mut self, path: String)
        ensures
            final(self).generated@ == old(self).generated@.push(path),
            final(self).missing_inputs@ == old(self).missing_inputs@,
            final(self).partial == old(self).partial,
    {
        self.generated.push(path);
    }

    /// Records that no file matched input pattern `pattern`; the outcome is
    /// then partial.
    pub fn record_missing(&mut self, pattern: String)
        ensures
            final(self).missing_inputs@ == old(self).missing_inputs@.push(pattern),
            final(self).generated@ == old(self).generated@,
            final(self).partial,
    {
        self.missing_inputs.push(pattern);
        self.partial = true;
    }
}

/// Summary of a pipeline run.
pub struct PipelineOutcome {
    pub total_departments: u64,
    pub completed_departments: u64,
    pub failed_departments: u64,
    /// Whether some department failed or the aggregation was partial.
    pub partial: bool,
    pub aggregate_partial: bool,
    pub state_path: String,
    pub output_dir: String,
}

impl PipelineOutcome {
    /// The outcome of a run over `total` departments that ended in `state`.
    pub fn summarize(
        total: u64,
        state: &BatchState,
        aggregate_partial: bool,
        state_path: String,
        output_dir: String,
    ) -> (r: Self)
        ensures
            r.total_departments == total,
            r.completed_departments == state.completed@.len(),
            r.failed_departments == state.failed@.len(),
            r.aggregate_partial == aggregate_partial,
            r.partial == (state.failed@.len() > 0 || aggregate_partial),
            r.state_path == state_path,
            r.output_dir == output_dir,
    {
        let failed = state.failed.len();
        PipelineOutcome {
            total_departments: total,
            completed_departments: state.completed.len() as u64,
            failed_departments: failed as u64,
            partial: failed > 0 || aggregate_partial,
            aggregate_partial,
            state_path,
            output_dir,
        }
    }
}

/// Records waiting to be written, flushed in batches of `batch_size`.
pub struct RecordBuffer {
    pub records: Vec<MatchOutput>,
    pub batch_size: usize,
}

impl RecordBuffer {
    /// An empty buffer.
    pub fn new(batch_size: usize) -> (r: Self)
        ensures
            r.records@.len() == 0,
            r.batch_size == batch_size,
    {
        RecordBuffer { records: Vec::new(), batch_size }
    }

    /// Adds a record; once the buffer holds `batch_size` records (at least
    /// one), they are handed back as a batch to write and the buffer empties.
    pub fn push(&mut self, m: MatchOutput) -> (r: Option<Vec<MatchOutput>>)
        ensures
            final(self).batch_size == old(self).batch_size,
            old(self).records@.len() + 1 >= old(self).batch_size ==> {
                &&& r.is_some()
                &&& r.unwrap()@ == old(self).records@.push(m)
                &&& final(self).records@.len() == 0
            },
            old(self).records@.len() + 1 < old(self).batch_size ==> {
                &&& r.is_none()
                &&& final(self).records@ == old(self).records@.push(m)
            },
    {
        self.records.push(m);
        if self.records.len() >= self.batch_size {
            Some(self.take_all())
        } else {
            None
        }
    }

    /// Hands back every waiting record and empties the buffer.
    pub fn take_all(&mut self) -> (r: Vec<MatchOutput>)
        ensures
            r@ == old(self).records@,
            final(self).records@.len() == 0,
            final(self).batch_size == old(self).batch_size,
    {
        let mut out: Vec<MatchOutput> = Vec::new();
        std::mem::swap(&mut out, &mut self.records);
        out
    }
}

} // verus!
