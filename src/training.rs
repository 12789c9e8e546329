use vstd::prelude::*;
use crate::matrix::{is_permutation, Matrix, MatrixError};

verus! {

/// Metrics are recorded on the first epoch and on every `REPORT_EVERY`-th.
pub const REPORT_EVERY: usize = 10;

/// Whether the metrics of `epoch` (counted from 1) are recorded.
pub fn should_record(epoch: usize) -> (r: bool)
    ensures
        r == (epoch % REPORT_EVERY == 0 || epoch == 1),
{
    epoch % REPORT_EVERY == 0 || epoch == 1
}

/// What the training loop does next.
#[derive(Clone, Copy, Debug, PartialEq, Eq, Structural)]
pub enum Step {
    /// Run epoch `epoch` (counted from 1); `record` tells whether its metrics
    /// are reported to the callbacks.
    Epoch { epoch: usize, record: bool },
    /// All epochs ran, or a callback asked to stop: run the end-of-training
    /// hooks.
    Finish,
}

/// The epoch loop's decisions: epochs `1 ..= epochs` in order, until they
/// are done or a stop is requested at a reporting epoch.
#[derive(Clone, Copy, Debug, PartialEq, Eq, Structural)]
pub struct Schedule {
    pub epochs: usize,
    /// Epochs started so far.
    pub done: usize,
    pub stopped: bool,
}

impl Schedule {
    pub open spec fn wf(&self) -> bool {
        self.done <= self.epochs
    }

    pub fn new(epochs: usize) -> (s: Schedule)
        ensures
            s.wf(),
            s == (Schedule { epochs, done: 0, stopped: false }),
    {
        Schedule { epochs, done: 0, stopped: false }
    }

    /// The next step. Epochs come one after another from 1; after the last
    /// one, or after a stop, every call answers `Finish`.
    pub fn next(&mut self) -> (step: Step)
        requires
            old(self).wf(),
        ensures
            final(self).wf(),
            final(self).epochs == old(self).epochs,
            final(self).stopped == old(self).stopped,
            (old(self).stopped || old(self).done == old(self).epochs) ==> step == Step::Finish && *final(self)
                == *old(self),
            !(old(self).stopped || old(self).done == old(self).epochs) ==> {
                &&& final(self).done == old(self).done + 1
                &&& step == (Step::Epoch {
                    epoch: final(self).done,
                    record: final(self).done % REPORT_EVERY == 0 || final(self).done == 1,
                })
            },
    {
        if self.stopped || self.done == self.epochs {
            return Step::Finish;
        }
        self.done = self.done + 1;
        Step::Epoch { epoch: self.done, record: should_record(self.done) }
    }

    /// A callback asked to stop: no further epoch runs.
    pub fn stop(&mut self)
        ensures
            *final(self) == (Schedule { stopped: true, ..*old(self) }),
    {
        self.stopped = true;
    }
}

/// Reorders the samples (columns) of `inputs` and `targets` by one random
/// order, the same for both, so each sample keeps its label. Fails, leaving
/// both as they were, when they do not hold the same number of samples.
pub fn shuffle_samples<T: Copy>(inputs: &mut Matrix<T>, targets: &mut Matrix<T>) -> (r: Result<(), MatrixError>)
    requires
        old(inputs).wf(),
        old(targets).wf(),
    ensures
        r.is_ok() <==> old(inputs).cols == old(targets).cols,
        r.is_err() ==> {
            &&& r == Err::<(), MatrixError>(
                MatrixError::DimensionMismatch {
                    left_rows: old(inputs).rows,
                    left_cols: old(inputs).cols,
                    right_rows: old(targets).rows,
                    right_cols: old(targets).cols,
                },
            )
            &&& *final(inputs) == *old(inputs)
            &&& *final(targets) == *old(targets)
        },
        r.is_ok() ==> exists|p: Seq<usize>|
            is_permutation(p, old(inputs).cols as nat) && final(inputs).is_shuffle_of(*old(inputs), p)
                && final(targets).is_shuffle_of(*old(targets), p),
{
    if inputs.cols != targets.cols {
        return Err(
            MatrixError::DimensionMismatch {
                left_rows: inputs.rows,
                left_cols: inputs.cols,
                right_rows: targets.rows,
                right_cols: targets.cols,
            },
        );
    }
    let order = inputs.generate_shuffled_indices();
    let a = inputs.shuffle_columns(&order);
    let b = targets.shuffle_columns(&order);
    proof {
        assert(a.is_ok() && b.is_ok());
        assert(is_permutation(order@, old(inputs).cols as nat) && inputs.is_shuffle_of(*old(inputs), order@)
            && targets.is_shuffle_of(*old(targets), order@));
    }
    Ok(())
}

} // verus!
