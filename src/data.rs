use vstd::prelude::*;
use crate::matrix::Matrix;

verus! {

/// Why loaded data was refused.
#[derive(Clone, Copy, Debug, PartialEq, Eq, Structural)]
pub enum DataError {
    /// Sample `sample` has the label `label`, which is not below the number
    /// of classes.
    LabelOutOfRange { sample: usize, label: usize },
    /// The inputs and the labels disagree on the number of samples.
    SampleCountMismatch { inputs: usize, labels: usize },
    /// Record `sample` has `found` fields where `expected` were due.
    WrongFieldCount { sample: usize, expected: usize, found: usize },
}

/// The targets for `labels`: one column per sample, `one` in the row of its
/// class and `zero` in every other row. The first label that is not below
/// `classes` is reported instead.
pub fn one_hot<T: Copy>(labels: &Vec<usize>, classes: usize, zero: T, one: T) -> (r: Result<Matrix<T>, DataError>)
    requires
        classes * labels@.len() <= usize::MAX,
    ensures
        r.is_ok() <==> forall|c: int| 0 <= c < labels@.len() ==> #[trigger] labels@[c] < classes,
        r.is_err() ==> exists|c: int|
            0 <= c < labels@.len() && labels@[c] >= classes && (forall|d: int|
                0 <= d < c ==> #[trigger] labels@[d] < classes) && r == Err::<Matrix<T>, DataError>(
                DataError::LabelOutOfRange { sample: c as usize, label: labels@[c] },
            ),
        r.is_ok() ==> {
            let m = r.unwrap();
            &&& m.wf()
            &&& m.rows == classes
            &&& m.cols == labels@.len()
            &&& forall|row: int, c: int|
                0 <= row < classes && 0 <= c < labels@.len() ==> #[trigger] m.at(row, c) == if row
                    == labels@[c] as int {
                    one
                } else {
                    zero
                }
        },
{
    let n = labels.len();
    let mut m = Matrix::new(classes, n, zero);
    let mut c: usize = 0;
    while c < n
        invariant
            n == labels@.len(),
            c <= n,
            m.wf(),
            m.rows == classes,
            m.cols == n,
            forall|d: int| 0 <= d < c ==> #[trigger] labels@[d] < classes,
            forall|row: int, d: int|
                0 <= row < classes && 0 <= d < n ==> #[trigger] m.at(row, d) == if d < c && row
                    == labels@[d] as int {
                    one
                } else {
                    zero
                },
        decreases n - c,
    {
        let label = labels[c];
        if label >= classes {
            return Err(DataError::LabelOutOfRange { sample: c, label });
        }
        m.set(label, c, one);
        c = c + 1;
    }
    Ok(m)
}

/// Checks that the inputs and the labels describe the same samples.
pub fn check_sample_counts(inputs: usize, labels: usize) -> (r: Result<(), DataError>)
    ensures
        inputs == labels ==> r.is_ok(),
        inputs != labels ==> r == Err::<(), DataError>(DataError::SampleCountMismatch { inputs, labels }),
{
    if inputs != labels {
        return Err(DataError::SampleCountMismatch { inputs, labels });
    }
    Ok(())
}

/// Checks that record `sample` has the `expected` number of fields.
pub fn check_field_count(sample: usize, expected: usize, found: usize) -> (r: Result<(), DataError>)
    ensures
        expected == found ==> r.is_ok(),
        expected != found ==> r == Err::<(), DataError>(DataError::WrongFieldCount { sample, expected, found }),
{
    if expected != found {
        return Err(DataError::WrongFieldCount { sample, expected, found });
    }
    Ok(())
}

} // verus!
