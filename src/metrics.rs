use vstd::prelude::*;
use crate::matrix::Matrix;

verus! {

/// `greater` answers the same for the same arguments, and what it answers
/// is a strict total order: irreflexive, transitive, and any two distinct
/// values are comparable.
pub open spec fn is_strict_total_order<T, G: Fn(T, T) -> bool>(greater: G) -> bool {
    &&& forall|x: T, y: T| greater.requires((x, y))
    &&& forall|x: T, y: T| #[trigger] greater.ensures((x, y), true) != greater.ensures((x, y), false)
    &&& forall|x: T| !greater.ensures((x, x), true)
    &&& forall|x: T, y: T, z: T|
        #![trigger greater.ensures((x, y), true), greater.ensures((y, z), true)]
        greater.ensures((x, y), true) && greater.ensures((y, z), true) ==> greater.ensures((x, z), true)
    &&& forall|x: T, y: T| x != y ==> greater.ensures((x, y), true) || greater.ensures((y, x), true)
}

/// `pred` answers the same for the same argument.
pub open spec fn is_decision<T, P: Fn(T) -> bool>(pred: P) -> bool {
    &&& forall|x: T| pred.requires((x,))
    &&& forall|x: T| #[trigger] pred.ensures((x,), true) != pred.ensures((x,), false)
}

/// The predicted class of sample (column) `c`: the first row holding the
/// largest value, among values above `floor`; row 0 when none is above.
pub fn predicted_class<T: Copy, G: Fn(T, T) -> bool>(m: &Matrix<T>, c: usize, floor: T, greater: G) -> (r: usize)
    requires
        m.wf(),
        c < m.cols,
        is_strict_total_order(greater),
    ensures
        (forall|k: int| 0 <= k < m.rows ==> !greater.ensures((#[trigger] m.at(k, c as int), floor), true)) ==> r
            == 0,
        (exists|k: int| 0 <= k < m.rows && greater.ensures((#[trigger] m.at(k, c as int), floor), true)) ==> {
            &&& r < m.rows
            &&& greater.ensures((m.at(r as int, c as int), floor), true)
            &&& forall|k: int|
                0 <= k < m.rows ==> !greater.ensures((#[trigger] m.at(k, c as int), m.at(r as int, c as int)), true)
            &&& forall|k: int|
                0 <= k < r ==> greater.ensures((m.at(r as int, c as int), #[trigger] m.at(k, c as int)), true)
        },
{
    let mut best = floor;
    let mut predicted: usize = 0;
    let mut found = false;
    let mut row: usize = 0;
    while row < m.rows
        invariant
            m.wf(),
            c < m.cols,
            is_strict_total_order(greater),
            row <= m.rows,
            !found ==> best == floor && predicted == 0,
            !found ==> forall|k: int| 0 <= k < row ==> !greater.ensures((#[trigger] m.at(k, c as int), floor), true),
            found ==> {
                &&& predicted < row
                &&& best == m.at(predicted as int, c as int)
                &&& greater.ensures((best, floor), true)
                &&& forall|k: int| 0 <= k < row ==> !greater.ensures((#[trigger] m.at(k, c as int), best), true)
                &&& forall|k: int| 0 <= k < predicted ==> greater.ensures((best, #[trigger] m.at(k, c as int)), true)
            },
        decreases m.rows - row,
    {
        let v = m.get(row, c);
        let above = greater(v, best);
        if above {
            proof {
                assert forall|k: int| 0 <= k < row implies !greater.ensures((#[trigger] m.at(k, c as int), v), true) by {
                    if greater.ensures((m.at(k, c as int), v), true) {
                        if found {
                            assert(greater.ensures((m.at(k, c as int), best), true));
                        } else {
                            assert(greater.ensures((m.at(k, c as int), floor), true));
                        }
                    }
                }
                assert forall|k: int| 0 <= k < row implies greater.ensures((v, #[trigger] m.at(k, c as int)), true) by {
                    if m.at(k, c as int) == v {
                        if found {
                            assert(!greater.ensures((m.at(k, c as int), best), true));
                        } else {
                            assert(!greater.ensures((m.at(k, c as int), floor), true));
                        }
                    }
                }
                if found {
                    assert(greater.ensures((v, floor), true));
                }
            }
            best = v;
            predicted = row;
            found = true;
        } else {
            proof {
                assert(greater.ensures((v, best), false));
            }
        }
        row = row + 1;
    }
    predicted
}

/// The true class of sample (column) `c` of a one-hot target matrix: the
/// first row where `is_hot` holds; row 0 when there is none.
pub fn true_class<T: Copy, P: Fn(T) -> bool>(m: &Matrix<T>, c: usize, is_hot: P) -> (r: usize)
    requires
        m.wf(),
        c < m.cols,
        is_decision(is_hot),
    ensures
        (forall|k: int| 0 <= k < m.rows ==> !is_hot.ensures((#[trigger] m.at(k, c as int),), true)) ==> r == 0,
        (exists|k: int| 0 <= k < m.rows && is_hot.ensures((#[trigger] m.at(k, c as int),), true)) ==> {
            &&& r < m.rows
            &&& is_hot.ensures((m.at(r as int, c as int),), true)
            &&& forall|k: int| 0 <= k < r ==> !is_hot.ensures((#[trigger] m.at(k, c as int),), true)
        },
{
    let mut row: usize = 0;
    while row < m.rows
        invariant
            m.wf(),
            c < m.cols,
            is_decision(is_hot),
            row <= m.rows,
            forall|k: int| 0 <= k < row ==> !is_hot.ensures((#[trigger] m.at(k, c as int),), true),
        decreases m.rows - row,
    {
        let v = m.get(row, c);
        if is_hot(v) {
            return row;
        }
        proof {
            assert(is_hot.ensures((v,), false));
        }
        row = row + 1;
    }
    0
}

/// How many of the first `n` positions hold equal classes in `a` and `b`.
pub open spec fn count_equal(a: Seq<usize>, b: Seq<usize>, n: nat) -> nat
    decreases n,
{
    if n == 0 {
        0
    } else {
        count_equal(a, b, (n - 1) as nat) + if a[n - 1] == b[n - 1] {
            1nat
        } else {
            0nat
        }
    }
}

/// The number of samples whose predicted class is the true class.
pub fn count_matches(predicted: &Vec<usize>, truth: &Vec<usize>) -> (r: usize)
    requires
        predicted@.len() == truth@.len(),
    ensures
        r == count_equal(predicted@, truth@, predicted@.len()),
{
    let mut count: usize = 0;
    let mut i: usize = 0;
    while i < predicted.len()
        invariant
            predicted@.len() == truth@.len(),
            i <= predicted@.len(),
            count == count_equal(predicted@, truth@, i as nat),
            count <= i,
        decreases predicted@.len() - i,
    {
        if predicted[i] == truth[i] {
            count = count + 1;
        }
        i = i + 1;
    }
    count
}

} // verus!
