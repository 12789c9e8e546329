use vstd::prelude::*;
use crate::matrix::{sum_cols, Matrix, MatrixError};

verus! {

/// Why a layer refused a backward pass.
#[derive(Clone, Copy, Debug, PartialEq, Eq, Structural)]
pub enum LayerError {
    /// `backward` came without a `forward` before it (or after the cache of
    /// that forward was already used).
    NoMatchingForward,
    /// The gradient's shape does not match what the forward pass saw.
    Shape(MatrixError),
}

/// What a layer's forward pass keeps for its backward pass. A forward pass
/// fills it, overwriting what was there; a backward pass empties it, so each
/// cached value serves exactly one backward pass.
pub struct ForwardCache<T> {
    slot: Option<Matrix<T>>,
}

impl<T> ForwardCache<T> {
    /// What the cache holds, if anything.
    pub closed spec fn held(&self) -> Option<Matrix<T>> {
        self.slot
    }

    /// An empty cache: no forward pass has happened yet.
    pub fn new() -> (c: Self)
        ensures
            c.held() is None,
    {
        ForwardCache { slot: None }
    }

    /// Keeps `m` for the next backward pass, replacing what was kept.
    pub fn store(&mut self, m: Matrix<T>)
        ensures
            final(self).held() == Some(m),
    {
        self.slot = Some(m);
    }

    /// Whether a forward pass is waiting for its backward pass.
    pub fn is_filled(&self) -> (r: bool)
        ensures
            r == self.held() is Some,
    {
        self.slot.is_some()
    }

    /// Hands out what the last forward pass kept and empties the cache. Fails
    /// when no forward pass is waiting.
    pub fn take(&mut self) -> (r: Result<Matrix<T>, LayerError>)
        ensures
            final(self).held() is None,
            old(self).held() is None ==> r == Err::<Matrix<T>, LayerError>(LayerError::NoMatchingForward),
            old(self).held() is Some ==> r == Ok::<Matrix<T>, LayerError>(old(self).held()->0),
    {
        match self.slot.take() {
            Some(m) => Ok(m),
            None => Err(LayerError::NoMatchingForward),
        }
    }
}

/// `out` is `grad` passed through where `positive` held of the forward input
/// and `zero` elsewhere, position by position: `mask` records what `positive`
/// answered at each position.
pub open spec fn is_masked_by<T, P: Fn(T) -> bool>(
    out: Matrix<T>,
    grad: Matrix<T>,
    input: Matrix<T>,
    positive: P,
    zero: T,
    mask: Seq<bool>,
) -> bool {
    &&& out.wf()
    &&& out.rows == grad.rows
    &&& out.cols == grad.cols
    &&& mask.len() == out.data@.len()
    &&& forall|i: int|
        0 <= i < out.data@.len() ==> positive.ensures((input.data@[i],), #[trigger] mask[i]) && out.data@[i] == if mask[i] {
            grad.data@[i]
        } else {
            zero
        }
}

/// The gradient of the rectifier: `grad` where the cached forward input was
/// positive, exactly `zero` where it was not.
pub fn relu_backward<T: Copy, P: Fn(T) -> bool>(grad: &Matrix<T>, input: &Matrix<T>, positive: P, zero: T) -> (r:
    Result<Matrix<T>, MatrixError>)
    requires
        grad.wf(),
        input.wf(),
        forall|x: T| positive.requires((x,)),
    ensures
        r.is_ok() <==> (grad.rows == input.rows && grad.cols == input.cols),
        r.is_err() ==> r == Err::<Matrix<T>, MatrixError>(
            MatrixError::DimensionMismatch {
                left_rows: grad.rows,
                left_cols: grad.cols,
                right_rows: input.rows,
                right_cols: input.cols,
            },
        ),
        r.is_ok() ==> exists|mask: Seq<bool>| is_masked_by(r.unwrap(), *grad, *input, positive, zero, mask),
{
    if grad.rows != input.rows || grad.cols != input.cols {
        return Err(
            MatrixError::DimensionMismatch {
                left_rows: grad.rows,
                left_cols: grad.cols,
                right_rows: input.rows,
                right_cols: input.cols,
            },
        );
    }
    let n = grad.data.len();
    let mut data: Vec<T> = Vec::with_capacity(n);
    let ghost mut mask: Seq<bool> = Seq::empty();
    let mut i: usize = 0;
    while i < n
        invariant
            n == grad.data@.len(),
            n == input.data@.len(),
            i <= n,
            data@.len() == i,
            mask.len() == i,
            forall|x: T| positive.requires((x,)),
            forall|k: int|
                0 <= k < i ==> positive.ensures((input.data@[k],), #[trigger] mask[k]) && data@[k] == if mask[k] {
                    grad.data@[k]
                } else {
                    zero
                },
        decreases n - i,
    {
        let b = positive(input.data[i]);
        let v = if b {
            grad.data[i]
        } else {
            zero
        };
        data.push(v);
        proof {
            mask = mask.push(b);
        }
        i = i + 1;
    }
    let out = Matrix { rows: grad.rows, cols: grad.cols, data };
    let r: Result<Matrix<T>, MatrixError> = Ok(out);
    proof {
        assert(r.unwrap() == out);
        assert(is_masked_by(r.unwrap(), *grad, *input, positive, zero, mask));
    }
    r
}

/// `o` is `m` with the column `bias` added to each of its columns by `plus`.
pub open spec fn is_bias_sum_of<T, A: Fn(T, T) -> T>(o: Matrix<T>, m: Matrix<T>, bias: Matrix<T>, plus: A) -> bool {
    &&& o.wf()
    &&& o.rows == m.rows
    &&& o.cols == m.cols
    &&& forall|row: int, col: int|
        0 <= row < m.rows && 0 <= col < m.cols ==> plus.ensures((m.at(row, col), bias.at(row, 0)), #[trigger] o.at(row, col))
}

/// Adds the column `bias` to every column of `m` with `plus`: the affine
/// layer's `W x + b` over a batch.
pub fn add_bias<T: Copy, A: Fn(T, T) -> T>(m: &Matrix<T>, bias: &Matrix<T>, plus: A) -> (r: Result<
    Matrix<T>,
    MatrixError,
>)
    requires
        m.wf(),
        bias.wf(),
        forall|x: T, y: T| plus.requires((x, y)),
    ensures
        r.is_ok() <==> (bias.rows == m.rows && bias.cols == 1),
        r.is_err() ==> r == Err::<Matrix<T>, MatrixError>(
            MatrixError::DimensionMismatch {
                left_rows: m.rows,
                left_cols: m.cols,
                right_rows: bias.rows,
                right_cols: bias.cols,
            },
        ),
        r.is_ok() ==> is_bias_sum_of(r.unwrap(), *m, *bias, plus),
{
    if bias.rows != m.rows || bias.cols != 1 {
        return Err(
            MatrixError::DimensionMismatch {
                left_rows: m.rows,
                left_cols: m.cols,
                right_rows: bias.rows,
                right_cols: bias.cols,
            },
        );
    }
    let mut out = m.clone_matrix();
    let mut col: usize = 0;
    while col < m.cols
        invariant
            m.wf(),
            bias.wf(),
            bias.rows == m.rows,
            bias.cols == 1,
            out.wf(),
            out.rows == m.rows,
            out.cols == m.cols,
            col <= m.cols,
            forall|x: T, y: T| plus.requires((x, y)),
            forall|r2: int, c2: int|
                0 <= r2 < m.rows && col <= c2 < m.cols ==> #[trigger] out.at(r2, c2) == m.at(r2, c2),
            forall|r2: int, c2: int|
                0 <= r2 < m.rows && 0 <= c2 < col ==> plus.ensures(
                    (m.at(r2, c2), bias.at(r2, 0)),
                    #[trigger] out.at(r2, c2),
                ),
        decreases m.cols - col,
    {
        let mut row: usize = 0;
        while row < m.rows
            invariant
                m.wf(),
                bias.wf(),
                bias.rows == m.rows,
                bias.cols == 1,
                out.wf(),
                out.rows == m.rows,
                out.cols == m.cols,
                col < m.cols,
                row <= m.rows,
                forall|x: T, y: T| plus.requires((x, y)),
                forall|r2: int, c2: int|
                    0 <= r2 < m.rows && col < c2 < m.cols ==> #[trigger] out.at(r2, c2) == m.at(r2, c2),
                forall|r2: int| row <= r2 < m.rows ==> #[trigger] out.at(r2, col as int) == m.at(r2, col as int),
                forall|r2: int, c2: int|
                    0 <= r2 < m.rows && 0 <= c2 < col ==> plus.ensures(
                        (m.at(r2, c2), bias.at(r2, 0)),
                        #[trigger] out.at(r2, c2),
                    ),
                forall|r2: int|
                    0 <= r2 < row ==> plus.ensures(
                        (m.at(r2, col as int), bias.at(r2, 0)),
                        #[trigger] out.at(r2, col as int),
                    ),
            decreases m.rows - row,
        {
            let v = plus(out.get(row, col), bias.get(row, 0));
            out.set(row, col, v);
            row = row + 1;
        }
        col = col + 1;
    }
    Ok(out)
}

/// The affine layer's forward pass over a batch: `weights * input + biases`,
/// the bias column added to every column of the product.
pub fn affine_forward<T: Copy, M: Fn(T, T) -> T + Copy, A: Fn(T, T) -> T + Copy>(
    weights: &Matrix<T>,
    biases: &Matrix<T>,
    input: &Matrix<T>,
    zero: T,
    times: M,
    plus: A,
) -> (r: Result<Matrix<T>, MatrixError>)
    requires
        weights.wf(),
        biases.wf(),
        input.wf(),
        weights.rows * input.cols <= usize::MAX,
        forall|x: T, y: T| times.requires((x, y)),
        forall|x: T, y: T| plus.requires((x, y)),
    ensures
        r.is_ok() <==> (weights.cols == input.rows && biases.rows == weights.rows && biases.cols == 1),
        r.is_ok() ==> exists|p: Matrix<T>|
            p.is_product_of(*weights, *input, zero, times, plus) && is_bias_sum_of(r.unwrap(), p, *biases, plus),
{
    let product = match weights.mul(input, zero, times, plus) {
        Ok(p) => p,
        Err(e) => return Err(e),
    };
    let out = add_bias(&product, biases, plus);
    proof {
        if out.is_ok() {
            assert(is_bias_sum_of(out.unwrap(), product, *biases, plus));
        }
    }
    out
}

/// The gradients of the affine layer's backward pass, from the gradient
/// `grad` of its output, the forward input `input` and the weights:
/// `(weights^T * grad, scale(grad * input^T), scale(row sums of grad))`, for
/// the input, the weights and the biases. `scale` divides by the batch size.
pub fn affine_gradients<T: Copy, M: Fn(T, T) -> T + Copy, A: Fn(T, T) -> T + Copy, S: Fn(T) -> T + Copy>(
    weights: &Matrix<T>,
    input: &Matrix<T>,
    grad: &Matrix<T>,
    zero: T,
    times: M,
    plus: A,
    scale: S,
) -> (r: Result<(Matrix<T>, Matrix<T>, Matrix<T>), MatrixError>)
    requires
        weights.wf(),
        input.wf(),
        grad.wf(),
        weights.cols * grad.cols <= usize::MAX,
        grad.rows * input.rows <= usize::MAX,
        forall|x: T, y: T| times.requires((x, y)),
        forall|x: T, y: T| plus.requires((x, y)),
        forall|x: T| scale.requires((x,)),
    ensures
        r.is_ok() <==> (grad.rows == weights.rows && grad.cols == input.cols && input.rows == weights.cols),
        r.is_ok() ==> {
            let (d_input, d_weights, d_biases) = r.unwrap();
            &&& exists|wt: Matrix<T>|
                wt.is_transpose_of(*weights) && d_input.is_product_of(wt, *grad, zero, times, plus)
            &&& exists|it: Matrix<T>, p: Matrix<T>|
                it.is_transpose_of(*input) && p.is_product_of(*grad, it, zero, times, plus) && d_weights.is_map_of(
                    p,
                    scale,
                )
            &&& exists|s: Matrix<T>| s.is_row_sums_of(*grad, zero, plus) && d_biases.is_map_of(s, scale)
        },
{
    if grad.rows != weights.rows || grad.cols != input.cols || input.rows != weights.cols {
        return Err(
            MatrixError::DimensionMismatch {
                left_rows: grad.rows,
                left_cols: grad.cols,
                right_rows: weights.rows,
                right_cols: input.cols,
            },
        );
    }
    let wt = weights.transpose();
    let d_input = match wt.mul(grad, zero, times, plus) {
        Ok(p) => p,
        Err(e) => return Err(e),
    };
    let it = input.transpose();
    let p = match grad.mul(&it, zero, times, plus) {
        Ok(p) => p,
        Err(e) => return Err(e),
    };
    let d_weights = p.map(scale);
    let s = sum_cols(grad, zero, plus);
    let d_biases = s.map(scale);
    let r: Result<(Matrix<T>, Matrix<T>, Matrix<T>), MatrixError> = Ok((d_input, d_weights, d_biases));
    proof {
        let (ri, rw, rb) = r.unwrap();
        assert(wt.is_transpose_of(*weights) && ri.is_product_of(wt, *grad, zero, times, plus));
        assert(it.is_transpose_of(*input) && p.is_product_of(*grad, it, zero, times, plus) && rw.is_map_of(p, scale));
        assert(s.is_row_sums_of(*grad, zero, plus) && rb.is_map_of(s, scale));
    }
    r
}

/// The rectifier layer: forward applies `max(0, x)` element-wise and keeps
/// its input; backward passes the gradient where that input was positive.
pub struct ReLULayer<T> {
    input_cache: ForwardCache<T>,
}

impl<T: Copy> ReLULayer<T> {
    /// The forward input kept for the next backward pass, if any.
    pub closed spec fn cached_input(&self) -> Option<Matrix<T>> {
        self.input_cache.held()
    }

    /// A kept input is a well-formed matrix.
    pub open spec fn wf(&self) -> bool {
        self.cached_input() is Some ==> self.cached_input()->0.wf()
    }

    pub fn new() -> (l: Self)
        ensures
            l.wf(),
            l.cached_input() is None,
    {
        ReLULayer { input_cache: ForwardCache::new() }
    }

    /// Applies `rectify` (the rectifier on one element) to every element of
    /// `input`, and keeps `input` for the backward pass.
    pub fn forward<F: Fn(T) -> T>(&mut self, input: &Matrix<T>, rectify: F) -> (out: Matrix<T>)
        requires
            input.wf(),
            forall|x: T| rectify.requires((x,)),
        ensures
            out.is_map_of(*input, rectify),
            final(self).wf(),
            final(self).cached_input() is Some,
            final(self).cached_input()->0.same(*input),
    {
        self.input_cache.store(input.clone_matrix());
        input.map(rectify)
    }

    /// Masks `grad` by the input of the last forward pass (see
    /// `relu_backward`) and forgets that input. Fails when no forward pass
    /// is waiting, or when `grad` does not have its shape.
    pub fn backward<P: Fn(T) -> bool>(&mut self, grad: &Matrix<T>, positive: P, zero: T) -> (r: Result<
        Matrix<T>,
        LayerError,
    >)
        requires
            grad.wf(),
            old(self).wf(),
            forall|x: T| positive.requires((x,)),
        ensures
            final(self).wf(),
            final(self).cached_input() is None,
            old(self).cached_input() is None ==> r == Err::<Matrix<T>, LayerError>(LayerError::NoMatchingForward),
            old(self).cached_input() is Some ==> {
                let input = old(self).cached_input()->0;
                &&& r.is_ok() <==> (grad.rows == input.rows && grad.cols == input.cols)
                &&& r.is_err() ==> r == Err::<Matrix<T>, LayerError>(
                    LayerError::Shape(
                        MatrixError::DimensionMismatch {
                            left_rows: grad.rows,
                            left_cols: grad.cols,
                            right_rows: input.rows,
                            right_cols: input.cols,
                        },
                    ),
                )
                &&& r.is_ok() ==> exists|mask: Seq<bool>| is_masked_by(r.unwrap(), *grad, input, positive, zero, mask)
            },
    {
        let input = match self.input_cache.take() {
            Ok(m) => m,
            Err(e) => return Err(e),
        };
        let r = match relu_backward(grad, &input, positive, zero) {
            Ok(m) => Ok(m),
            Err(e) => Err(LayerError::Shape(e)),
        };
        proof {
            if r.is_ok() {
                let mask = choose|mask: Seq<bool>| is_masked_by(r.unwrap(), *grad, input, positive, zero, mask);
                assert(is_masked_by(r.unwrap(), *grad, input, positive, zero, mask));
            }
        }
        r
    }
}

} // verus!
